//! What holds across the algorithms and across calls, proved from the
//! contracts of the functions concerned.

use crate::algorithms::bvh::no_ties;
use crate::algorithms::{Bvh, Naive, Octree};
use crate::geometry::{distance_squared, within_radius, EntityPositionPair, Position};
use crate::model::{
    distinct_ids, entries_map, ids_within, is_answer, lemma_answer_contains, lemma_answers_agree,
    lemma_empty_index_empty_answer, lemma_ids_within_is_answer, lemma_permutation_same_map,
};
use crate::{SpatialLookupAlgorithm, SpatialLookupState};
use vstd::prelude::*;

verus! {

/// Two algorithms whose indexes hold the same entities give the same answer
/// to every query: the same identifiers, and equally many.
pub proof fn lemma_same_index_same_answer<A: SpatialLookupAlgorithm, B: SpatialLookupAlgorithm>(
    a: A,
    b: B,
    found_a: Seq<u64>,
    found_b: Seq<u64>,
    centre: Position,
    radius: u64,
)
    requires
        a.indexed() == b.indexed(),
        is_answer(found_a, a.indexed(), centre, radius),
        is_answer(found_b, b.indexed(), centre, radius),
    ensures
        found_a.to_set() == found_b.to_set(),
        found_a.len() == found_b.len(),
{
    lemma_answers_agree(found_a, found_b, a.indexed(), centre, radius);
}

/// The three algorithms agree. Prepared from one snapshot with distinct
/// identifiers, the linear scan, the bounding volume hierarchy and the
/// octree answer every query with the same identifiers, each listed once.
pub proof fn lemma_cross_algorithm_agreement(
    naive: Naive,
    bvh: Bvh,
    octree: Octree,
    snapshot: Seq<EntityPositionPair>,
    centre: Position,
    radius: u64,
    found_naive: Seq<u64>,
    found_bvh: Seq<u64>,
    found_octree: Seq<u64>,
)
    requires
        distinct_ids(snapshot),
        naive.entries() == snapshot,
        bvh.entries().to_multiset() == snapshot.to_multiset(),
        octree@ == entries_map(snapshot),
        found_naive == ids_within(naive.entries(), centre, radius),
        found_bvh == ids_within(bvh.entries(), centre, radius),
        is_answer(found_octree, octree@, centre, radius),
    ensures
        found_naive.to_set() == found_bvh.to_set(),
        found_naive.to_set() == found_octree.to_set(),
        found_naive.len() == found_bvh.len(),
        found_naive.len() == found_octree.len(),
        found_naive.no_duplicates(),
        found_bvh.no_duplicates(),
        found_octree.no_duplicates(),
{
    let index = entries_map(snapshot);
    lemma_permutation_same_map(snapshot, bvh.entries());
    lemma_ids_within_is_answer(snapshot, centre, radius);
    lemma_ids_within_is_answer(bvh.entries(), centre, radius);
    lemma_answers_agree(found_naive, found_bvh, index, centre, radius);
    lemma_answers_agree(found_naive, found_octree, index, centre, radius);
}

/// An algorithm whose index is empty finds nothing: one that was never
/// prepared, or one that was prepared with no entities.
pub proof fn lemma_empty_index_finds_nothing<A: SpatialLookupAlgorithm>(
    algorithm: A,
    found: Seq<u64>,
    centre: Position,
    radius: u64,
)
    requires
        algorithm.indexed() == Map::<u64, Position>::empty(),
        is_answer(found, algorithm.indexed(), centre, radius),
    ensures
        found.len() == 0,
{
    lemma_empty_index_empty_answer(found, centre, radius);
}

/// Preparing twice in a row is preparing once: the second call changes
/// nothing, so every query is answered against the same index as before.
pub proof fn lemma_prepare_idempotent<A: SpatialLookupAlgorithm>(
    start: SpatialLookupState<A>,
    once: SpatialLookupState<A>,
    twice: SpatialLookupState<A>,
)
    requires
        SpatialLookupState::prepared(start, once),
        SpatialLookupState::prepared(once, twice),
    ensures
        twice == once,
        twice.indexed() == once.indexed(),
{
}

/// Building the hierarchy is repeatable. Two hierarchies with the same
/// configuration, prepared from the same snapshot, answer every query with
/// the same list, in the same order, provided that no two entities of the
/// snapshot share a coordinate along any axis. (Where coordinates tie, the
/// sort leaves the order of the tied entities open, and only the set of the
/// answer is fixed.)
pub proof fn lemma_hierarchy_repeatable(
    first: Bvh,
    second: Bvh,
    snapshot: Seq<EntityPositionPair>,
    centre: Position,
    radius: u64,
    found_first: Seq<u64>,
    found_second: Seq<u64>,
)
    requires
        no_ties(snapshot),
        first.built_from(snapshot),
        second.built_from(snapshot),
        first.leaf_capacity() == second.leaf_capacity(),
        first.split_samples() == second.split_samples(),
        found_first == ids_within(first.entries(), centre, radius),
        found_second == ids_within(second.entries(), centre, radius),
    ensures
        found_first == found_second,
        first.entries() == second.entries(),
        first.depth() == second.depth(),
{
    first.lemma_built_once(&second, snapshot);
}

/// An octree that was kept current by single-entity operations answers
/// every query as an octree that was built from the final snapshot does.
pub proof fn lemma_incremental_matches_rebuild(
    incremental: Octree,
    rebuilt: Octree,
    snapshot: Seq<EntityPositionPair>,
    centre: Position,
    radius: u64,
    found_incremental: Seq<u64>,
    found_rebuilt: Seq<u64>,
)
    requires
        incremental@ == entries_map(snapshot),
        rebuilt@ == entries_map(snapshot),
        is_answer(found_incremental, incremental@, centre, radius),
        is_answer(found_rebuilt, rebuilt@, centre, radius),
    ensures
        found_incremental.to_set() == found_rebuilt.to_set(),
        found_incremental.len() == found_rebuilt.len(),
{
    lemma_answers_agree(found_incremental, found_rebuilt, incremental@, centre, radius);
}

/// An entity that has been inserted is found by every query round its own
/// position, wherever that position lies.
pub proof fn lemma_inserted_is_found(
    before: Map<u64, Position>,
    entity: u64,
    position: Position,
    radius: u64,
    found: Seq<u64>,
)
    requires
        is_answer(found, before.insert(entity, position), position, radius),
    ensures
        found.contains(entity),
{
    assert(distance_squared(position, position) == 0);
    assert(0 <= radius * radius) by (nonlinear_arith);
    assert(within_radius(position, position, radius));
    lemma_answer_contains(found, before.insert(entity, position), position, radius, entity);
}

/// An entity that has moved is found where it is now, and no longer where
/// it was, unless the query reaches its new position too.
pub proof fn lemma_moved_is_found_at_new_position(
    before: Map<u64, Position>,
    entity: u64,
    position: Position,
    centre: Position,
    radius: u64,
    found: Seq<u64>,
)
    requires
        is_answer(found, before.insert(entity, position), centre, radius),
    ensures
        found.contains(entity) <==> within_radius(position, centre, radius),
{
    lemma_answer_contains(found, before.insert(entity, position), centre, radius, entity);
}

} // verus!

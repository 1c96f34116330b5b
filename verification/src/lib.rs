//! Spatial lookup of tracked points: "which identifiers lie within a radius of
//! a sample point?", answered by interchangeable index algorithms.
//!
//! An entity is known by a `u64` identifier. Positions live on an integer
//! lattice and radii are whole numbers of lattice units, so every distance
//! test is exact, and every algorithm gives exactly the same answer.
//!
//! - [`geometry`] has the lattice points and the radius test.
//! - [`model`] has the vocabulary of the contracts: what a snapshot stands
//!   for, and what a correct answer is.
//! - [`algorithms`] has the linear scan, the bounding volume hierarchy and the
//!   octree.
//! - [`SpatialLookupState`] owns the tracked set and one algorithm, and
//!   decides when the index is rebuilt and when it is only patched.
//! - [`laws`] states what holds across the algorithms and across calls.

pub mod algorithms;
pub mod geometry;
pub mod laws;
pub mod model;
pub mod prelude;

use crate::algorithms::Naive;
use crate::geometry::{EntityPositionPair, Position};
use crate::model::{
    distinct_ids, entries_map, has_id, is_answer, lemma_distinct_push, lemma_entries_map_dom,
    lemma_entries_map_push, lemma_entries_map_swap_remove, lemma_entries_map_update,
};
use std::collections::HashMap;
use vstd::prelude::*;

verus! {

broadcast use vstd::std_specs::hash::group_hash_axioms;

/// A spatial index that answers radius queries.
///
/// An implementation describes itself by four specification functions: its
/// invariant, the map from identifier to position that it currently indexes,
/// whether it absorbs single-entity changes, and whether its next `prepare`
/// rebuilds the index from the snapshot it is given.
pub trait SpatialLookupAlgorithm {
    /// The invariant that every operation needs and keeps.
    spec fn wf(&self) -> bool;

    /// The identifiers that the index holds, each with its position.
    spec fn indexed(&self) -> Map<u64, Position>;

    /// Whether `insert_entity`, `remove_entity` and `update_entity` change
    /// the index.
    spec fn incremental(&self) -> bool;

    /// Whether the next `prepare` replaces the index by the snapshot.
    spec fn rebuilds(&self) -> bool;

    /// An algorithm whose `prepare` leaves the index alone keeps it current
    /// through the single-entity operations.
    proof fn lemma_no_rebuild_means_incremental(&self)
        requires
            self.wf(),
        ensures
            !self.rebuilds() ==> self.incremental(),
    ;

    /// Prepares the index from a snapshot with distinct identifiers.
    fn prepare(&mut self, entities: &[EntityPositionPair])
        requires
            old(self).wf(),
            distinct_ids(entities@),
        ensures
            final(self).wf(),
            final(self).incremental() == old(self).incremental(),
            final(self).indexed() == if old(self).rebuilds() {
                entries_map(entities@)
            } else {
                old(self).indexed()
            },
    ;

    /// Lists every indexed identifier whose position lies within `radius` of
    /// `sample_point`, the boundary included, and no other.
    fn entities_in_radius(&self, sample_point: Position, radius: u64) -> (found: Vec<u64>)
        requires
            self.wf(),
        ensures
            is_answer(found@, self.indexed(), sample_point, radius),
    ;

    /// Says whether the single-entity operations are supported.
    fn supports_incremental(&self) -> (supported: bool)
        ensures
            supported == self.incremental(),
    ;

    /// Adds an entity to the index, or moves it if it is there already.
    /// Without incremental support nothing changes.
    fn insert_entity(&mut self, entity: u64, position: Position)
        requires
            old(self).wf(),
        ensures
            final(self).wf(),
            final(self).incremental() == old(self).incremental(),
            final(self).indexed() == if old(self).incremental() {
                old(self).indexed().insert(entity, position)
            } else {
                old(self).indexed()
            },
    ;

    /// Takes an entity out of the index; an unknown one is ignored.
    /// Without incremental support nothing changes.
    fn remove_entity(&mut self, entity: u64)
        requires
            old(self).wf(),
        ensures
            final(self).wf(),
            final(self).incremental() == old(self).incremental(),
            final(self).indexed() == if old(self).incremental() {
                old(self).indexed().remove(entity)
            } else {
                old(self).indexed()
            },
    ;

    /// Moves an entity to a new position, or adds it if it is unknown.
    /// Without incremental support nothing changes.
    fn update_entity(&mut self, entity: u64, position: Position)
        requires
            old(self).wf(),
        ensures
            final(self).wf(),
            final(self).incremental() == old(self).incremental(),
            final(self).indexed() == if old(self).incremental() {
                old(self).indexed().insert(entity, position)
            } else {
                old(self).indexed()
            },
    ;
}

/// The tracked entities, the configured algorithm, and what is needed to
/// keep the two in step.
///
/// Changes to the tracked set go to the algorithm at once where it is
/// initialized and supports that; otherwise they are noted, and the next
/// `prepare_algorithm` rebuilds the index.
pub struct SpatialLookupState<A: SpatialLookupAlgorithm> {
    /// Dense list of tracked entities and their positions.
    entities: Vec<EntityPositionPair>,
    /// For each tracked entity its place in `entities`.
    indices: HashMap<u64, usize>,
    algorithm: A,
    initialized: bool,
    full_rebuild_requested: bool,
}

impl<A: SpatialLookupAlgorithm> SpatialLookupState<A> {
    /// The tracked entities in the order in which they are stored.
    pub closed spec fn snapshot(&self) -> Seq<EntityPositionPair> {
        self.entities@
    }

    /// The tracked entities, each with its position.
    pub open spec fn tracked_map(&self) -> Map<u64, Position> {
        entries_map(self.snapshot())
    }

    /// The configured algorithm.
    pub closed spec fn algorithm_spec(&self) -> A {
        self.algorithm
    }

    /// What the algorithm's index holds.
    pub open spec fn indexed(&self) -> Map<u64, Position> {
        self.algorithm_spec().indexed()
    }

    /// The algorithm has been prepared through this state.
    pub closed spec fn is_initialized(&self) -> bool {
        self.initialized
    }

    /// The next `prepare_algorithm` will hand the tracked set to the
    /// algorithm.
    pub closed spec fn rebuild_requested(&self) -> bool {
        self.full_rebuild_requested
    }

    /// Changes to the tracked set go to the algorithm at once.
    pub open spec fn forwards(&self) -> bool {
        self.is_initialized() && self.algorithm_spec().incremental()
    }

    /// No identifier is tracked twice, the index of places agrees with the
    /// list, the algorithm is well-formed, and the index is current wherever
    /// no rebuild is pending.
    pub closed spec fn wf(&self) -> bool {
        &&& distinct_ids(self.entities@)
        &&& forall|id: u64| self.indices@.contains_key(id) <==> has_id(self.entities@, id)
        &&& forall|i: int|
            0 <= i < self.entities@.len() ==> self.indices@[#[trigger] self.entities@[i].0] == i
        &&& self.algorithm.wf()
        &&& (!self.initialized ==> self.algorithm.rebuilds())
        &&& (self.initialized && (self.algorithm.incremental() || !self.full_rebuild_requested)
            ==> self.algorithm.indexed() == entries_map(self.entities@))
    }

    /// While no rebuild is pending, the index holds exactly the tracked
    /// entities.
    pub proof fn lemma_index_is_current(&self)
        requires
            self.wf(),
            self.is_initialized(),
            self.forwards() || !self.rebuild_requested(),
        ensures
            self.indexed() == self.tracked_map(),
    {
    }

    /// A state that tracks nothing yet. The algorithm must be one whose
    /// first `prepare` builds its index.
    pub fn with_algorithm(algorithm: A) -> (state: Self)
        requires
            algorithm.wf(),
            algorithm.rebuilds(),
        ensures
            state.wf(),
            state.algorithm_spec() == algorithm,
            state.snapshot() == Seq::<EntityPositionPair>::empty(),
            !state.is_initialized(),
            state.rebuild_requested(),
    {
        let state = SpatialLookupState {
            entities: Vec::new(),
            indices: HashMap::new(),
            algorithm,
            initialized: false,
            full_rebuild_requested: true,
        };
        proof {
            assert forall|id: u64| !has_id(state.entities@, id) by {}
        }
        state
    }

    /// Says whether the algorithm has been prepared through this state.
    pub fn initialized(&self) -> (initialized: bool)
        ensures
            initialized == self.is_initialized(),
    {
        self.initialized
    }

    /// Says whether the next `prepare_algorithm` will hand the tracked set
    /// to the algorithm.
    pub fn full_rebuild_requested(&self) -> (requested: bool)
        ensures
            requested == self.rebuild_requested(),
    {
        self.full_rebuild_requested
    }

    /// The tracked entities and their positions.
    pub fn entities(&self) -> (entities: &Vec<EntityPositionPair>)
        ensures
            entities@ == self.snapshot(),
    {
        &self.entities
    }

    /// The configured algorithm.
    pub fn algorithm(&self) -> (algorithm: &A)
        ensures
            *algorithm == self.algorithm_spec(),
    {
        &self.algorithm
    }

    /// Returns the entities that the index holds within `radius` of
    /// `sample_point`.
    pub fn entities_in_radius(&self, sample_point: Position, radius: u64) -> (found: Vec<u64>)
        requires
            self.wf(),
        ensures
            is_answer(found@, self.indexed(), sample_point, radius),
    {
        self.algorithm.entities_in_radius(sample_point, radius)
    }

    /// Inserts an entity into the tracked set or gives it a new position,
    /// and passes the change on to the algorithm if it takes changes;
    /// otherwise a full rebuild is requested.
    pub fn upsert_entity(&mut self, entity: u64, position: Position)
        requires
            old(self).wf(),
        ensures
            final(self).wf(),
            final(self).tracked_map() == old(self).tracked_map().insert(entity, position),
            final(self).snapshot() == (if old(self).tracked_map().contains_key(entity) {
                old(self).snapshot().update(
                    Self::place_of(old(self).snapshot(), entity),
                    (entity, position),
                )
            } else {
                old(self).snapshot().push((entity, position))
            }),
            final(self).is_initialized() == old(self).is_initialized(),
            final(self).indexed() == (if old(self).forwards() {
                old(self).indexed().insert(entity, position)
            } else {
                old(self).indexed()
            }),
            final(self).rebuild_requested() == (old(self).rebuild_requested() || !old(self).forwards()),
    {
        proof {
            lemma_entries_map_dom(self.entities@, entity);
        }
        if let Some(idx) = self.indices.get(&entity) {
            let idx = *idx;
            proof {
                let at = choose|i: int|
                    0 <= i < self.entities@.len() && #[trigger] self.entities@[i].0 == entity;
                assert(idx == at);
                Self::lemma_place_of(self.entities@, idx as int);
                lemma_entries_map_update(self.entities@, idx as int, position);
            }
            let ghost before = self.entities@;
            self.entities[idx].1 = position;
            proof {
                assert(self.entities@ =~= before.update(idx as int, (entity, position)));
                assert forall|id: u64| self.indices@.contains_key(id) <==> has_id(
                    self.entities@,
                    id,
                ) by {
                    assert(self.indices@.contains_key(id) <==> has_id(before, id));
                    if has_id(before, id) {
                        let i = choose|i: int| 0 <= i < before.len() && #[trigger] before[i].0 == id;
                        assert(self.entities@[i].0 == id);
                    }
                    if has_id(self.entities@, id) {
                        let i = choose|i: int|
                            0 <= i < self.entities@.len() && #[trigger] self.entities@[i].0 == id;
                        assert(before[i].0 == id);
                    }
                }
                assert forall|i: int| 0 <= i < self.entities@.len() implies self.indices@[
                #[trigger] self.entities@[i].0] == i by {
                    assert(before[i].0 == self.entities@[i].0);
                    assert(has_id(before, before[i].0));
                }
            }
            if self.initialized && self.algorithm.supports_incremental() {
                self.algorithm.update_entity(entity, position);
            } else {
                self.full_rebuild_requested = true;
            }
            return ;
        }
        let idx = self.entities.len();
        let ghost before = self.entities@;
        self.entities.push((entity, position));
        self.indices.insert(entity, idx);
        proof {
            lemma_distinct_push(before, (entity, position));
            lemma_entries_map_push(before, (entity, position));
            assert forall|id: u64| self.indices@.contains_key(id) <==> has_id(
                self.entities@,
                id,
            ) by {
                if has_id(before, id) {
                    let i = choose|i: int| 0 <= i < before.len() && #[trigger] before[i].0 == id;
                    assert(self.entities@[i].0 == id);
                }
                if has_id(self.entities@, id) && id != entity {
                    let i = choose|i: int|
                        0 <= i < self.entities@.len() && #[trigger] self.entities@[i].0 == id;
                    assert(before[i].0 == id);
                }
                if id == entity {
                    assert(self.entities@[idx as int].0 == id);
                }
            }
            assert forall|i: int| 0 <= i < self.entities@.len() implies self.indices@[
            #[trigger] self.entities@[i].0] == i by {
                if i < before.len() {
                    assert(before[i].0 == self.entities@[i].0);
                    assert(has_id(before, before[i].0));
                }
            }
        }
        if self.initialized && self.algorithm.supports_incremental() {
            self.algorithm.insert_entity(entity, position);
        } else {
            self.full_rebuild_requested = true;
        }
    }

    /// The place of the entry of `entries` that carries `entity`.
    pub open spec fn place_of(entries: Seq<EntityPositionPair>, entity: u64) -> int {
        choose|i: int| 0 <= i < entries.len() && #[trigger] entries[i].0 == entity
    }

    /// With distinct identifiers, an entity has one place only.
    pub proof fn lemma_place_of(entries: Seq<EntityPositionPair>, i: int)
        requires
            distinct_ids(entries),
            0 <= i < entries.len(),
        ensures
            Self::place_of(entries, entries[i].0) == i,
    {
        let j = Self::place_of(entries, entries[i].0);
        assert(entries[i].0 == entries[i].0);
        if j < i {
            assert(entries[j].0 != entries[i].0);
        } else if i < j {
            assert(entries[i].0 != entries[j].0);
        }
    }

    /// Removes an entity from the tracked set: the last entry takes its
    /// place. The change is passed on to the algorithm if it takes changes;
    /// otherwise a full rebuild is requested. An untracked entity changes
    /// nothing.
    pub fn remove_entity(&mut self, entity: u64)
        requires
            old(self).wf(),
        ensures
            final(self).wf(),
            final(self).tracked_map() == old(self).tracked_map().remove(entity),
            final(self).is_initialized() == old(self).is_initialized(),
            !old(self).tracked_map().contains_key(entity) ==> *final(self) == *old(self),
            old(self).tracked_map().contains_key(entity) ==> {
                &&& final(self).snapshot() == old(self).snapshot().update(
                    Self::place_of(old(self).snapshot(), entity),
                    old(self).snapshot().last(),
                ).drop_last()
                &&& final(self).indexed() == (if old(self).forwards() {
                    old(self).indexed().remove(entity)
                } else {
                    old(self).indexed()
                })
                &&& final(self).rebuild_requested() == (old(self).rebuild_requested() || !old(self).forwards())
            },
    {
        proof {
            lemma_entries_map_dom(self.entities@, entity);
        }
        let idx = match self.indices.get(&entity) {
            Some(idx) => *idx,
            None => {
                proof {
                    assert(self.tracked_map().remove(entity) =~= self.tracked_map());
                }
                return ;
            },
        };
        let ghost before = self.entities@;
        proof {
            let at = choose|i: int| 0 <= i < before.len() && #[trigger] before[i].0 == entity;
            assert(idx == at);
            Self::lemma_place_of(before, idx as int);
            lemma_entries_map_swap_remove(before, idx as int);
        }
        self.indices.remove(&entity);
        // the last entry takes the place of the removed one
        let last = self.entities.len() - 1;
        self.entities.swap_remove(idx);
        if idx != last {
            let swapped_entity = self.entities[idx].0;
            self.indices.insert(swapped_entity, idx);
        }
        proof {
            let after = self.entities@;
            let from = |t: int| if t == idx { last as int } else { t };
            assert forall|t: int| 0 <= t < after.len() implies after[t] == before[from(t)]
                && after[t].0 != entity by {
                if from(t) < idx {
                    assert(before[from(t)].0 != before[idx as int].0);
                } else {
                    assert(before[idx as int].0 != before[from(t)].0);
                }
            }
            assert forall|id: u64| self.indices@.contains_key(id) <==> has_id(after, id) by {
                if has_id(before, id) && id != entity {
                    let i = choose|i: int| 0 <= i < before.len() && #[trigger] before[i].0 == id;
                    if i == last {
                        assert(after[idx as int].0 == id);
                    } else {
                        assert(after[i].0 == id);
                    }
                }
                if has_id(after, id) {
                    let i = choose|i: int| 0 <= i < after.len() && #[trigger] after[i].0 == id;
                    assert(before[from(i)].0 == id);
                }
            }
            assert forall|i: int| 0 <= i < after.len() implies self.indices@[#[trigger] after[i].0]
                == i by {
                assert(before[from(i)].0 == after[i].0);
            }
        }
        if self.initialized && self.algorithm.supports_incremental() {
            self.algorithm.remove_entity(entity);
        } else {
            self.full_rebuild_requested = true;
        }
    }

    /// What `prepare_algorithm` does to a state.
    pub open spec fn prepared(before: Self, after: Self) -> bool {
        &&& after.snapshot() == before.snapshot()
        &&& after.is_initialized()
        &&& !after.rebuild_requested()
        &&& after.indexed() == after.tracked_map()
        &&& (before.is_initialized() && !before.rebuild_requested() ==> after == before)
    }

    /// Prepares the configured algorithm for lookup: the first time, and
    /// whenever a full rebuild was requested, the algorithm is given the
    /// whole tracked set. Otherwise nothing happens.
    pub fn prepare_algorithm(&mut self)
        requires
            old(self).wf(),
        ensures
            final(self).wf(),
            Self::prepared(*old(self), *final(self)),
    {
        if !self.initialized || self.full_rebuild_requested {
            proof {
                self.algorithm.lemma_no_rebuild_means_incremental();
            }
            self.algorithm.prepare(self.entities.as_slice());
            self.initialized = true;
            self.full_rebuild_requested = false;
        }
    }

    /// Forces a full rebuild on the next `prepare_algorithm`.
    pub fn request_full_rebuild(&mut self)
        requires
            old(self).wf(),
        ensures
            final(self).wf(),
            final(self).rebuild_requested(),
            final(self).snapshot() == old(self).snapshot(),
            final(self).algorithm_spec() == old(self).algorithm_spec(),
            final(self).is_initialized() == old(self).is_initialized(),
    {
        self.full_rebuild_requested = true;
    }

    /// Forgets every tracked entity. Only for a state that is not
    /// initialized: the index is not told.
    fn clear_tracked(&mut self)
        requires
            old(self).wf(),
            !old(self).is_initialized(),
        ensures
            final(self).wf(),
            final(self).snapshot() == Seq::<EntityPositionPair>::empty(),
            final(self).algorithm_spec() == old(self).algorithm_spec(),
            !final(self).is_initialized(),
    {
        self.entities.clear();
        self.indices.clear();
        proof {
            assert forall|id: u64| !has_id(self.entities@, id) by {}
        }
    }
}

impl Default for SpatialLookupState<Naive> {
    fn default() -> (state: Self)
        ensures
            state.wf(),
            state.snapshot() == Seq::<EntityPositionPair>::empty(),
            state.indexed() == Map::<u64, Position>::empty(),
            !state.is_initialized(),
            state.rebuild_requested(),
    {
        // the first prepare builds everything
        SpatialLookupState::with_algorithm(Naive::default())
    }
}

/// Initializes or rebuilds the configured algorithm.
///
/// A state that is not initialized yet first takes `all_entities` as its
/// tracked set, a later pair replacing an earlier one with the same
/// identifier. The index is rebuilt only if the state was never initialized
/// or a full rebuild was requested; it is not rebuilt on every call.
pub fn prepare_spatial_lookup<A: SpatialLookupAlgorithm>(
    all_entities: &[EntityPositionPair],
    lookup_state: &mut SpatialLookupState<A>,
)
    requires
        old(lookup_state).wf(),
    ensures
        final(lookup_state).wf(),
        final(lookup_state).is_initialized(),
        !final(lookup_state).rebuild_requested(),
        final(lookup_state).indexed() == final(lookup_state).tracked_map(),
        final(lookup_state).tracked_map() == (if old(lookup_state).is_initialized() {
            old(lookup_state).tracked_map()
        } else {
            entries_map(all_entities@)
        }),
{
    if !lookup_state.initialized {
        lookup_state.clear_tracked();
        let mut i: usize = 0;
        while i < all_entities.len()
            invariant
                i <= all_entities@.len(),
                lookup_state.wf(),
                !lookup_state.is_initialized(),
                lookup_state.tracked_map() == entries_map(all_entities@.take(i as int)),
            decreases all_entities@.len() - i,
        {
            let (entity, position) = all_entities[i];
            proof {
                assert(all_entities@.take(i + 1).drop_last() =~= all_entities@.take(i as int));
            }
            lookup_state.upsert_entity(entity, position);
            i += 1;
        }
        proof {
            assert(all_entities@.take(i as int) =~= all_entities@);
        }
        lookup_state.request_full_rebuild();
    }
    lookup_state.prepare_algorithm();
}

} // verus!

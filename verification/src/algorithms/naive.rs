//! Linear scan over a copy of the snapshot.

use crate::geometry::{EntityPositionPair, Position};
use crate::model::{
    collect_ids_within, distinct_ids, entries_map, ids_within, lemma_ids_within_is_answer,
};
use crate::SpatialLookupAlgorithm;
use vstd::prelude::*;
use vstd::slice::slice_to_vec;

verus! {

/// The baseline algorithm: it keeps the snapshot and tests every entry.
pub struct Naive {
    entities: Vec<EntityPositionPair>,
}

impl Naive {
    /// The snapshot that the last `prepare` stored.
    pub closed spec fn entries(&self) -> Seq<EntityPositionPair> {
        self.entities@
    }
}

impl Default for Naive {
    fn default() -> (naive: Naive)
        ensures
            naive.wf(),
            naive.entries() == Seq::<EntityPositionPair>::empty(),
            naive.indexed() == Map::<u64, Position>::empty(),
    {
        Naive { entities: Vec::new() }
    }
}

impl SpatialLookupAlgorithm for Naive {
    closed spec fn wf(&self) -> bool {
        distinct_ids(self.entities@)
    }

    open spec fn indexed(&self) -> Map<u64, Position> {
        entries_map(self.entries())
    }

    open spec fn incremental(&self) -> bool {
        false
    }

    open spec fn rebuilds(&self) -> bool {
        true
    }

    proof fn lemma_no_rebuild_means_incremental(&self) {
    }

    fn prepare(&mut self, entities: &[EntityPositionPair])
        ensures
            final(self).entries() == entities@,
    {
        self.entities = slice_to_vec(entities);
    }

    fn entities_in_radius(&self, sample_point: Position, radius: u64) -> (found: Vec<u64>)
        ensures
            found@ == ids_within(self.entries(), sample_point, radius),
    {
        let found = collect_ids_within(self.entities.as_slice(), &sample_point, radius);
        proof {
            lemma_ids_within_is_answer(self.entities@, sample_point, radius);
        }
        found
    }

    fn supports_incremental(&self) -> (supported: bool) {
        false
    }

    fn insert_entity(&mut self, entity: u64, position: Position) {
    }

    fn remove_entity(&mut self, entity: u64) {
    }

    fn update_entity(&mut self, entity: u64, position: Position) {
    }
}

} // verus!

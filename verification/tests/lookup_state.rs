use bevy_mod_spatial_query::algorithms::{Bvh, Naive, Octree};
use bevy_mod_spatial_query::geometry::Position;
use bevy_mod_spatial_query::{prepare_spatial_lookup, SpatialLookupAlgorithm, SpatialLookupState};

fn at(x: i32, y: i32, z: i32) -> Position {
    Position::new(x, y, z)
}

fn sorted(mut ids: Vec<u64>) -> Vec<u64> {
    ids.sort();
    ids
}

#[test]
fn flags_follow_changes_and_preparation() {
    let mut state = SpatialLookupState::with_algorithm(Naive::default());
    assert!(!state.initialized());
    assert!(state.full_rebuild_requested());
    state.prepare_algorithm();
    assert!(state.initialized());
    assert!(!state.full_rebuild_requested());
    state.upsert_entity(1, at(0, 0, 0));
    assert!(state.full_rebuild_requested());
    state.prepare_algorithm();
    assert!(!state.full_rebuild_requested());
    state.remove_entity(7);
    assert!(!state.full_rebuild_requested());
    state.request_full_rebuild();
    assert!(state.full_rebuild_requested());

    let mut incremental = SpatialLookupState::with_algorithm(Octree::default());
    incremental.prepare_algorithm();
    incremental.upsert_entity(1, at(0, 0, 0));
    incremental.remove_entity(1);
    assert!(incremental.initialized());
    assert!(!incremental.full_rebuild_requested());
}

#[test]
fn default_state_uses_the_linear_scan() {
    let state = SpatialLookupState::default();
    assert!(state.entities().is_empty());
    assert!(!state.algorithm().supports_incremental());
    assert!(state.entities_in_radius(at(0, 0, 0), u64::MAX).is_empty());
}

#[test]
fn upsert_appends_or_overwrites() {
    let mut state = SpatialLookupState::default();
    state.upsert_entity(7, at(1, 2, 3));
    state.upsert_entity(8, at(4, 5, 6));
    assert_eq!(state.entities(), &vec![(7, at(1, 2, 3)), (8, at(4, 5, 6))]);
    state.upsert_entity(7, at(9, 9, 9));
    assert_eq!(state.entities(), &vec![(7, at(9, 9, 9)), (8, at(4, 5, 6))]);
}

#[test]
fn remove_moves_the_last_entry_into_the_gap() {
    let mut state = SpatialLookupState::default();
    state.upsert_entity(1, at(1, 1, 1));
    state.upsert_entity(2, at(2, 2, 2));
    state.upsert_entity(3, at(3, 3, 3));
    state.remove_entity(1);
    assert_eq!(state.entities(), &vec![(3, at(3, 3, 3)), (2, at(2, 2, 2))]);
    // the moved entry is found at its new place
    state.upsert_entity(3, at(30, 30, 30));
    assert_eq!(state.entities(), &vec![(3, at(30, 30, 30)), (2, at(2, 2, 2))]);
    state.remove_entity(2);
    assert_eq!(state.entities(), &vec![(3, at(30, 30, 30))]);
    state.remove_entity(3);
    assert!(state.entities().is_empty());
    // and can be tracked again
    state.upsert_entity(1, at(5, 5, 5));
    assert_eq!(state.entities(), &vec![(1, at(5, 5, 5))]);
}

#[test]
fn removing_an_untracked_entity_is_ignored() {
    let mut state = SpatialLookupState::default();
    state.remove_entity(4);
    state.upsert_entity(1, at(1, 1, 1));
    state.prepare_algorithm();
    state.remove_entity(4);
    assert_eq!(state.entities(), &vec![(1, at(1, 1, 1))]);
    // no rebuild is pending: the index still answers
    assert_eq!(state.entities_in_radius(at(1, 1, 1), 0), vec![1]);
}

#[test]
fn changes_reach_a_rebuilding_algorithm_at_prepare() {
    let mut state = SpatialLookupState::with_algorithm(Naive::default());
    state.upsert_entity(1, at(0, 0, 0));
    assert!(state.entities_in_radius(at(0, 0, 0), 10).is_empty());
    state.prepare_algorithm();
    assert_eq!(state.entities_in_radius(at(0, 0, 0), 10), vec![1]);
    state.upsert_entity(2, at(1, 0, 0));
    state.upsert_entity(1, at(50, 0, 0));
    // the index is as it was prepared
    assert_eq!(state.entities_in_radius(at(0, 0, 0), 10), vec![1]);
    state.prepare_algorithm();
    assert_eq!(state.entities_in_radius(at(0, 0, 0), 10), vec![2]);
    state.remove_entity(2);
    assert_eq!(state.entities_in_radius(at(0, 0, 0), 10), vec![2]);
    state.prepare_algorithm();
    assert!(state.entities_in_radius(at(0, 0, 0), 10).is_empty());
    assert_eq!(state.entities_in_radius(at(50, 0, 0), 10), vec![1]);
}

#[test]
fn changes_reach_an_incremental_algorithm_at_once() {
    let mut state = SpatialLookupState::with_algorithm(Octree::default());
    state.upsert_entity(1, at(0, 0, 0));
    // not initialized yet: the change waits for the first prepare
    assert!(state.entities_in_radius(at(0, 0, 0), 10).is_empty());
    state.prepare_algorithm();
    assert_eq!(state.entities_in_radius(at(0, 0, 0), 10), vec![1]);
    state.upsert_entity(2, at(1, 0, 0));
    assert_eq!(sorted(state.entities_in_radius(at(0, 0, 0), 10)), vec![1, 2]);
    state.upsert_entity(1, at(50, 0, 0));
    assert_eq!(state.entities_in_radius(at(0, 0, 0), 10), vec![2]);
    state.remove_entity(2);
    assert!(state.entities_in_radius(at(0, 0, 0), 10).is_empty());
    assert_eq!(state.entities_in_radius(at(50, 0, 0), 10), vec![1]);
    // a prepare in between changes nothing
    state.request_full_rebuild();
    state.prepare_algorithm();
    assert_eq!(state.entities_in_radius(at(50, 0, 0), 10), vec![1]);
    assert_eq!(state.entities(), &vec![(1, at(50, 0, 0))]);
}

#[test]
fn prepare_twice_gives_the_same_answers() {
    let mut naive = SpatialLookupState::with_algorithm(Naive::default());
    let mut bvh = SpatialLookupState::with_algorithm(Bvh::default());
    let mut octree = SpatialLookupState::with_algorithm(Octree::default());
    for i in 0..60 {
        let p = at(i * 5 % 17, i * 7 % 13, i * 11 % 19);
        naive.upsert_entity(i as u64, p);
        bvh.upsert_entity(i as u64, p);
        octree.upsert_entity(i as u64, p);
    }
    naive.prepare_algorithm();
    bvh.prepare_algorithm();
    octree.prepare_algorithm();
    let once = (
        naive.entities_in_radius(at(8, 6, 9), 6),
        bvh.entities_in_radius(at(8, 6, 9), 6),
        octree.entities_in_radius(at(8, 6, 9), 6),
    );
    naive.prepare_algorithm();
    bvh.prepare_algorithm();
    octree.prepare_algorithm();
    let twice = (
        naive.entities_in_radius(at(8, 6, 9), 6),
        bvh.entities_in_radius(at(8, 6, 9), 6),
        octree.entities_in_radius(at(8, 6, 9), 6),
    );
    assert_eq!(once, twice);
    assert!(!once.0.is_empty());
}

#[test]
fn forced_rebuild_gives_the_same_answers() {
    let mut state = SpatialLookupState::with_algorithm(Bvh::default());
    for i in 0..60 {
        state.upsert_entity(i as u64, at(i * 5 % 17, i * 7 % 13, i * 11 % 19));
    }
    state.prepare_algorithm();
    let before = sorted(state.entities_in_radius(at(8, 6, 9), 6));
    state.request_full_rebuild();
    state.prepare_algorithm();
    assert_eq!(sorted(state.entities_in_radius(at(8, 6, 9), 6)), before);
}

#[test]
fn nothing_tracked_nothing_found() {
    let mut naive = SpatialLookupState::with_algorithm(Naive::default());
    let mut bvh = SpatialLookupState::with_algorithm(Bvh::default());
    let mut octree = SpatialLookupState::with_algorithm(Octree::default());
    naive.prepare_algorithm();
    bvh.prepare_algorithm();
    octree.prepare_algorithm();
    assert!(naive.entities_in_radius(at(0, 0, 0), u64::MAX).is_empty());
    assert!(bvh.entities_in_radius(at(0, 0, 0), u64::MAX).is_empty());
    assert!(octree.entities_in_radius(at(0, 0, 0), u64::MAX).is_empty());
    // tracked once and removed again
    bvh.upsert_entity(1, at(0, 0, 0));
    bvh.prepare_algorithm();
    bvh.remove_entity(1);
    bvh.prepare_algorithm();
    assert!(bvh.entities_in_radius(at(0, 0, 0), u64::MAX).is_empty());
}

#[test]
fn never_prepared_nothing_found() {
    let naive = Naive::default();
    let bvh = Bvh::default();
    let octree = Octree::default();
    assert!(naive.entities_in_radius(at(0, 0, 0), u64::MAX).is_empty());
    assert!(bvh.entities_in_radius(at(0, 0, 0), u64::MAX).is_empty());
    assert!(octree.entities_in_radius(at(0, 0, 0), u64::MAX).is_empty());
    let mut state = SpatialLookupState::with_algorithm(Bvh::default());
    state.upsert_entity(1, at(0, 0, 0));
    assert!(state.entities_in_radius(at(0, 0, 0), u64::MAX).is_empty());
}

#[test]
fn first_lookup_preparation_takes_the_snapshot() {
    let mut state = SpatialLookupState::with_algorithm(Octree::default());
    state.upsert_entity(9, at(9, 9, 9));
    let world = vec![(1, at(0, 0, 0)), (2, at(10, 0, 0)), (1, at(3, 0, 0))];
    prepare_spatial_lookup(&world, &mut state);
    // what was tracked before is forgotten; the later pair replaces the
    // earlier one
    assert_eq!(state.entities(), &vec![(1, at(3, 0, 0)), (2, at(10, 0, 0))]);
    assert_eq!(sorted(state.entities_in_radius(at(5, 0, 0), 5)), vec![1, 2]);
    assert!(state.entities_in_radius(at(9, 9, 9), 1).is_empty());
    // once initialized, the snapshot is not looked at
    prepare_spatial_lookup(&[(3, at(5, 0, 0))], &mut state);
    assert_eq!(state.entities().len(), 2);
    assert_eq!(sorted(state.entities_in_radius(at(5, 0, 0), 5)), vec![1, 2]);
}

#[test]
fn later_lookup_preparation_rebuilds_on_request() {
    let mut state = SpatialLookupState::with_algorithm(Naive::default());
    prepare_spatial_lookup(&[(1, at(0, 0, 0))], &mut state);
    state.upsert_entity(2, at(1, 1, 1));
    assert_eq!(state.entities_in_radius(at(0, 0, 0), 5), vec![1]);
    prepare_spatial_lookup(&[], &mut state);
    assert_eq!(state.entities_in_radius(at(0, 0, 0), 5), vec![1, 2]);
}

fn needs_send_and_sync<T: Send + Sync + 'static>() {}

#[test]
fn states_can_be_shared_between_threads() {
    needs_send_and_sync::<SpatialLookupState<Naive>>();
    needs_send_and_sync::<SpatialLookupState<Bvh>>();
    needs_send_and_sync::<SpatialLookupState<Octree>>();
}

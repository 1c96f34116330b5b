use bevy_mod_spatial_query::algorithms::{Bvh, Naive, Octree, OctreeConfig};
use bevy_mod_spatial_query::geometry::{EntityPositionPair, Position};
use bevy_mod_spatial_query::{SpatialLookupAlgorithm, SpatialLookupState};
use turborand::prelude::{Rng, SeededCore, TurboRand};

const WORLD_SIZE: f32 = 10.0;
const LOOKUP_RADIUS: f32 = 1.0;

/// Lattice units per unit of length.
const RESOLUTION: f32 = 1_048_576.0;

fn to_lattice(length: f32) -> i32 {
    (length * RESOLUTION).round() as i32
}

/// A list of pseudo-randomly placed entities.
fn world_with_n_entities(n: u32) -> Vec<EntityPositionPair> {
    let rng = Rng::with_seed(417311532);
    let mut entities = Vec::with_capacity(n as usize);

    for i in 0..n {
        entities.push((
            i as u64,
            Position::new(
                to_lattice(rng.f32_normalized() * WORLD_SIZE),
                to_lattice(rng.f32_normalized() * WORLD_SIZE),
                to_lattice(rng.f32_normalized() * WORLD_SIZE),
            ),
        ));
    }

    entities
}

fn sorted(mut ids: Vec<u64>) -> Vec<u64> {
    ids.sort();
    ids
}

#[test]
fn test_bvh_in_range() {
    let mut lookup_state = SpatialLookupState::with_algorithm(Bvh::default());
    for (entity, position) in world_with_n_entities(100_000) {
        lookup_state.upsert_entity(entity, position);
    }
    lookup_state.prepare_algorithm();

    let found =
        lookup_state.entities_in_radius(Position::new(0, 0, 0), to_lattice(LOOKUP_RADIUS) as u64);

    assert_eq!(found.len(), 39);
}

#[test]
fn test_naive_in_range() {
    let mut lookup_state = SpatialLookupState::with_algorithm(Naive::default());
    for (entity, position) in world_with_n_entities(100_000) {
        lookup_state.upsert_entity(entity, position);
    }
    lookup_state.prepare_algorithm();

    let found =
        lookup_state.entities_in_radius(Position::new(0, 0, 0), to_lattice(LOOKUP_RADIUS) as u64);

    assert_eq!(found.len(), 39);
}

#[test]
fn test_octree_in_range() {
    let mut lookup_state = SpatialLookupState::with_algorithm(Octree::default());
    for (entity, position) in world_with_n_entities(100_000) {
        lookup_state.upsert_entity(entity, position);
    }
    lookup_state.prepare_algorithm();

    let found =
        lookup_state.entities_in_radius(Position::new(0, 0, 0), to_lattice(LOOKUP_RADIUS) as u64);

    assert_eq!(found.len(), 39);
}

#[test]
fn algorithms_agree_on_a_random_world() {
    let world = world_with_n_entities(5_000);
    let mut naive = Naive::default();
    let mut bvh = Bvh::default();
    bvh.entities_per_leaf = 50;
    let mut octree = Octree::new(OctreeConfig {
        bucket_capacity: 8,
        split_threshold: 16,
        max_depth: 16,
        min_half_size: 1024,
        loose_padding: 50_000,
        initial_padding: 100_000,
    });
    naive.prepare(&world);
    bvh.prepare(&world);
    octree.prepare(&world);
    let rng = Rng::with_seed(99);
    for _ in 0..200 {
        let centre = Position::new(
            to_lattice(rng.f32_normalized() * 12.0),
            to_lattice(rng.f32_normalized() * 12.0),
            to_lattice(rng.f32_normalized() * 12.0),
        );
        let radius = to_lattice(rng.f32() * 4.0) as u64;
        let expected = sorted(naive.entities_in_radius(centre, radius));
        assert_eq!(sorted(bvh.entities_in_radius(centre, radius)), expected);
        assert_eq!(sorted(octree.entities_in_radius(centre, radius)), expected);
    }
    let all = sorted(naive.entities_in_radius(Position::new(0, 0, 0), u64::MAX));
    assert_eq!(all, (0..5_000).collect::<Vec<u64>>());
    assert_eq!(sorted(bvh.entities_in_radius(Position::new(0, 0, 0), u64::MAX)), all);
    assert_eq!(sorted(octree.entities_in_radius(Position::new(0, 0, 0), u64::MAX)), all);
}

#[test]
fn algorithms_agree_on_the_boundary() {
    let world = vec![
        (1, Position::new(3, 4, 0)),
        (2, Position::new(3, 4, 1)),
        (3, Position::new(0, 0, -5)),
        (4, Position::new(0, 0, -6)),
        (5, Position::new(0, 0, 0)),
    ];
    let mut naive = Naive::default();
    let mut bvh = Bvh::default();
    bvh.entities_per_leaf = 1;
    let mut octree = Octree::default();
    naive.prepare(&world);
    bvh.prepare(&world);
    octree.prepare(&world);
    let origin = Position::new(0, 0, 0);
    assert_eq!(naive.entities_in_radius(origin, 5), vec![1, 3, 5]);
    assert_eq!(sorted(bvh.entities_in_radius(origin, 5)), vec![1, 3, 5]);
    assert_eq!(sorted(octree.entities_in_radius(origin, 5)), vec![1, 3, 5]);
    assert_eq!(sorted(octree.entities_in_radius(origin, 6)), vec![1, 2, 3, 4, 5]);
    assert_eq!(sorted(bvh.entities_in_radius(origin, 4)), vec![5]);
}

#[test]
fn incremental_octree_matches_a_rebuilt_one() {
    let rng = Rng::with_seed(7);
    let mut state = SpatialLookupState::with_algorithm(Octree::default());
    state.prepare_algorithm();
    for step in 0..3_000u64 {
        let entity = rng.u64(0..400);
        if rng.bool() && step % 3 == 0 {
            state.remove_entity(entity);
        } else {
            // mostly small moves, now and then a far one
            let reach = if step % 50 == 0 { 2_000_000 } else { 64 };
            let position =
                Position::new(rng.i32(-reach..reach), rng.i32(-reach..reach), rng.i32(-reach..reach));
            state.upsert_entity(entity, position);
        }
    }
    let mut rebuilt = Octree::default();
    rebuilt.prepare(state.entities());
    let mut scan = Naive::default();
    scan.prepare(state.entities());
    for _ in 0..200 {
        let centre = Position::new(rng.i32(-100..100), rng.i32(-100..100), rng.i32(-100..100));
        let radius = rng.u64(0..150);
        let expected = sorted(scan.entities_in_radius(centre, radius));
        assert_eq!(sorted(state.entities_in_radius(centre, radius)), expected);
        assert_eq!(sorted(rebuilt.entities_in_radius(centre, radius)), expected);
    }
    let everything = sorted(scan.entities_in_radius(Position::new(0, 0, 0), u64::MAX));
    assert_eq!(everything.len(), state.entities().len());
    assert_eq!(
        sorted(state.entities_in_radius(Position::new(0, 0, 0), u64::MAX)),
        everything
    );
}

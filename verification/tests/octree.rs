use bevy_mod_spatial_query::algorithms::bvh::Aabb;
use bevy_mod_spatial_query::algorithms::octree::{make_root_cube, position_of, AabbCube};
use bevy_mod_spatial_query::algorithms::{Octree, OctreeConfig};
use bevy_mod_spatial_query::geometry::{EntityPositionPair, Position};
use bevy_mod_spatial_query::SpatialLookupAlgorithm;

fn at(x: i32, y: i32, z: i32) -> Position {
    Position::new(x, y, z)
}

fn sorted(mut ids: Vec<u64>) -> Vec<u64> {
    ids.sort();
    ids
}

/// 33 entities on the diagonal from the origin to (96, 96, 96).
fn diagonal() -> Vec<EntityPositionPair> {
    (0..33).map(|i| (i as u64, at(i * 3, i * 3, i * 3))).collect()
}

#[test]
fn default_configuration() {
    let cfg = OctreeConfig::default();
    assert_eq!(cfg.bucket_capacity, 16);
    assert_eq!(cfg.split_threshold, 32);
    assert_eq!(cfg.max_depth, 16);
    assert_eq!(cfg.min_half_size, 1);
    assert_eq!(cfg.loose_padding, 2);
    assert_eq!(cfg.initial_padding, 4);
    let octree = Octree::default();
    assert!(octree.supports_incremental());
    assert!(octree.node_cubes().is_empty());
}

#[test]
fn root_cube_is_half_the_longest_edge_and_the_padding() {
    let cfg = OctreeConfig::default();
    // longest edge 10: half of it is 5, with the padding 9
    let bounds = Aabb { min: at(0, -1, 3), max: at(10, 1, 3) };
    assert_eq!(make_root_cube(&bounds, &cfg), AabbCube { cx: 5, cy: 0, cz: 3, half: 9 });
    // an odd edge is halved upwards, and the centre downwards
    let bounds = Aabb { min: at(0, 0, 0), max: at(3, 7, 2) };
    assert_eq!(make_root_cube(&bounds, &cfg), AabbCube { cx: 1, cy: 3, cz: 1, half: 8 });
    // a single point
    let bounds = Aabb { min: at(-7, 20, 0), max: at(-7, 20, 0) };
    assert_eq!(make_root_cube(&bounds, &cfg), AabbCube { cx: -7, cy: 20, cz: 0, half: 4 });
    // the smallest size is a floor
    let mut coarse = cfg;
    coarse.min_half_size = 100;
    assert_eq!(make_root_cube(&bounds, &coarse), AabbCube { cx: -7, cy: 20, cz: 0, half: 100 });
    // and so is the lattice unit
    let mut bare = cfg;
    bare.min_half_size = 0;
    bare.initial_padding = 0;
    assert_eq!(make_root_cube(&bounds, &bare), AabbCube { cx: -7, cy: 20, cz: 0, half: 1 });
    // the whole range
    let bounds = Aabb { min: at(i32::MIN, 0, 0), max: at(i32::MAX, 0, 0) };
    assert_eq!(
        make_root_cube(&bounds, &cfg),
        AabbCube { cx: -1, cy: 0, cz: 0, half: 2_147_483_652 }
    );
}

#[test]
fn root_of_two_entities_ten_apart() {
    let mut octree = Octree::default();
    octree.prepare(&[(1, at(0, 0, 0)), (2, at(10, 0, 0))]);
    assert_eq!(octree.node_cubes(), vec![AabbCube { cx: 5, cy: 0, cz: 0, half: 9 }]);
}

#[test]
fn cube_contains_with_padding() {
    let cube = AabbCube { cx: 0, cy: 0, cz: 0, half: 4 };
    assert!(cube.contains(&at(4, -4, 0), 0));
    assert!(!cube.contains(&at(5, 0, 0), 0));
    assert!(cube.contains(&at(5, 0, 0), 1));
    assert!(!cube.contains(&at(0, -6, 0), 1));
    assert!(cube.contains(&at(0, -6, 6), 2));
    assert_eq!(cube.inflated(3), AabbCube { cx: 0, cy: 0, cz: 0, half: 7 });
}

#[test]
fn cube_meets_sphere_by_nearest_point() {
    let cube = AabbCube { cx: 5, cy: 5, cz: 5, half: 5 };
    assert!(cube.intersects_sphere(&at(13, 14, 5), 5));
    assert!(!cube.intersects_sphere(&at(13, 14, 5), 4));
    assert!(cube.intersects_sphere(&at(-3, 5, -4), 5));
    assert!(!cube.intersects_sphere(&at(-3, -1, -4), 5));
    assert!(cube.intersects_sphere(&at(0, 10, 3), 0));
}

#[test]
fn child_index_compares_with_the_centre() {
    let cube = AabbCube { cx: 0, cy: 0, cz: 0, half: 8 };
    assert_eq!(cube.child_index(&at(0, 0, 0)), 7);
    assert_eq!(cube.child_index(&at(-1, 0, 0)), 6);
    assert_eq!(cube.child_index(&at(0, -1, 0)), 5);
    assert_eq!(cube.child_index(&at(0, 0, -1)), 3);
    assert_eq!(cube.child_index(&at(-1, -1, -1)), 0);
    assert_eq!(cube.child_index(&at(1, -1, -1)), 1);
    assert_eq!(cube.child_index(&at(-1, 1, -1)), 2);
    assert_eq!(cube.child_index(&at(-1, -1, 1)), 4);
}

#[test]
fn position_of_finds_the_first_entry() {
    let bucket = vec![(4u64, at(0, 0, 0)), (9u64, at(1, 1, 1)), (2u64, at(2, 2, 2))];
    assert_eq!(position_of(&bucket, 4), Some(0));
    assert_eq!(position_of(&bucket, 2), Some(2));
    assert_eq!(position_of(&bucket, 7), None);
    assert_eq!(position_of(&Vec::new(), 7), None);
}

#[test]
fn octree_query_before_prepare_finds_nothing() {
    let octree = Octree::new(OctreeConfig::default());
    assert!(octree.entities_in_radius(at(0, 0, 0), u64::MAX).is_empty());
}

#[test]
fn octree_prepare_with_nothing_makes_a_small_root() {
    let mut octree = Octree::default();
    octree.prepare(&[]);
    assert_eq!(octree.node_cubes(), vec![AabbCube { cx: 0, cy: 0, cz: 0, half: 1 }]);
    assert!(octree.entities_in_radius(at(0, 0, 0), u64::MAX).is_empty());
    // inserts still work afterwards
    octree.insert_entity(5, at(1, 1, 1));
    assert_eq!(octree.entities_in_radius(at(0, 0, 0), 2), vec![5]);
}

#[test]
fn root_cube_covers_the_snapshot() {
    let mut octree = Octree::default();
    octree.prepare(&diagonal()[0..32]);
    // extent 93: half of it rounded up is 47, with the padding 51; the
    // centre is the middle of the bounding box
    assert_eq!(octree.node_cubes(), vec![AabbCube { cx: 46, cy: 46, cz: 46, half: 51 }]);
}

#[test]
fn root_cube_is_no_smaller_than_the_smallest_size() {
    let mut cfg = OctreeConfig::default();
    cfg.min_half_size = 100;
    let mut octree = Octree::new(cfg);
    octree.prepare(&[(1, at(-7, 20, 0))]);
    assert_eq!(octree.node_cubes(), vec![AabbCube { cx: -7, cy: 20, cz: 0, half: 100 }]);
}

#[test]
fn leaf_splits_beyond_the_threshold() {
    let mut octree = Octree::default();
    octree.prepare(&diagonal()[0..32]);
    assert_eq!(octree.node_cubes().len(), 1);
    // the 33rd entity exceeds the threshold of 32
    octree.insert_entity(32, at(96, 96, 96));
    let cubes = octree.node_cubes();
    assert_eq!(cubes.len(), 9);
    // the centres move by 25, half of 51 rounded down; the children reach
    // the faces of the root with a half-extent of 26
    assert_eq!(cubes[0], AabbCube { cx: 46, cy: 46, cz: 46, half: 51 });
    assert_eq!(cubes[1], AabbCube { cx: 21, cy: 21, cz: 21, half: 26 });
    assert_eq!(cubes[2], AabbCube { cx: 71, cy: 21, cz: 21, half: 26 });
    assert_eq!(cubes[3], AabbCube { cx: 21, cy: 71, cz: 21, half: 26 });
    assert_eq!(cubes[4], AabbCube { cx: 71, cy: 71, cz: 21, half: 26 });
    assert_eq!(cubes[5], AabbCube { cx: 21, cy: 21, cz: 71, half: 26 });
    assert_eq!(cubes[6], AabbCube { cx: 71, cy: 21, cz: 71, half: 26 });
    assert_eq!(cubes[7], AabbCube { cx: 21, cy: 71, cz: 71, half: 26 });
    assert_eq!(cubes[8], AabbCube { cx: 71, cy: 71, cz: 71, half: 26 });
    assert_eq!(
        sorted(octree.entities_in_radius(at(0, 0, 0), u64::MAX)),
        (0..33).collect::<Vec<u64>>()
    );
    assert_eq!(sorted(octree.entities_in_radius(at(45, 45, 45), 6)), vec![14, 15, 16]);
}

#[test]
fn leaf_at_the_limits_does_not_split() {
    // a root of half-extent 1 cannot be halved on the lattice
    let mut octree = Octree::default();
    octree.prepare(&[]);
    for i in 0..40 {
        octree.insert_entity(i as u64, at(i % 3 - 1, (i / 3) % 3 - 1, (i / 9) % 3 - 1));
    }
    assert_eq!(octree.node_cubes().len(), 1);
    assert_eq!(octree.entities_in_radius(at(0, 0, 0), 2).len(), 40);

    // a depth limit of zero forbids every split
    let mut cfg = OctreeConfig::default();
    cfg.max_depth = 0;
    let mut flat = Octree::new(cfg);
    flat.prepare(&diagonal());
    assert_eq!(flat.node_cubes().len(), 1);
    assert_eq!(flat.entities_in_radius(at(48, 48, 48), 1000).len(), 33);

    // children would be smaller than the smallest size
    let mut cfg = OctreeConfig::default();
    cfg.min_half_size = 33;
    let mut coarse = Octree::new(cfg);
    coarse.prepare(&diagonal());
    assert_eq!(coarse.node_cubes().len(), 1);
}

#[test]
fn removal_keeps_the_nodes() {
    let mut octree = Octree::default();
    octree.prepare(&diagonal());
    assert_eq!(octree.node_cubes().len(), 9);
    for i in 0..33 {
        octree.remove_entity(i);
    }
    assert_eq!(octree.node_cubes().len(), 9);
    assert!(octree.entities_in_radius(at(48, 48, 48), u64::MAX).is_empty());
}

#[test]
fn removing_an_unknown_entity_changes_nothing() {
    let mut octree = Octree::default();
    octree.remove_entity(1);
    assert!(octree.node_cubes().is_empty());
    octree.prepare(&[(1, at(0, 0, 0)), (2, at(5, 5, 5))]);
    octree.remove_entity(77);
    assert_eq!(sorted(octree.entities_in_radius(at(0, 0, 0), 100)), vec![1, 2]);
    octree.remove_entity(1);
    octree.remove_entity(1);
    assert_eq!(octree.entities_in_radius(at(0, 0, 0), 100), vec![2]);
}

#[test]
fn removing_an_unknown_entity_keeps_the_arena() {
    let mut octree = Octree::default();
    octree.prepare(&diagonal());
    let cubes = octree.node_cubes();
    let everything = octree.entities_in_radius(at(48, 48, 48), u64::MAX);
    octree.remove_entity(1000);
    assert_eq!(octree.node_cubes(), cubes);
    // not even the order of an answer changes
    assert_eq!(octree.entities_in_radius(at(48, 48, 48), u64::MAX), everything);
}

#[test]
fn removal_moves_the_last_entry_of_the_bucket() {
    let mut octree = Octree::default();
    octree.prepare(&[(1, at(0, 0, 0)), (2, at(1, 0, 0)), (3, at(2, 0, 0)), (4, at(3, 0, 0))]);
    assert_eq!(octree.entities_in_radius(at(0, 0, 0), 10), vec![1, 2, 3, 4]);
    octree.remove_entity(2);
    assert_eq!(octree.entities_in_radius(at(0, 0, 0), 10), vec![1, 4, 3]);
    octree.update_entity(4, at(1, 1, 0));
    assert_eq!(octree.entities_in_radius(at(0, 0, 0), 10), vec![1, 4, 3]);
    assert_eq!(octree.entities_in_radius(at(1, 1, 0), 0), vec![4]);
}

#[test]
fn children_of_an_odd_cube_overlap_round_the_centre() {
    // root: centre 5, half-extent 9; children: centres 5 - 4 and 5 + 4,
    // half-extent 5
    let mut cfg = OctreeConfig::default();
    cfg.split_threshold = 1;
    let mut octree = Octree::new(cfg);
    octree.prepare(&[(1, at(0, 0, 0)), (2, at(10, 0, 0))]);
    let cubes = octree.node_cubes();
    assert_eq!(cubes.len(), 9);
    assert_eq!(cubes[0], AabbCube { cx: 5, cy: 0, cz: 0, half: 9 });
    assert_eq!(cubes[1], AabbCube { cx: 1, cy: -4, cz: -4, half: 5 });
    assert_eq!(cubes[2], AabbCube { cx: 9, cy: -4, cz: -4, half: 5 });
    assert_eq!(cubes[8], AabbCube { cx: 9, cy: 4, cz: 4, half: 5 });
    assert_eq!(octree.entities_in_radius(at(0, 0, 0), 0), vec![1]);
    assert_eq!(octree.entities_in_radius(at(10, 0, 0), 0), vec![2]);
    assert_eq!(sorted(octree.entities_in_radius(at(5, 0, 0), 5)), vec![1, 2]);
}

#[test]
fn updating_an_unknown_entity_inserts_it() {
    let mut octree = Octree::default();
    octree.update_entity(3, at(10, 10, 10));
    assert_eq!(octree.entities_in_radius(at(10, 10, 10), 0), vec![3]);
    octree.update_entity(4, at(-10, -10, -10));
    assert_eq!(sorted(octree.entities_in_radius(at(0, 0, 0), 100)), vec![3, 4]);
}

#[test]
fn inserting_a_known_entity_moves_it() {
    let mut octree = Octree::default();
    octree.insert_entity(1, at(0, 0, 0));
    octree.insert_entity(1, at(50, 0, 0));
    assert!(octree.entities_in_radius(at(0, 0, 0), 10).is_empty());
    assert_eq!(octree.entities_in_radius(at(50, 0, 0), 10), vec![1]);
    assert_eq!(octree.entities_in_radius(at(0, 0, 0), 100), vec![1]);
}

#[test]
fn update_moves_from_origin_to_far_corner() {
    let mut octree = Octree::default();
    octree.insert_entity(1, at(0, 0, 0));
    octree.update_entity(1, at(100, 100, 100));
    assert_eq!(octree.entities_in_radius(at(100, 100, 100), 1), vec![1]);
    assert!(octree.entities_in_radius(at(0, 0, 0), 1).is_empty());
}

#[test]
fn update_within_the_padding_stays_exact() {
    let mut octree = Octree::default();
    octree.prepare(&diagonal());
    // a small move, inside the padded cube of the leaf
    octree.update_entity(15, at(46, 46, 46));
    assert_eq!(octree.node_cubes().len(), 9);
    assert_eq!(octree.entities_in_radius(at(46, 46, 46), 0), vec![15]);
    assert!(octree.entities_in_radius(at(45, 45, 45), 0).is_empty());
    // a move across the middle of the root, into the padding of the old leaf
    octree.update_entity(15, at(49, 49, 49));
    assert_eq!(octree.node_cubes().len(), 9);
    assert_eq!(octree.entities_in_radius(at(49, 49, 49), 0), vec![15]);
    assert_eq!(sorted(octree.entities_in_radius(at(48, 48, 48), 2)), vec![15, 16]);
    // a move beyond the padding puts the entity into another leaf
    octree.update_entity(15, at(90, 90, 0));
    assert_eq!(octree.entities_in_radius(at(90, 90, 0), 0), vec![15]);
    assert_eq!(octree.entities_in_radius(at(48, 48, 48), 2), vec![16]);
}

#[test]
fn entity_in_the_padding_of_the_root_is_found() {
    let mut octree = Octree::default();
    octree.prepare(&[(1, at(0, 0, 0))]);
    assert_eq!(octree.node_cubes(), vec![AabbCube { cx: 0, cy: 0, cz: 0, half: 4 }]);
    // outside the root's cube, inside its padding of 2: the root stays
    octree.insert_entity(2, at(6, 0, 0));
    assert_eq!(octree.node_cubes().len(), 1);
    assert_eq!(octree.entities_in_radius(at(6, 0, 0), 1), vec![2]);
    assert_eq!(octree.entities_in_radius(at(8, 0, 0), 2), vec![2]);
    assert!(octree.entities_in_radius(at(8, 0, 0), 1).is_empty());
}

#[test]
fn root_grows_towards_a_far_entity() {
    let mut octree = Octree::default();
    octree.prepare(&[(1, at(0, 0, 0))]);
    octree.insert_entity(2, at(20, -3, 0));
    // 4 -> 8 -> 16: the root doubles towards the entity until its padded
    // cube holds it
    let cubes = octree.node_cubes();
    assert_eq!(cubes[0], AabbCube { cx: 12, cy: 4, cz: -4, half: 16 });
    assert_eq!(cubes.len(), 17);
    assert_eq!(octree.entities_in_radius(at(20, -3, 0), 0), vec![2]);
    assert_eq!(octree.entities_in_radius(at(0, 0, 0), 0), vec![1]);
    assert_eq!(sorted(octree.entities_in_radius(at(10, 0, 0), 11)), vec![1, 2]);
}

#[test]
fn root_doubles_until_it_holds_the_position() {
    let mut octree = Octree::default();
    // nothing to grow before the tree is built
    octree.grow_to_hold(at(1000, 0, 0));
    assert!(octree.node_cubes().is_empty());
    octree.prepare(&[(1, at(0, 0, 0))]);
    // inside the padded root: nothing changes
    octree.grow_to_hold(at(6, -6, 6));
    assert_eq!(octree.node_cubes(), vec![AabbCube { cx: 0, cy: 0, cz: 0, half: 4 }]);
    // one doubling: towards +x, -y (the point is below the centre) and +z
    octree.grow_to_hold(at(7, -1, 0));
    let cubes = octree.node_cubes();
    assert_eq!(cubes.len(), 9);
    assert_eq!(cubes[0], AabbCube { cx: 4, cy: -4, cz: 4, half: 8 });
    // the old root is the child in the octant that it fills
    assert_eq!(cubes[1], AabbCube { cx: 0, cy: 0, cz: 0, half: 4 });
    // three more doublings: 16, 32, 64
    octree.grow_to_hold(at(100, -1, 0));
    let cubes = octree.node_cubes();
    assert_eq!(cubes.len(), 33);
    assert_eq!(cubes[0].half, 64);
    assert!(cubes[0].contains(&at(100, -1, 0), 2));
    assert_eq!(octree.entities_in_radius(at(0, 0, 0), u64::MAX), vec![1]);
}

#[test]
fn root_grows_to_the_ends_of_the_range() {
    let mut octree = Octree::default();
    octree.prepare(&[(1, at(0, 0, 0))]);
    let corners = [
        at(i32::MAX, i32::MAX, i32::MAX),
        at(i32::MIN, i32::MIN, i32::MIN),
        at(i32::MAX, i32::MIN, 0),
        at(2_000_000_000, -2_000_000_000, 5),
    ];
    for (i, corner) in corners.iter().enumerate() {
        octree.insert_entity(10 + i as u64, *corner);
    }
    for (i, corner) in corners.iter().enumerate() {
        assert_eq!(octree.entities_in_radius(*corner, 1), vec![10 + i as u64]);
    }
    assert_eq!(octree.entities_in_radius(at(0, 0, 0), 1), vec![1]);
    assert_eq!(octree.entities_in_radius(at(0, 0, 0), u64::MAX).len(), 5);
}

#[test]
fn root_grows_with_a_depth_limit_of_zero() {
    let mut cfg = OctreeConfig::default();
    cfg.max_depth = 0;
    cfg.min_half_size = 1000;
    let mut octree = Octree::new(cfg);
    octree.prepare(&[]);
    octree.insert_entity(1, at(5000, 5000, -5000));
    assert_eq!(octree.entities_in_radius(at(5000, 5000, -5000), 1), vec![1]);
    assert!(octree.entities_in_radius(at(0, 0, 0), 1).is_empty());
}

#[test]
fn prepare_builds_only_once() {
    let mut octree = Octree::default();
    assert!(!octree.is_prepared());
    octree.prepare(&[(1, at(0, 0, 0))]);
    assert!(octree.is_prepared());
    octree.prepare(&[(2, at(1, 1, 1)), (3, at(2, 2, 2))]);
    assert_eq!(octree.entities_in_radius(at(0, 0, 0), 100), vec![1]);
}

#[test]
fn many_entities_in_one_place() {
    // they cannot be told apart by splitting; the leaves stop at half-extent 1
    let mut octree = Octree::default();
    let entities: Vec<EntityPositionPair> = (0..200).map(|i| (i as u64, at(7, 7, 7))).collect();
    octree.prepare(&entities);
    assert_eq!(octree.entities_in_radius(at(7, 7, 7), 0).len(), 200);
    for i in 0..100 {
        octree.remove_entity(i);
    }
    assert_eq!(
        sorted(octree.entities_in_radius(at(7, 7, 7), 0)),
        (100..200).collect::<Vec<u64>>()
    );
}

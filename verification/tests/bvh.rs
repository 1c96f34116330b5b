use bevy::tasks::TaskPool;
use bevy_mod_spatial_query::algorithms::bvh::{
    build_subtree, calculate_aabb, cheapest_axis, choose_split, cost, find_split_index_and_cost,
    split_node, Aabb,
};
use bevy_mod_spatial_query::algorithms::Bvh;
use bevy_mod_spatial_query::geometry::{EntityPositionPair, Position};
use bevy_mod_spatial_query::SpatialLookupAlgorithm;

fn at(x: i32, y: i32, z: i32) -> Position {
    Position::new(x, y, z)
}

/// Four entities in two clusters, sorted along every axis.
fn two_clusters() -> Vec<EntityPositionPair> {
    vec![(1, at(0, 0, 0)), (2, at(1, 1, 1)), (3, at(10, 10, 10)), (4, at(12, 11, 10))]
}

#[test]
fn surface_area_of_a_box() {
    let b = Aabb { min: at(0, 0, 0), max: at(1, 2, 3) };
    assert_eq!(b.total_surface_area(), 22);
    let flat = Aabb { min: at(-2, 5, 7), max: at(4, 5, 9) };
    assert_eq!(flat.total_surface_area(), 24);
    let point = Aabb { min: at(9, 9, 9), max: at(9, 9, 9) };
    assert_eq!(point.total_surface_area(), 0);
}

#[test]
fn surface_area_over_the_whole_range() {
    let b = Aabb {
        min: at(i32::MIN, i32::MIN, i32::MIN),
        max: at(i32::MAX, i32::MAX, i32::MAX),
    };
    // six faces of edge 4294967295
    assert_eq!(b.total_surface_area(), 110_680_464_390_717_702_150i128);
}

#[test]
fn bounding_box_of_points() {
    let entities = vec![(1, at(3, -4, 5)), (2, at(-1, 7, 5)), (3, at(2, 0, -9))];
    let aabb = calculate_aabb(&entities);
    assert_eq!(aabb, Aabb { min: at(-1, -4, -9), max: at(3, 7, 5) });
    let single = calculate_aabb(&entities[1..2]);
    assert_eq!(single, Aabb { min: at(-1, 7, 5), max: at(-1, 7, 5) });
}

#[test]
fn box_meets_sphere_by_nearest_point() {
    let b = Aabb { min: at(0, 0, 0), max: at(10, 10, 10) };
    // the nearest point of the box is (10, 10, 5): gaps 3, 4, 0
    assert!(b.intersects_sphere(&at(13, 14, 5), 5));
    assert!(!b.intersects_sphere(&at(13, 14, 5), 4));
    // below the smallest corner
    assert!(b.intersects_sphere(&at(-3, -4, 0), 5));
    assert!(!b.intersects_sphere(&at(-3, -4, -1), 5));
    // a centre inside needs no radius
    assert!(b.intersects_sphere(&at(5, 5, 5), 0));
    assert!(b.intersects_sphere(&at(10, 0, 10), 0));
}

#[test]
fn cost_weighs_areas_by_counts() {
    let entities = two_clusters();
    // left: unit cube, area 6, two entities; right: 2 x 1 x 0, area 4, two
    assert_eq!(cost(&entities, 2), 20);
    // left: a point; right: 11 x 10 x 9, area 598, three entities
    assert_eq!(cost(&entities, 1), 1794);
    // left: 10 x 10 x 10, area 600, three entities; right: a point
    assert_eq!(cost(&entities, 3), 1800);
}

#[test]
fn cost_over_the_whole_range() {
    // both parts span the whole range: area 110680464390717702150 each
    let low = at(i32::MIN, i32::MIN, i32::MIN);
    let high = at(i32::MAX, i32::MAX, i32::MAX);
    let entities = vec![(1, low), (2, high), (3, low), (4, high)];
    assert_eq!(cost(&entities, 2), 442_721_857_562_870_808_600u128);
}

#[test]
fn best_split_is_first_cheapest_sample() {
    let entities = two_clusters();
    assert_eq!(find_split_index_and_cost(&entities, 10), (2, 20));
    // one sample only: the stride is the length, position 1 alone is tried
    assert_eq!(find_split_index_and_cost(&entities, 1), (1, 1794));
    // two entities leave nothing between the ends
    assert_eq!(find_split_index_and_cost(&entities[0..2], 10), (1, u128::MAX));
    // three entities: position 1 alone
    assert_eq!(find_split_index_and_cost(&entities[0..3], 10), (1, 972));
}

#[test]
fn best_split_keeps_the_sampling_stride() {
    // 25 entities and 10 samples: stride 2, so only odd positions are tried.
    // The clusters part at position 12, which is not tried.
    let mut entities: Vec<EntityPositionPair> = Vec::new();
    for i in 0..12 {
        entities.push((i as u64, at(i, i % 3, i % 2)));
    }
    for i in 12..25 {
        entities.push((i as u64, at(1000 + i, i % 3, i % 2)));
    }
    let (index, found_cost) = find_split_index_and_cost(&entities, 10);
    assert_eq!(index % 2, 1);
    assert_eq!(found_cost, cost(&entities, index));
    let mut position = 1;
    while position < entities.len() - 1 {
        let sampled = cost(&entities, position);
        assert!(found_cost <= sampled);
        if position < index {
            assert!(found_cost < sampled);
        }
        position += 2;
    }
    assert_eq!(cost(&entities, 12), 1828);
    assert_eq!((index, found_cost), (13, 79828));
}

#[test]
fn cheapest_axis_prefers_the_first() {
    assert_eq!(cheapest_axis(&[5, 3, 3]), 1);
    assert_eq!(cheapest_axis(&[2, 2, 2]), 0);
    assert_eq!(cheapest_axis(&[9, 8, 7]), 2);
    assert_eq!(cheapest_axis(&[1, 8, 7]), 0);
    assert_eq!(cheapest_axis(&[u128::MAX, u128::MAX, u128::MAX]), 0);
}

#[test]
fn choose_split_sorts_along_the_chosen_axis() {
    // spread along x only: every cut costs nothing, so the first axis wins
    // and the entities come back sorted along x
    let mut entities = vec![(1, at(12, 0, 0)), (2, at(0, 0, 0)), (3, at(10, 0, 0)), (4, at(1, 0, 0))];
    let (axis, split_at) = choose_split(&mut entities, 10);
    assert_eq!(axis, 0);
    assert_eq!(split_at, 1);
    assert_eq!(
        entities,
        vec![(2, at(0, 0, 0)), (4, at(1, 0, 0)), (3, at(10, 0, 0)), (1, at(12, 0, 0))]
    );
}

#[test]
fn choose_split_picks_the_cheapest_axis() {
    // two clusters that part along z; along x and y they interleave
    let mut entities = vec![
        (1, at(0, 1, 100)),
        (2, at(1, 0, 0)),
        (3, at(2, 3, 101)),
        (4, at(3, 2, 1)),
        (5, at(4, 5, 102)),
        (6, at(5, 4, 2)),
    ];
    let (axis, split_at) = choose_split(&mut entities, 10);
    assert_eq!(axis, 2);
    assert_eq!(split_at, 3);
    let ids: Vec<u64> = entities.iter().map(|pair| pair.0).collect();
    assert_eq!(ids, vec![2, 4, 6, 1, 3, 5]);
}

#[test]
fn split_node_makes_leaves_within_capacity() {
    let entities =
        vec![(3, at(10, 10, 10)), (1, at(0, 0, 0)), (4, at(12, 11, 10)), (2, at(1, 1, 1))];
    let node = build_subtree(&entities, 2, 10);
    assert_eq!(node.count_depth(), 2);
    let mut found = node.entities_in_radius(&at(0, 0, 0), 2);
    found.sort();
    assert_eq!(found, vec![1, 2]);
    let mut boxes = Vec::new();
    node.collect_leaf_boxes(0, &mut boxes);
    assert_eq!(
        boxes,
        vec![
            (Aabb { min: at(0, 0, 0), max: at(1, 1, 1) }, 1),
            (Aabb { min: at(10, 10, 10), max: at(12, 11, 10) }, 1),
        ]
    );
    // a capacity that holds everything gives one leaf, in the given order
    let leaf = build_subtree(&entities, 4, 10);
    assert_eq!(leaf.count_depth(), 1);
    assert_eq!(leaf.entities_in_radius(&at(0, 0, 0), 1000), vec![3, 1, 4, 2]);
}

#[test]
fn split_node_builds_the_halves_in_order() {
    let entities =
        vec![(3, at(10, 10, 10)), (1, at(0, 0, 0)), (4, at(12, 11, 10)), (2, at(1, 1, 1))];
    let pool = TaskPool::new();
    let node = split_node(&entities, 2, 10, &pool);
    assert_eq!(node.count_depth(), 2);
    let mut boxes = Vec::new();
    node.collect_leaf_boxes(0, &mut boxes);
    // the left half first
    assert_eq!(
        boxes,
        vec![
            (Aabb { min: at(0, 0, 0), max: at(1, 1, 1) }, 1),
            (Aabb { min: at(10, 10, 10), max: at(12, 11, 10) }, 1),
        ]
    );
    assert_eq!(node.entities_in_radius(&at(0, 0, 0), 1000), vec![1, 2, 3, 4]);
    let leaf = split_node(&entities, 4, 10, &pool);
    assert_eq!(leaf.entities_in_radius(&at(0, 0, 0), 1000), vec![3, 1, 4, 2]);
}

#[test]
fn split_node_cuts_along_the_cheapest_axis() {
    // along x the cut before position 2 costs 64; along y and z the best
    // cut costs 168
    let entities =
        vec![(0, at(0, 0, 0)), (1, at(1, 3, 2)), (2, at(10, 1, 1)), (3, at(11, 2, 3))];
    let node = split_node(&entities, 2, 10, &TaskPool::new());
    let mut boxes = Vec::new();
    node.collect_leaf_boxes(0, &mut boxes);
    assert_eq!(
        boxes,
        vec![
            (Aabb { min: at(0, 0, 0), max: at(1, 3, 2) }, 1),
            (Aabb { min: at(10, 1, 1), max: at(11, 2, 3) }, 1),
        ]
    );
    assert_eq!(node.entities_in_radius(&at(0, 0, 0), 1000), vec![0, 1, 2, 3]);
    let mut arranged = entities.clone();
    assert_eq!(choose_split(&mut arranged, 10), (0, 2));
}

#[test]
fn split_node_builds_the_same_tree_as_one_thread() {
    let mut entities: Vec<EntityPositionPair> = Vec::new();
    for i in 0..500 {
        entities.push((i as u64, at(i * 37 % 101, i * 53 % 103, i * 71 % 107)));
    }
    let pool = TaskPool::new();
    let forked = split_node(&entities, 7, 10, &pool);
    let alone = build_subtree(&entities, 7, 10);
    assert_eq!(format!("{:?}", forked), format!("{:?}", alone));
    assert_eq!(forked.count_depth(), alone.count_depth());
}

#[test]
fn bvh_default_configuration() {
    let bvh = Bvh::default();
    assert_eq!(bvh.entities_per_leaf, 10_000);
    assert_eq!(bvh.max_split_samples_per_axis, 10);
    assert!(!bvh.is_prepared());
    assert!(!bvh.supports_incremental());
    assert_eq!(bvh.tree_depth(), 0);
}

#[test]
fn bvh_query_before_prepare_finds_nothing() {
    let bvh = Bvh::default();
    assert!(bvh.entities_in_radius(at(0, 0, 0), u64::MAX).is_empty());
    assert!(bvh.debug_boxes().is_empty());
}

#[test]
fn bvh_prepare_with_nothing_leaves_no_tree() {
    let mut bvh = Bvh::default();
    bvh.prepare(&[]);
    assert!(!bvh.is_prepared());
    assert!(bvh.entities_in_radius(at(0, 0, 0), u64::MAX).is_empty());
    // an empty snapshot also takes an earlier tree away
    bvh.prepare(&two_clusters());
    assert!(bvh.is_prepared());
    bvh.prepare(&[]);
    assert!(!bvh.is_prepared());
    assert!(bvh.entities_in_radius(at(0, 0, 0), u64::MAX).is_empty());
}

#[test]
fn bvh_rebuilds_on_every_prepare() {
    let mut bvh = Bvh::default();
    bvh.entities_per_leaf = 2;
    bvh.prepare(&two_clusters());
    assert_eq!(bvh.tree_depth(), 2);
    assert_eq!(bvh.debug_boxes().len(), 2);
    let mut found = bvh.entities_in_radius(at(11, 10, 10), 2);
    found.sort();
    assert_eq!(found, vec![3, 4]);
    bvh.prepare(&[(9, at(11, 10, 10))]);
    assert_eq!(bvh.tree_depth(), 1);
    assert_eq!(bvh.entities_in_radius(at(11, 10, 10), 2), vec![9]);
}

#[test]
fn bvh_ignores_single_entity_operations() {
    let mut bvh = Bvh::default();
    bvh.prepare(&two_clusters());
    bvh.insert_entity(9, at(0, 0, 0));
    bvh.remove_entity(1);
    bvh.update_entity(2, at(500, 500, 500));
    let mut found = bvh.entities_in_radius(at(0, 0, 0), 2);
    found.sort();
    assert_eq!(found, vec![1, 2]);
}

#[test]
fn bvh_with_leaves_of_one() {
    let mut bvh = Bvh::default();
    bvh.entities_per_leaf = 1;
    bvh.max_split_samples_per_axis = 1;
    let mut entities: Vec<EntityPositionPair> = Vec::new();
    for i in 0..50 {
        entities.push((i as u64, at(i * 7 % 50, i * 3 % 50, i)));
    }
    bvh.prepare(&entities);
    assert_eq!(bvh.debug_boxes().len(), 50);
    let mut found = bvh.entities_in_radius(at(0, 0, 0), 1000);
    found.sort();
    assert_eq!(found, (0..50).collect::<Vec<u64>>());
    assert_eq!(bvh.entities_in_radius(at(0, 0, 0), 0), vec![0]);
}

#[test]
fn two_builds_answer_with_the_same_list() {
    // no two entities share a coordinate along any axis
    let mut entities: Vec<EntityPositionPair> = Vec::new();
    for i in 0..300 {
        entities.push((i as u64, at(i * 37 % 307, i * 53 % 311, i * 71 % 313)));
    }
    let mut first = Bvh::default();
    first.entities_per_leaf = 8;
    let mut second = Bvh::default();
    second.entities_per_leaf = 8;
    first.prepare(&entities);
    second.prepare(&entities);
    assert_eq!(first.tree_depth(), second.tree_depth());
    assert_eq!(first.debug_boxes(), second.debug_boxes());
    let all = first.entities_in_radius(at(0, 0, 0), u64::MAX);
    assert_eq!(all.len(), 300);
    assert_eq!(second.entities_in_radius(at(0, 0, 0), u64::MAX), all);
    // and so does a second prepare of the same hierarchy
    first.prepare(&entities);
    assert_eq!(first.entities_in_radius(at(0, 0, 0), u64::MAX), all);
    assert_eq!(
        first.entities_in_radius(at(150, 150, 150), 120),
        second.entities_in_radius(at(150, 150, 150), 120)
    );
}

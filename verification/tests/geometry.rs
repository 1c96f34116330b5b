use bevy_mod_spatial_query::geometry::{
    is_within_radius, square_gap, square_radius, squared_distance, Position,
};
use bevy_mod_spatial_query::model::collect_ids_within;

#[test]
fn position_axis_reads_each_coordinate() {
    let p = Position::new(3, -4, 12);
    assert_eq!(p.axis(0), 3);
    assert_eq!(p.axis(1), -4);
    assert_eq!(p.axis(2), 12);
    assert_eq!(p, Position { x: 3, y: -4, z: 12 });
}

#[test]
fn squared_distance_is_sum_of_squared_gaps() {
    let origin = Position::new(0, 0, 0);
    let p = Position::new(3, 4, 12);
    assert_eq!(squared_distance(&origin, &p), 169);
    assert_eq!(squared_distance(&p, &origin), 169);
    assert_eq!(squared_distance(&p, &p), 0);
    assert_eq!(square_gap(-5, 7), 144);
    assert_eq!(square_gap(7, -5), 144);
}

#[test]
fn squared_distance_at_the_ends_of_the_range() {
    let low = Position::new(i32::MIN, i32::MIN, i32::MIN);
    let high = Position::new(i32::MAX, i32::MAX, i32::MAX);
    // each gap is 4294967295
    assert_eq!(squared_distance(&low, &high), 55_340_232_195_358_851_075u128);
    assert!(is_within_radius(&low, &high, u64::MAX));
    assert!(is_within_radius(&low, &high, 7_439_101_572));
    assert!(!is_within_radius(&low, &high, 7_439_101_571));
}

#[test]
fn square_radius_of_the_largest_radius() {
    assert_eq!(square_radius(0), 0);
    assert_eq!(square_radius(5), 25);
    assert_eq!(
        square_radius(u64::MAX),
        340_282_366_920_938_463_426_481_119_284_349_108_225u128
    );
}

#[test]
fn boundary_is_inclusive() {
    let origin = Position::new(0, 0, 0);
    // exactly at distance 5
    assert!(is_within_radius(&Position::new(3, 4, 0), &origin, 5));
    assert!(is_within_radius(&Position::new(5, 0, 0), &origin, 5));
    assert!(is_within_radius(&Position::new(0, -5, 0), &origin, 5));
    // one lattice step farther
    assert!(!is_within_radius(&Position::new(3, 4, 1), &origin, 5));
    assert!(!is_within_radius(&Position::new(6, 0, 0), &origin, 5));
    // a radius of zero holds the centre alone
    assert!(is_within_radius(&origin, &origin, 0));
    assert!(!is_within_radius(&Position::new(0, 0, 1), &origin, 0));
}

#[test]
fn collect_ids_within_keeps_order() {
    let centre = Position::new(10, 10, 10);
    let entries = vec![
        (7u64, Position::new(10, 10, 13)),
        (3u64, Position::new(10, 10, 14)),
        (9u64, Position::new(10, 10, 10)),
        (1u64, Position::new(13, 10, 10)),
    ];
    assert_eq!(collect_ids_within(&entries, &centre, 3), vec![7, 9, 1]);
    assert_eq!(collect_ids_within(&entries, &centre, 0), vec![9]);
    assert_eq!(collect_ids_within(&[], &centre, 100), Vec::<u64>::new());
}

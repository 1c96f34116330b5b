//! Lattice positions, the inclusive radius test, and the mathematical
//! vocabulary that every algorithm's contract is written in.

use vstd::prelude::*;

verus! {

/// A point of the integer lattice.
#[derive(Clone, Copy, Debug, PartialEq, Eq, Structural)]
pub struct Position {
    pub x: i32,
    pub y: i32,
    pub z: i32,
}

/// An identifier together with the position it is tracked at.
pub type EntityPositionPair = (u64, Position);

impl Position {
    /// The coordinate along `axis` (0 is x, 1 is y, anything else is z).
    pub open spec fn coord(self, axis: int) -> int {
        if axis == 0 {
            self.x as int
        } else if axis == 1 {
            self.y as int
        } else {
            self.z as int
        }
    }

    pub fn new(x: i32, y: i32, z: i32) -> (p: Position)
        ensures
            p == (Position { x, y, z }),
    {
        Position { x, y, z }
    }

    /// Reads the coordinate along `axis`.
    pub fn axis(&self, axis: usize) -> (c: i32)
        ensures
            c == self.coord(axis as int),
    {
        if axis == 0 {
            self.x
        } else if axis == 1 {
            self.y
        } else {
            self.z
        }
    }
}

/// Squared Euclidean distance between two lattice points.
pub open spec fn distance_squared(a: Position, b: Position) -> int {
    (a.x - b.x) * (a.x - b.x) + (a.y - b.y) * (a.y - b.y) + (a.z - b.z) * (a.z - b.z)
}

/// The radius test of every query: the distance from `p` to `centre` is at
/// most `radius`, the boundary included.
pub open spec fn within_radius(p: Position, centre: Position, radius: u64) -> bool {
    distance_squared(p, centre) <= radius * radius
}

/// The square of a difference of two `i32` coordinates fits in 64 bits.
pub proof fn lemma_square_bound(d: int)
    requires
        -0x1_0000_0000 < d < 0x1_0000_0000,
    ensures
        0 <= d * d <= 0xffff_ffff * 0xffff_ffff,
{
    assert(0 <= d * d <= 0xffff_ffff * 0xffff_ffff) by (nonlinear_arith)
        requires
            -0x1_0000_0000 < d < 0x1_0000_0000,
    ;
}

/// Squares a coordinate gap.
pub fn square_gap(a: i32, b: i32) -> (s: u128)
    ensures
        s == (a - b) * (a - b),
        s <= 0xffff_ffff * 0xffff_ffff,
{
    let d: i128 = a as i128 - b as i128;
    proof {
        lemma_square_bound(d as int);
    }
    (d * d) as u128
}

/// Squares a radius.
pub fn square_radius(radius: u64) -> (s: u128)
    ensures
        s == radius * radius,
{
    let r: u128 = radius as u128;
    assert(r * r <= 0xffff_ffff_ffff_ffff * 0xffff_ffff_ffff_ffff) by (nonlinear_arith)
        requires
            0 <= r <= 0xffff_ffff_ffff_ffff,
    ;
    r * r
}

/// Computes the squared distance between two points.
pub fn squared_distance(a: &Position, b: &Position) -> (d: u128)
    ensures
        d == distance_squared(*a, *b),
{
    let dx = square_gap(a.x, b.x);
    let dy = square_gap(a.y, b.y);
    let dz = square_gap(a.z, b.z);
    dx + dy + dz
}

/// Decides the radius test.
pub fn is_within_radius(p: &Position, centre: &Position, radius: u64) -> (b: bool)
    ensures
        b == within_radius(*p, *centre, radius),
{
    squared_distance(p, centre) <= square_radius(radius)
}

/// A point whose distance equals the radius is inside; any point farther away
/// is outside.
pub proof fn lemma_boundary_inclusive(p: Position, centre: Position, radius: u64)
    ensures
        distance_squared(p, centre) == radius * radius ==> within_radius(p, centre, radius),
        distance_squared(p, centre) > radius * radius ==> !within_radius(p, centre, radius),
{
}

/// How far `p` lies outside the interval from `lo` to `hi`.
pub open spec fn interval_gap(p: int, lo: int, hi: int) -> int {
    if p < lo {
        lo - p
    } else if p > hi {
        p - hi
    } else {
        0
    }
}

/// The gap between a point and an interval is no longer than the way to any
/// point of the interval.
pub proof fn lemma_interval_gap_below(p: int, lo: int, hi: int, q: int)
    requires
        lo <= q <= hi,
    ensures
        interval_gap(p, lo, hi) * interval_gap(p, lo, hi) <= (q - p) * (q - p),
{
    let g = interval_gap(p, lo, hi);
    let d = if q >= p { q - p } else { p - q };
    assert(0 <= g <= d);
    assert(g * g <= d * d) by (nonlinear_arith)
        requires
            0 <= g <= d,
    ;
    assert(d * d == (q - p) * (q - p)) by (nonlinear_arith)
        requires
            d == q - p || d == p - q,
    ;
}

} // verus!

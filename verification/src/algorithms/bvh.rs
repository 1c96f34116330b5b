//! Bounding volume hierarchy: a binary tree of boxes, rebuilt from scratch on
//! every `prepare` by the surface area heuristic.

use crate::geometry::{
    distance_squared, interval_gap, lemma_interval_gap_below, square_gap, square_radius,
    within_radius, EntityPositionPair, Position,
};
use crate::model::{
    collect_ids_within, distinct_ids, entries_map, ids_within, lemma_ids_within_concat,
    lemma_ids_within_is_answer, lemma_permutation_contains, lemma_permutation_same_map,
};
use crate::SpatialLookupAlgorithm;
use bevy::tasks::{ParallelSlice, TaskPool};
use vstd::prelude::*;
use vstd::seq_lib::lemma_multiset_commutative;
use vstd::slice::slice_subrange;

verus! {

/// Axis-aligned bounding box.
#[derive(Clone, Copy, Debug, PartialEq, Eq, Structural)]
pub struct Aabb {
    /// The corner with the smallest coordinates.
    pub min: Position,
    /// The corner with the largest coordinates.
    pub max: Position,
}

impl Aabb {
    /// The smallest corner is nowhere beyond the largest.
    pub open spec fn wf(self) -> bool {
        &&& self.min.x <= self.max.x
        &&& self.min.y <= self.max.y
        &&& self.min.z <= self.max.z
    }

    /// `p` lies in the box, faces included.
    pub open spec fn contains(self, p: Position) -> bool {
        &&& self.min.x <= p.x <= self.max.x
        &&& self.min.y <= p.y <= self.max.y
        &&& self.min.z <= p.z <= self.max.z
    }

    /// The box that holds `p` and nothing else.
    pub open spec fn point(p: Position) -> Aabb {
        Aabb { min: p, max: p }
    }

    /// The smallest box that holds this box and `p`.
    pub open spec fn extend(self, p: Position) -> Aabb {
        Aabb {
            min: Position {
                x: if p.x < self.min.x { p.x } else { self.min.x },
                y: if p.y < self.min.y { p.y } else { self.min.y },
                z: if p.z < self.min.z { p.z } else { self.min.z },
            },
            max: Position {
                x: if p.x > self.max.x { p.x } else { self.max.x },
                y: if p.y > self.max.y { p.y } else { self.max.y },
                z: if p.z > self.max.z { p.z } else { self.max.z },
            },
        }
    }

    /// Total area of the six faces.
    pub open spec fn surface_area(self) -> int {
        let ex = self.max.x - self.min.x;
        let ey = self.max.y - self.min.y;
        let ez = self.max.z - self.min.z;
        ex * ey * 2 + ex * ez * 2 + ey * ez * 2
    }

    /// Squared distance from `p` to the nearest point of the box; zero if
    /// `p` is inside.
    pub open spec fn gap_squared(self, p: Position) -> int {
        let gx = interval_gap(p.x as int, self.min.x as int, self.max.x as int);
        let gy = interval_gap(p.y as int, self.min.y as int, self.max.y as int);
        let gz = interval_gap(p.z as int, self.min.z as int, self.max.z as int);
        gx * gx + gy * gy + gz * gz
    }

    /// The sphere round `centre` reaches the box.
    pub open spec fn meets_sphere(self, centre: Position, radius: u64) -> bool {
        self.gap_squared(centre) <= radius * radius
    }

    /// Computes the total area of the six faces.
    pub fn total_surface_area(&self) -> (area: i128)
        ensures
            area == self.surface_area(),
    {
        let ex: i128 = self.max.x as i128 - self.min.x as i128;
        let ey: i128 = self.max.y as i128 - self.min.y as i128;
        let ez: i128 = self.max.z as i128 - self.min.z as i128;
        proof {
            lemma_product_bound(ex as int, ey as int);
            lemma_product_bound(ex as int, ez as int);
            lemma_product_bound(ey as int, ez as int);
        }
        ex * ey * 2 + ex * ez * 2 + ey * ez * 2
    }

    /// Decides whether the sphere round `centre` reaches the box: on each
    /// axis the gap to the nearest face is squared, and the sum is compared
    /// with the squared radius.
    pub fn intersects_sphere(&self, centre: &Position, radius: u64) -> (hit: bool)
        ensures
            hit == self.meets_sphere(*centre, radius),
    {
        let gx = axis_gap_squared(centre.x, self.min.x, self.max.x);
        let gy = axis_gap_squared(centre.y, self.min.y, self.max.y);
        let gz = axis_gap_squared(centre.z, self.min.z, self.max.z);
        gx + gy + gz <= square_radius(radius)
    }
}

/// The product of two coordinate extents fits in 65 bits.
pub proof fn lemma_product_bound(a: int, b: int)
    requires
        -0x1_0000_0000 < a < 0x1_0000_0000,
        -0x1_0000_0000 < b < 0x1_0000_0000,
    ensures
        -0x1_0000_0000_0000_0000 < a * b < 0x1_0000_0000_0000_0000,
{
    assert(-0x1_0000_0000_0000_0000 < a * b < 0x1_0000_0000_0000_0000) by (nonlinear_arith)
        requires
            -0x1_0000_0000 < a < 0x1_0000_0000,
            -0x1_0000_0000 < b < 0x1_0000_0000,
    ;
}

/// Squares the gap between `p` and the interval from `lo` to `hi`.
fn axis_gap_squared(p: i32, lo: i32, hi: i32) -> (g: u128)
    ensures
        g == interval_gap(p as int, lo as int, hi as int) * interval_gap(
            p as int,
            lo as int,
            hi as int,
        ),
        g <= 0xffff_ffff * 0xffff_ffff,
{
    if p < lo {
        square_gap(lo, p)
    } else if p > hi {
        square_gap(p, hi)
    } else {
        0
    }
}

/// A box is no farther from `p` than any point it holds.
pub proof fn lemma_gap_below_distance(b: Aabb, q: Position, p: Position)
    requires
        b.contains(q),
    ensures
        b.gap_squared(p) <= distance_squared(q, p),
{
    lemma_interval_gap_below(p.x as int, b.min.x as int, b.max.x as int, q.x as int);
    lemma_interval_gap_below(p.y as int, b.min.y as int, b.max.y as int, q.y as int);
    lemma_interval_gap_below(p.z as int, b.min.z as int, b.max.z as int, q.z as int);
}

/// A sphere that reaches a point of a box reaches the box.
pub proof fn lemma_sphere_reaches_box(b: Aabb, q: Position, centre: Position, radius: u64)
    requires
        b.contains(q),
        within_radius(q, centre, radius),
    ensures
        b.meets_sphere(centre, radius),
{
    lemma_gap_below_distance(b, q, centre);
}

/// The smallest box round the positions of `entries`, which must not be
/// empty.
pub open spec fn bounding_box(entries: Seq<EntityPositionPair>) -> Aabb
    decreases entries.len(),
{
    if entries.len() <= 1 {
        Aabb::point(entries[0].1)
    } else {
        bounding_box(entries.drop_last()).extend(entries.last().1)
    }
}

/// Some entry has the coordinate `value` along `axis`.
pub open spec fn attains(entries: Seq<EntityPositionPair>, axis: int, value: int) -> bool {
    exists|i: int| 0 <= i < entries.len() && #[trigger] entries[i].1.coord(axis) == value
}

/// `b` holds every position of `entries`, and each of its six faces touches
/// one of them.
pub open spec fn is_bounding_box(b: Aabb, entries: Seq<EntityPositionPair>) -> bool {
    &&& forall|i: int| 0 <= i < entries.len() ==> b.contains(#[trigger] entries[i].1)
    &&& attains(entries, 0, b.min.x as int)
    &&& attains(entries, 1, b.min.y as int)
    &&& attains(entries, 2, b.min.z as int)
    &&& attains(entries, 0, b.max.x as int)
    &&& attains(entries, 1, b.max.y as int)
    &&& attains(entries, 2, b.max.z as int)
}

proof fn lemma_attains_extend(entries: Seq<EntityPositionPair>, axis: int, value: int)
    requires
        entries.len() > 0,
        attains(entries.drop_last(), axis, value) || entries.last().1.coord(axis) == value,
    ensures
        attains(entries, axis, value),
{
    let front = entries.drop_last();
    if attains(front, axis, value) {
        let i = choose|i: int| 0 <= i < front.len() && #[trigger] front[i].1.coord(axis) == value;
        assert(entries[i].1.coord(axis) == value);
    } else {
        assert(entries[entries.len() - 1].1.coord(axis) == value);
    }
}

/// `bounding_box` is the exact bounding box.
pub proof fn lemma_bounding_box_exact(entries: Seq<EntityPositionPair>)
    requires
        entries.len() > 0,
    ensures
        is_bounding_box(bounding_box(entries), entries),
        bounding_box(entries).wf(),
    decreases entries.len(),
{
    let b = bounding_box(entries);
    if entries.len() == 1 {
        assert(entries[0].1.coord(0) == b.min.x);
        assert(entries[0].1.coord(1) == b.min.y);
        assert(entries[0].1.coord(2) == b.min.z);
    } else {
        let front = entries.drop_last();
        lemma_bounding_box_exact(front);
        let fb = bounding_box(front);
        assert forall|i: int| 0 <= i < entries.len() implies b.contains(
            #[trigger] entries[i].1,
        ) by {
            if i < front.len() {
                assert(fb.contains(front[i].1));
            }
        }
        lemma_attains_extend(entries, 0, b.min.x as int);
        lemma_attains_extend(entries, 1, b.min.y as int);
        lemma_attains_extend(entries, 2, b.min.z as int);
        lemma_attains_extend(entries, 0, b.max.x as int);
        lemma_attains_extend(entries, 1, b.max.y as int);
        lemma_attains_extend(entries, 2, b.max.z as int);
    }
}

/// The area of a well-formed box is not negative and fits in 67 bits.
pub proof fn lemma_surface_area_bound(b: Aabb)
    requires
        b.wf(),
    ensures
        0 <= b.surface_area() < 0x8_0000_0000_0000_0000,
{
    let ex = b.max.x - b.min.x;
    let ey = b.max.y - b.min.y;
    let ez = b.max.z - b.min.z;
    lemma_product_bound(ex, ey);
    lemma_product_bound(ex, ez);
    lemma_product_bound(ey, ez);
    assert(0 <= ex * ey && 0 <= ex * ez && 0 <= ey * ez) by (nonlinear_arith)
        requires
            0 <= ex,
            0 <= ey,
            0 <= ez,
    ;
}

/// Calculates the bounding box of a set of points.
pub fn calculate_aabb(entities: &[EntityPositionPair]) -> (aabb: Aabb)
    requires
        entities@.len() > 0,
    ensures
        aabb == bounding_box(entities@),
{
    let first = entities[0].1;
    let mut aabb = Aabb { min: first, max: first };
    let mut i: usize = 1;
    proof {
        assert(entities@.take(1).len() == 1);
    }
    while i < entities.len()
        invariant
            1 <= i <= entities@.len(),
            aabb == bounding_box(entities@.take(i as int)),
        decreases entities@.len() - i,
    {
        let p = entities[i].1;
        proof {
            assert(entities@.take(i + 1).drop_last() =~= entities@.take(i as int));
        }
        aabb = Aabb {
            min: Position {
                x: if p.x < aabb.min.x { p.x } else { aabb.min.x },
                y: if p.y < aabb.min.y { p.y } else { aabb.min.y },
                z: if p.z < aabb.min.z { p.z } else { aabb.min.z },
            },
            max: Position {
                x: if p.x > aabb.max.x { p.x } else { aabb.max.x },
                y: if p.y > aabb.max.y { p.y } else { aabb.max.y },
                z: if p.z > aabb.max.z { p.z } else { aabb.max.z },
            },
        };
        i += 1;
    }
    proof {
        assert(entities@.take(i as int) =~= entities@);
    }
    aabb
}

/// The cost of cutting `entries` in two before position `index`: each part's
/// bounding-box area times the number of its entries, added up.
pub open spec fn sah_cost(entries: Seq<EntityPositionPair>, index: int) -> int {
    bounding_box(entries.take(index)).surface_area() * index + bounding_box(
        entries.skip(index),
    ).surface_area() * (entries.len() - index)
}

/// A cost as it is stored: one too large for 128 bits counts as the largest.
pub open spec fn saturate(cost: int) -> u128 {
    if cost > u128::MAX {
        u128::MAX
    } else {
        cost as u128
    }
}

/// Multiplies an area by a count; a product too large for 128 bits is
/// `None`.
fn weighted_area(aabb: &Aabb, count: usize) -> (weighted: Option<u128>)
    requires
        aabb.wf(),
    ensures
        match weighted {
            Some(w) => w == aabb.surface_area() * count,
            None => aabb.surface_area() * count > u128::MAX,
        },
        aabb.surface_area() * count >= 0,
{
    proof {
        lemma_surface_area_bound(*aabb);
        let a = aabb.surface_area();
        assert(a * count >= 0) by (nonlinear_arith)
            requires
                0 <= a,
                0 <= count,
        ;
    }
    let area = aabb.total_surface_area() as u128;
    area.checked_mul(count as u128)
}

/// Surface area heuristic: the cost of cutting `entities` before `index`.
pub fn cost(entities: &[EntityPositionPair], index: usize) -> (c: u128)
    requires
        0 < index < entities@.len(),
    ensures
        c == saturate(sah_cost(entities@, index as int)),
{
    let left = slice_subrange(entities, 0, index);
    let right = slice_subrange(entities, index, entities.len());
    proof {
        assert(left@ =~= entities@.take(index as int));
        assert(right@ =~= entities@.skip(index as int));
        lemma_bounding_box_exact(left@);
        lemma_bounding_box_exact(right@);
    }
    let left_aabb = calculate_aabb(left);
    let right_aabb = calculate_aabb(right);
    let left_cost = weighted_area(&left_aabb, left.len());
    let right_cost = weighted_area(&right_aabb, right.len());
    match (left_cost, right_cost) {
        (Some(l), Some(r)) => l.saturating_add(r),
        _ => u128::MAX,
    }
}

/// The stride between two cut positions that are tried.
pub open spec fn split_step(len: int, max_split_samples: int) -> int {
    len / (if len < max_split_samples { len } else { max_split_samples })
}

/// `i` is one of the cut positions that are tried: they start at 1, advance
/// by `step` and leave out both ends.
pub open spec fn sampled(len: int, step: int, i: int) -> bool {
    1 <= i < len - 1 && (i - 1) % step == 0
}

proof fn lemma_sample_advances(step: int, i: int)
    requires
        step > 0,
        (i - 1) % step == 0,
    ensures
        (i + step - 1) % step == 0,
{
    vstd::arithmetic::div_mod::lemma_mod_add_multiples_vanish(i - 1, step);
    assert(step + (i - 1) == i + step - 1);
}

proof fn lemma_next_sample(step: int, i: int, j: int)
    requires
        step > 0,
        i >= 1,
        (i - 1) % step == 0,
        (j - 1) % step == 0,
        i < j,
    ensures
        j >= i + step,
{
    vstd::arithmetic::div_mod::lemma_fundamental_div_mod(i - 1, step);
    vstd::arithmetic::div_mod::lemma_fundamental_div_mod(j - 1, step);
    let qi = (i - 1) / step;
    let qj = (j - 1) / step;
    assert(qj >= qi + 1 && step * qj >= step * qi + step) by (nonlinear_arith)
        requires
            step > 0,
            i - 1 == step * qi,
            j - 1 == step * qj,
            i < j,
    ;
}

/// `best` is the best cut position of `entries` and its cost: the first of
/// the tried positions whose cost is the least, or position 1 with the
/// largest cost where no tried position costs less than that.
pub open spec fn is_best_split(
    entries: Seq<EntityPositionPair>,
    max_split_samples: usize,
    best: (usize, u128),
) -> bool {
    let len = entries.len() as int;
    let step = split_step(len, max_split_samples as int);
    &&& 1 <= best.0 < len
    &&& forall|i: int|
        sampled(len, step, i) ==> best.1 <= saturate(#[trigger] sah_cost(entries, i))
    &&& best.1 == u128::MAX ==> best.0 == 1
    &&& best.1 < u128::MAX ==> {
        &&& sampled(len, step, best.0 as int)
        &&& best.1 == saturate(sah_cost(entries, best.0 as int))
        &&& forall|j: int|
            sampled(len, step, j) && j < best.0 ==> best.1 < saturate(
                #[trigger] sah_cost(entries, j),
            )
    }
}

/// Finds the best cut position of the sorted `entities` and its cost: the
/// first of the tried positions whose cost is the least. Where none is tried,
/// or none costs less than the largest cost, the position is 1.
pub fn find_split_index_and_cost(
    entities: &[EntityPositionPair],
    max_split_samples_per_axis: usize,
) -> (best: (usize, u128))
    requires
        entities@.len() > 1,
        max_split_samples_per_axis >= 1,
    ensures
        is_best_split(entities@, max_split_samples_per_axis, best),
{
    let len = entities.len();
    let samples = if len < max_split_samples_per_axis {
        len
    } else {
        max_split_samples_per_axis
    };
    let step = len / samples;
    assert(step >= 1) by {
        let l = len as int;
        let m = samples as int;
        vstd::arithmetic::div_mod::lemma_fundamental_div_mod(l, m);
        let q = l / m;
        let r = l % m;
        assert(q >= 1) by (nonlinear_arith)
            requires
                l == m * q + r,
                0 <= r < m,
                1 <= m <= l,
        ;
    }
    let mut min: (usize, u128) = (1, u128::MAX);
    let mut i: usize = 1;
    proof {
        assert((0int % (step as int)) == 0) by {
            vstd::arithmetic::div_mod::lemma_small_mod(0, step as nat);
        }
    }
    while i < len - 1
        invariant
            len == entities@.len(),
            len > 1,
            step >= 1,
            step == split_step(len as int, max_split_samples_per_axis as int),
            1 <= i,
            i >= len - 1 || (i - 1) % (step as int) == 0,
            1 <= min.0 < len,
            forall|j: int|
                sampled(len as int, step as int, j) && j < i ==> min.1 <= saturate(
                    #[trigger] sah_cost(entities@, j),
                ),
            min.1 == u128::MAX ==> min.0 == 1,
            min.1 < u128::MAX ==> {
                &&& sampled(len as int, step as int, min.0 as int)
                &&& min.0 < i
                &&& min.1 == saturate(sah_cost(entities@, min.0 as int))
                &&& forall|j: int|
                    sampled(len as int, step as int, j) && j < min.0 ==> min.1 < saturate(
                        #[trigger] sah_cost(entities@, j),
                    )
            },
        decreases len - i,
    {
        let current_cost = cost(entities, i);
        if current_cost < min.1 {
            min = (i, current_cost);
        }
        proof {
            assert forall|j: int| sampled(len as int, step as int, j) && i < j implies j >= i
                + step by {
                lemma_next_sample(step as int, i as int, j);
            }
            lemma_sample_advances(step as int, i as int);
        }
        if step >= len - 1 - i {
            i = len - 1;
        } else {
            i = i + step;
        }
    }
    min
}

/// Some plane across an axis has `a` on its lower side and `b` on its upper
/// side.
pub open spec fn separated(a: Aabb, b: Aabb) -> bool {
    a.max.x <= b.min.x || a.max.y <= b.min.y || a.max.z <= b.min.z
}

/// The positions of `entries` do not decrease along `axis`.
pub open spec fn sorted_along(entries: Seq<EntityPositionPair>, axis: int) -> bool {
    forall|i: int, j: int|
        0 <= i <= j < entries.len() ==> entries[i].1.coord(axis) <= entries[j].1.coord(axis)
}

/// Sorts `entities` by their coordinate along `axis`.
///
/// Trusted: this hands the vector to `slice::sort_unstable_by_key` of the
/// standard library, with the coordinate along `axis` as the key. What is
/// claimed of it is what its documentation says: afterwards the vector holds
/// the same elements, ordered by key. The order of elements with equal keys
/// is left open.
#[verifier::external_body]
fn sort_by_axis(entities: &mut Vec<EntityPositionPair>, axis: usize)
    ensures
        final(entities)@.to_multiset() == old(entities)@.to_multiset(),
        sorted_along(final(entities)@, axis as int),
{
    entities.sort_unstable_by_key(|pair| pair.1.axis(axis));
}

/// Picks the axis whose best cut is cheapest; of equally cheap ones the
/// first.
pub fn cheapest_axis(costs: &[u128; 3]) -> (axis: usize)
    ensures
        axis < 3,
        forall|a: int| 0 <= a < 3 ==> costs[axis as int] <= costs[a],
        forall|a: int| 0 <= a < axis ==> costs[axis as int] < costs[a],
{
    let mut axis: usize = 0;
    if costs[1] < costs[axis] {
        axis = 1;
    }
    if costs[2] < costs[axis] {
        axis = 2;
    }
    axis
}

/// `choice` is what trying the three axes gives: `tried` holds, for each
/// axis, an arrangement of `entities` sorted along it, `bests` the best cut
/// of each arrangement; the axis chosen is the first whose best cut is
/// cheapest, and the cut position is that of its best cut.
pub open spec fn is_choice(
    entities: Seq<EntityPositionPair>,
    max_split_samples: usize,
    choice: (usize, usize),
    tried: Seq<Seq<EntityPositionPair>>,
    bests: Seq<(usize, u128)>,
) -> bool {
    &&& tried.len() == 3
    &&& bests.len() == 3
    &&& choice.0 < 3
    &&& forall|a: int|
        0 <= a < 3 ==> {
            &&& (#[trigger] tried[a]).to_multiset() == entities.to_multiset()
            &&& sorted_along(tried[a], a)
            &&& is_best_split(tried[a], max_split_samples, bests[a])
        }
    &&& forall|a: int| 0 <= a < 3 ==> bests[choice.0 as int].1 <= (#[trigger] bests[a]).1
    &&& forall|a: int| 0 <= a < choice.0 ==> bests[choice.0 as int].1 < (#[trigger] bests[a]).1
    &&& choice.1 == bests[choice.0 as int].0
}

/// No two entries share a coordinate along any axis.
pub open spec fn no_ties(entries: Seq<EntityPositionPair>) -> bool {
    forall|axis: int, i: int, j: int|
        #![trigger entries[i].1.coord(axis), entries[j].1.coord(axis)]
        0 <= axis < 3 && 0 <= i < j < entries.len() ==> entries[i].1.coord(axis)
            != entries[j].1.coord(axis)
}

/// A rearrangement of entries without ties has no ties.
pub proof fn lemma_no_ties_permutation(a: Seq<EntityPositionPair>, b: Seq<EntityPositionPair>)
    requires
        no_ties(a),
        a.to_multiset() == b.to_multiset(),
    ensures
        no_ties(b),
{
    a.to_multiset_ensures();
    b.to_multiset_ensures();
    assert(a.no_duplicates()) by {
        assert forall|i: int, j: int| 0 <= i < a.len() && 0 <= j < a.len() && i != j implies a[i]
            != a[j] by {
            if i < j {
                assert(a[i].1.coord(0) != a[j].1.coord(0));
            } else {
                assert(a[j].1.coord(0) != a[i].1.coord(0));
            }
        }
    }
    a.lemma_multiset_has_no_duplicates();
    b.lemma_multiset_has_no_duplicates_conv();
    assert forall|axis: int, i: int, j: int|
        #![trigger b[i].1.coord(axis), b[j].1.coord(axis)]
        0 <= axis < 3 && 0 <= i < j < b.len() implies b[i].1.coord(axis) != b[j].1.coord(
        axis,
    ) by {
        assert(b[i] != b[j]);
        assert(b.contains(b[i]));
        assert(b.contains(b[j]));
        lemma_permutation_contains(a, b, b[i]);
        lemma_permutation_contains(a, b, b[j]);
        let k = choose|k: int| 0 <= k < a.len() && a[k] == b[i];
        let l = choose|l: int| 0 <= l < a.len() && a[l] == b[j];
        if k < l {
            assert(a[k].1.coord(axis) != a[l].1.coord(axis));
        } else {
            assert(a[l].1.coord(axis) != a[k].1.coord(axis));
        }
    }
}

/// Entries without ties can be sorted along an axis in one way only.
pub proof fn lemma_sorted_unique(
    a: Seq<EntityPositionPair>,
    b: Seq<EntityPositionPair>,
    axis: int,
)
    requires
        0 <= axis < 3,
        no_ties(a),
        a.to_multiset() == b.to_multiset(),
        sorted_along(a, axis),
        sorted_along(b, axis),
    ensures
        a == b,
    decreases a.len(),
{
    a.to_multiset_ensures();
    b.to_multiset_ensures();
    if a.len() == 0 {
        assert(a =~= b);
    } else {
        let last = a.len() - 1;
        let la = a[last];
        let lb = b[last];
        assert(a.contains(la));
        assert(b.contains(lb));
        lemma_permutation_contains(b, a, la);
        lemma_permutation_contains(a, b, lb);
        let j = choose|j: int| 0 <= j < b.len() && b[j] == la;
        let i = choose|i: int| 0 <= i < a.len() && a[i] == lb;
        assert(b[j].1.coord(axis) <= b[last].1.coord(axis));
        assert(a[i].1.coord(axis) <= a[last].1.coord(axis));
        if i < last {
            assert(a[i].1.coord(axis) != a[last].1.coord(axis));
        }
        assert(la == lb);
        let fa = a.drop_last();
        let fb = b.drop_last();
        assert(a.remove(last) =~= fa);
        assert(b.remove(last) =~= fb);
        assert(fa.to_multiset() == fb.to_multiset());
        assert(no_ties(fa)) by {
            assert forall|x: int, p: int, q: int|
                #![trigger fa[p].1.coord(x), fa[q].1.coord(x)]
                0 <= x < 3 && 0 <= p < q < fa.len() implies fa[p].1.coord(x) != fa[q].1.coord(
                x,
            ) by {
                assert(a[p].1.coord(x) != a[q].1.coord(x));
            }
        }
        assert(sorted_along(fa, axis)) by {
            assert forall|p: int, q: int| 0 <= p <= q < fa.len() implies fa[p].1.coord(axis)
                <= fa[q].1.coord(axis) by {
                assert(a[p].1.coord(axis) <= a[q].1.coord(axis));
            }
        }
        assert(sorted_along(fb, axis)) by {
            assert forall|p: int, q: int| 0 <= p <= q < fb.len() implies fb[p].1.coord(axis)
                <= fb[q].1.coord(axis) by {
                assert(b[p].1.coord(axis) <= b[q].1.coord(axis));
            }
        }
        lemma_sorted_unique(fa, fb, axis);
        assert(a =~= fa.push(la));
        assert(b =~= fb.push(lb));
    }
}

/// Entries have one best cut only.
pub proof fn lemma_best_split_unique(
    entries: Seq<EntityPositionPair>,
    max_split_samples: usize,
    x: (usize, u128),
    y: (usize, u128),
)
    requires
        is_best_split(entries, max_split_samples, x),
        is_best_split(entries, max_split_samples, y),
    ensures
        x == y,
{
    let len = entries.len() as int;
    let step = split_step(len, max_split_samples as int);
    if x.1 < u128::MAX {
        assert(y.1 <= saturate(sah_cost(entries, x.0 as int)));
    }
    if y.1 < u128::MAX {
        assert(x.1 <= saturate(sah_cost(entries, y.0 as int)));
    }
    assert(x.1 == y.1);
    if x.1 < u128::MAX {
        if x.0 < y.0 {
            assert(y.1 < saturate(sah_cost(entries, x.0 as int)));
        }
        if y.0 < x.0 {
            assert(x.1 < saturate(sah_cost(entries, y.0 as int)));
        }
    }
}

/// Entries without ties are cut in one way only.
pub proof fn lemma_cut_unique(
    entities: Seq<EntityPositionPair>,
    max_split_samples: usize,
    choice_a: (usize, usize),
    tried_a: Seq<Seq<EntityPositionPair>>,
    bests_a: Seq<(usize, u128)>,
    arranged_a: Seq<EntityPositionPair>,
    choice_b: (usize, usize),
    tried_b: Seq<Seq<EntityPositionPair>>,
    bests_b: Seq<(usize, u128)>,
    arranged_b: Seq<EntityPositionPair>,
)
    requires
        no_ties(entities),
        is_cut(entities, max_split_samples, choice_a, tried_a, bests_a, arranged_a),
        is_cut(entities, max_split_samples, choice_b, tried_b, bests_b, arranged_b),
    ensures
        choice_a == choice_b,
        arranged_a == arranged_b,
        no_ties(arranged_a),
        0 < choice_a.1 < arranged_a.len(),
{
    let chosen = tried_a[choice_a.0 as int];
    chosen.to_multiset_ensures();
    entities.to_multiset_ensures();
    assert(chosen.to_multiset() == entities.to_multiset());
    assert(is_best_split(chosen, max_split_samples, bests_a[choice_a.0 as int]));
    assert forall|x: int| 0 <= x < 3 implies #[trigger] bests_a[x] == bests_b[x] by {
        assert(tried_a[x].to_multiset() == entities.to_multiset());
        assert(tried_b[x].to_multiset() == entities.to_multiset());
        lemma_no_ties_permutation(entities, tried_a[x]);
        lemma_sorted_unique(tried_a[x], tried_b[x], x);
        lemma_best_split_unique(tried_a[x], max_split_samples, bests_a[x], bests_b[x]);
    }
    let xa = choice_a.0 as int;
    let xb = choice_b.0 as int;
    if xa < xb {
        assert(bests_b[xb].1 < bests_b[xa].1);
        assert(bests_a[xa].1 <= bests_a[xb].1);
    }
    if xb < xa {
        assert(bests_a[xa].1 < bests_a[xb].1);
        assert(bests_b[xb].1 <= bests_b[xa].1);
    }
    assert(xa == xb);
    lemma_no_ties_permutation(entities, arranged_a);
    lemma_sorted_unique(arranged_a, arranged_b, xa);
}

/// `arranged` is `entities` as they are cut: sorted along the axis that
/// trying the three axes chose, to be cut before the position chosen.
pub open spec fn is_cut(
    entities: Seq<EntityPositionPair>,
    max_split_samples: usize,
    choice: (usize, usize),
    tried: Seq<Seq<EntityPositionPair>>,
    bests: Seq<(usize, u128)>,
    arranged: Seq<EntityPositionPair>,
) -> bool {
    &&& is_choice(entities, max_split_samples, choice, tried, bests)
    &&& arranged.to_multiset() == entities.to_multiset()
    &&& arranged.len() == entities.len()
    &&& sorted_along(arranged, choice.0 as int)
}

/// Sorts `entities` along the axis whose best cut is cheapest and returns
/// that axis and the cut position. Each axis is tried in turn: the entities
/// are sorted along it and the best of the sampled cut positions is found.
/// Which arrangement a sort leaves where coordinates are equal is open, so
/// the trials are stated to exist, not named.
pub fn choose_split(
    entities: &mut Vec<EntityPositionPair>,
    max_split_samples_per_axis: usize,
) -> (choice: (usize, usize))
    requires
        old(entities)@.len() > 1,
        max_split_samples_per_axis >= 1,
    ensures
        final(entities)@.to_multiset() == old(entities)@.to_multiset(),
        final(entities)@.len() == old(entities)@.len(),
        choice.0 < 3,
        sorted_along(final(entities)@, choice.0 as int),
        1 <= choice.1 < final(entities)@.len(),
        exists|tried: Seq<Seq<EntityPositionPair>>, bests: Seq<(usize, u128)>|
            #[trigger] is_choice(
                old(entities)@,
                max_split_samples_per_axis,
                choice,
                tried,
                bests,
            ),
{
    proof {
        old(entities)@.to_multiset_ensures();
    }
    let mut splits: [usize; 3] = [1, 1, 1];
    let mut costs: [u128; 3] = [u128::MAX, u128::MAX, u128::MAX];
    let ghost mut tried: Seq<Seq<EntityPositionPair>> = Seq::empty();
    let ghost mut bests: Seq<(usize, u128)> = Seq::empty();
    let mut axis: usize = 0;
    while axis < 3
        invariant
            axis <= 3,
            entities@.to_multiset() == old(entities)@.to_multiset(),
            entities@.len() == old(entities)@.len(),
            entities@.len() > 1,
            max_split_samples_per_axis >= 1,
            forall|a: int| 0 <= a < 3 ==> 1 <= #[trigger] splits[a] < entities@.len(),
            tried.len() == axis,
            bests.len() == axis,
            forall|a: int|
                0 <= a < axis ==> {
                    &&& (#[trigger] tried[a]).to_multiset() == old(entities)@.to_multiset()
                    &&& sorted_along(tried[a], a)
                    &&& is_best_split(tried[a], max_split_samples_per_axis, bests[a])
                    &&& splits[a] == bests[a].0
                    &&& costs[a] == bests[a].1
                },
        decreases 3 - axis,
    {
        let ghost before = entities@;
        sort_by_axis(entities, axis);
        proof {
            before.to_multiset_ensures();
            entities@.to_multiset_ensures();
        }
        let (split_at, split_cost) = find_split_index_and_cost(
            entities.as_slice(),
            max_split_samples_per_axis,
        );
        splits[axis] = split_at;
        costs[axis] = split_cost;
        proof {
            tried = tried.push(entities@);
            bests = bests.push((split_at, split_cost));
        }
        axis += 1;
    }
    let best = cheapest_axis(&costs);
    let ghost before = entities@;
    sort_by_axis(entities, best);
    proof {
        before.to_multiset_ensures();
        entities@.to_multiset_ensures();
        assert forall|a: int| 0 <= a < 3 implies costs[a] == (#[trigger] bests[a]).1 && splits[a]
            == bests[a].0 by {
            assert(tried[a].to_multiset() == old(entities)@.to_multiset());
        }
        assert(is_choice(
            old(entities)@,
            max_split_samples_per_axis,
            (best, splits[best as int]),
            tried,
            bests,
        ));
    }
    (best, splits[best])
}

/// What a node holds: a bucket of entities, or two child nodes.
#[derive(Debug)]
pub enum BvhNodeKind {
    Leaf(Vec<EntityPositionPair>),
    Branch(Box<BvhNode>, Box<BvhNode>),
}

/// Node of the tree: a bounding box, and either entities or two children.
#[derive(Debug)]
pub struct BvhNode {
    aabb: Aabb,
    kind: BvhNodeKind,
}

/// No entry of `entries` passes the radius test.
pub proof fn lemma_ids_within_none(
    entries: Seq<EntityPositionPair>,
    centre: Position,
    radius: u64,
)
    requires
        forall|i: int|
            0 <= i < entries.len() ==> !within_radius(
                #[trigger] entries[i].1,
                centre,
                radius,
            ),
    ensures
        ids_within(entries, centre, radius) == Seq::<u64>::empty(),
    decreases entries.len(),
{
    if entries.len() > 0 {
        let front = entries.drop_last();
        assert forall|i: int| 0 <= i < front.len() implies !within_radius(
            #[trigger] front[i].1,
            centre,
            radius,
        ) by {
            assert(front[i] == entries[i]);
        }
        lemma_ids_within_none(front, centre, radius);
        assert(!within_radius(entries[entries.len() - 1].1, centre, radius));
    }
}

/// A rearrangement has the same bounding box.
pub proof fn lemma_bounding_box_permutation(
    b: Aabb,
    a: Seq<EntityPositionPair>,
    c: Seq<EntityPositionPair>,
)
    requires
        is_bounding_box(b, a),
        a.to_multiset() == c.to_multiset(),
    ensures
        is_bounding_box(b, c),
{
    assert forall|i: int| 0 <= i < c.len() implies b.contains(#[trigger] c[i].1) by {
        assert(c.contains(c[i]));
        lemma_permutation_contains(a, c, c[i]);
        let k = choose|k: int| 0 <= k < a.len() && a[k] == c[i];
        assert(b.contains(a[k].1));
    }
    lemma_attains_permutation(a, c, 0, b.min.x as int);
    lemma_attains_permutation(a, c, 1, b.min.y as int);
    lemma_attains_permutation(a, c, 2, b.min.z as int);
    lemma_attains_permutation(a, c, 0, b.max.x as int);
    lemma_attains_permutation(a, c, 1, b.max.y as int);
    lemma_attains_permutation(a, c, 2, b.max.z as int);
}

proof fn lemma_attains_permutation(
    a: Seq<EntityPositionPair>,
    c: Seq<EntityPositionPair>,
    axis: int,
    value: int,
)
    requires
        attains(a, axis, value),
        a.to_multiset() == c.to_multiset(),
    ensures
        attains(c, axis, value),
{
    let i = choose|i: int| 0 <= i < a.len() && #[trigger] a[i].1.coord(axis) == value;
    assert(a.contains(a[i]));
    lemma_permutation_contains(c, a, a[i]);
    let k = choose|k: int| 0 <= k < c.len() && c[k] == a[i];
    assert(c[k].1.coord(axis) == value);
}

impl BvhNode {
    /// The entities below this node, left to right.
    pub closed spec fn entries(&self) -> Seq<EntityPositionPair>
        decreases self,
    {
        match &self.kind {
            BvhNodeKind::Leaf(bucket) => bucket@,
            BvhNodeKind::Branch(left, right) => left.entries() + right.entries(),
        }
    }

    /// The number of nodes on the longest way down, this one included.
    pub closed spec fn depth(&self) -> nat
        decreases self,
    {
        match &self.kind {
            BvhNodeKind::Leaf(_) => 1,
            BvhNodeKind::Branch(left, right) => {
                let l = left.depth();
                let r = right.depth();
                1 + if l > r { l } else { r }
            },
        }
    }

    /// This node's box.
    pub closed spec fn bounds(&self) -> Aabb {
        self.aabb
    }

    /// This node holds entities itself.
    pub closed spec fn is_leaf(&self) -> bool {
        self.kind is Leaf
    }

    /// Every node's box is the exact bounding box of the entities below it,
    /// no leaf is empty, and the two children of every branch lie on the two
    /// sides of a plane across one axis.
    pub closed spec fn wf(&self) -> bool
        decreases self,
    {
        &&& is_bounding_box(self.aabb, self.entries())
        &&& match &self.kind {
            BvhNodeKind::Leaf(bucket) => bucket@.len() > 0,
            BvhNodeKind::Branch(left, right) => left.wf() && right.wf() && separated(
                left.aabb,
                right.aabb,
            ),
        }
    }

    /// The tree is built from `entities` as building prescribes: entities
    /// that fit into a leaf are a leaf, in their given order; more of them
    /// are a branch, cut where trying the three axes says, with the part
    /// before the cut built on the left and the rest on the right.
    pub closed spec fn built_by(
        &self,
        entities: Seq<EntityPositionPair>,
        capacity: usize,
        max_split_samples: usize,
    ) -> bool
        decreases self,
    {
        match &self.kind {
            BvhNodeKind::Leaf(bucket) => entities.len() <= capacity && bucket@ == entities,
            BvhNodeKind::Branch(left, right) => {
                &&& entities.len() > capacity
                &&& exists|
                    choice: (usize, usize),
                    tried: Seq<Seq<EntityPositionPair>>,
                    bests: Seq<(usize, u128)>,
                    arranged: Seq<EntityPositionPair>,
                |
                    {
                        &&& #[trigger] is_cut(
                            entities,
                            max_split_samples,
                            choice,
                            tried,
                            bests,
                            arranged,
                        )
                        &&& left.built_by(
                            arranged.take(choice.1 as int),
                            capacity,
                            max_split_samples,
                        )
                        &&& right.built_by(
                            arranged.skip(choice.1 as int),
                            capacity,
                            max_split_samples,
                        )
                    }
            },
        }
    }

    /// Building is repeatable: two trees built from the same entities, none
    /// of which share a coordinate along any axis, hold the entities in the
    /// same order and are equally deep.
    pub proof fn lemma_built_once(
        &self,
        other: &BvhNode,
        entities: Seq<EntityPositionPair>,
        capacity: usize,
        max_split_samples: usize,
    )
        requires
            no_ties(entities),
            self.built_by(entities, capacity, max_split_samples),
            other.built_by(entities, capacity, max_split_samples),
        ensures
            self.entries() == other.entries(),
            self.depth() == other.depth(),
            self.leaf_boxes(0).len() == other.leaf_boxes(0).len(),
        decreases self,
    {
        match (&self.kind, &other.kind) {
            (BvhNodeKind::Branch(left, right), BvhNodeKind::Branch(other_left, other_right)) => {
                let (choice_a, tried_a, bests_a, arranged_a) = choose|
                    choice: (usize, usize),
                    tried: Seq<Seq<EntityPositionPair>>,
                    bests: Seq<(usize, u128)>,
                    arranged: Seq<EntityPositionPair>,
                |
                    {
                        &&& #[trigger] is_cut(
                            entities,
                            max_split_samples,
                            choice,
                            tried,
                            bests,
                            arranged,
                        )
                        &&& left.built_by(
                            arranged.take(choice.1 as int),
                            capacity,
                            max_split_samples,
                        )
                        &&& right.built_by(
                            arranged.skip(choice.1 as int),
                            capacity,
                            max_split_samples,
                        )
                    };
                let (choice_b, tried_b, bests_b, arranged_b) = choose|
                    choice: (usize, usize),
                    tried: Seq<Seq<EntityPositionPair>>,
                    bests: Seq<(usize, u128)>,
                    arranged: Seq<EntityPositionPair>,
                |
                    {
                        &&& #[trigger] is_cut(
                            entities,
                            max_split_samples,
                            choice,
                            tried,
                            bests,
                            arranged,
                        )
                        &&& other_left.built_by(
                            arranged.take(choice.1 as int),
                            capacity,
                            max_split_samples,
                        )
                        &&& other_right.built_by(
                            arranged.skip(choice.1 as int),
                            capacity,
                            max_split_samples,
                        )
                    };
                lemma_cut_unique(
                    entities,
                    max_split_samples,
                    choice_a,
                    tried_a,
                    bests_a,
                    arranged_a,
                    choice_b,
                    tried_b,
                    bests_b,
                    arranged_b,
                );
                let first = arranged_a.take(choice_a.1 as int);
                let second = arranged_a.skip(choice_a.1 as int);
                assert(no_ties(first)) by {
                    assert forall|x: int, p: int, q: int|
                        #![trigger first[p].1.coord(x), first[q].1.coord(x)]
                        0 <= x < 3 && 0 <= p < q < first.len() implies first[p].1.coord(x)
                            != first[q].1.coord(x) by {
                        assert(arranged_a[p].1.coord(x) != arranged_a[q].1.coord(x));
                    }
                }
                assert(no_ties(second)) by {
                    let k = choice_a.1 as int;
                    assert forall|x: int, p: int, q: int|
                        #![trigger second[p].1.coord(x), second[q].1.coord(x)]
                        0 <= x < 3 && 0 <= p < q < second.len() implies second[p].1.coord(x)
                            != second[q].1.coord(x) by {
                        assert(arranged_a[k + p].1.coord(x) != arranged_a[k + q].1.coord(x));
                    }
                }
                left.lemma_built_once(other_left, first, capacity, max_split_samples);
                right.lemma_built_once(other_right, second, capacity, max_split_samples);
                left.lemma_leaf_boxes_shift(other_left, 0, 1);
                right.lemma_leaf_boxes_shift(other_right, 0, 1);
            },
            _ => {},
        }
    }

    /// Trees with equally many leaves seen from one level have equally many
    /// seen from any level.
    proof fn lemma_leaf_boxes_shift(&self, other: &BvhNode, from: nat, to: nat)
        requires
            self.leaf_boxes(from).len() == other.leaf_boxes(from).len(),
        ensures
            self.leaf_boxes(to).len() == other.leaf_boxes(to).len(),
    {
        self.lemma_leaf_count(from, to);
        other.lemma_leaf_count(from, to);
    }

    /// The number of leaves does not depend on the level they are seen from.
    proof fn lemma_leaf_count(&self, from: nat, to: nat)
        ensures
            self.leaf_boxes(from).len() == self.leaf_boxes(to).len(),
        decreases self,
    {
        match &self.kind {
            BvhNodeKind::Leaf(_) => {},
            BvhNodeKind::Branch(left, right) => {
                left.lemma_leaf_count(from + 1, to + 1);
                right.lemma_leaf_count(from + 1, to + 1);
            },
        }
    }

    /// No leaf holds more than `capacity` entities.
    pub closed spec fn leaves_within(&self, capacity: usize) -> bool
        decreases self,
    {
        match &self.kind {
            BvhNodeKind::Leaf(bucket) => bucket@.len() <= capacity,
            BvhNodeKind::Branch(left, right) => left.leaves_within(capacity)
                && right.leaves_within(capacity),
        }
    }

    /// A well-formed node's box is the exact bounding box of its entities.
    pub proof fn lemma_bounds_exact(&self)
        requires
            self.wf(),
        ensures
            is_bounding_box(self.bounds(), self.entries()),
            self.entries().len() > 0,
            self.depth() <= self.entries().len(),
        decreases self,
    {
        match &self.kind {
            BvhNodeKind::Leaf(_) => {},
            BvhNodeKind::Branch(left, right) => {
                left.lemma_bounds_exact();
                right.lemma_bounds_exact();
            },
        }
    }

    /// Returns true if this node's box intersects the given sphere.
    fn intersects_sphere(&self, sample_point: &Position, radius: u64) -> (hit: bool)
        ensures
            hit == self.aabb.meets_sphere(*sample_point, radius),
    {
        self.aabb.intersects_sphere(sample_point, radius)
    }

    /// Returns the entities below this node that are in radius of the given
    /// sample point, left to right. A subtree whose box the sphere does not
    /// reach is not entered.
    pub fn entities_in_radius(&self, sample_point: &Position, radius: u64) -> (found: Vec<u64>)
        requires
            self.wf(),
        ensures
            found@ == ids_within(self.entries(), *sample_point, radius),
        decreases self,
    {
        if !self.intersects_sphere(sample_point, radius) {
            proof {
                let entries = self.entries();
                assert forall|i: int| 0 <= i < entries.len() implies !within_radius(
                    #[trigger] entries[i].1,
                    *sample_point,
                    radius,
                ) by {
                    if within_radius(entries[i].1, *sample_point, radius) {
                        lemma_sphere_reaches_box(self.aabb, entries[i].1, *sample_point, radius);
                    }
                }
                lemma_ids_within_none(entries, *sample_point, radius);
            }
            return Vec::new();
        }
        match &self.kind {
            BvhNodeKind::Leaf(entity_position_pairs) => collect_ids_within(
                entity_position_pairs.as_slice(),
                sample_point,
                radius,
            ),
            BvhNodeKind::Branch(left, right) => {
                let mut total = left.entities_in_radius(sample_point, radius);
                let mut rest = right.entities_in_radius(sample_point, radius);
                total.append(&mut rest);
                proof {
                    lemma_ids_within_concat(
                        left.entries(),
                        right.entries(),
                        *sample_point,
                        radius,
                    );
                }
                total
            },
        }
    }

    /// The boxes of the leaves below this node, left to right, each with the
    /// level of its leaf, where this node has the level `level`.
    pub closed spec fn leaf_boxes(&self, level: nat) -> Seq<(Aabb, nat)>
        decreases self,
    {
        match &self.kind {
            BvhNodeKind::Leaf(_) => seq![(self.aabb, level)],
            BvhNodeKind::Branch(left, right) => left.leaf_boxes(level + 1) + right.leaf_boxes(
                level + 1,
            ),
        }
    }

    /// Appends the boxes of the leaves below this node to `boxes`, each with
    /// the level of its leaf.
    pub fn collect_leaf_boxes(&self, level: usize, boxes: &mut Vec<(Aabb, usize)>)
        requires
            level + self.depth() <= usize::MAX,
        ensures
            final(boxes)@.len() == old(boxes)@.len() + self.leaf_boxes(level as nat).len(),
            forall|i: int|
                0 <= i < old(boxes)@.len() ==> final(boxes)@[i] == old(boxes)@[i],
            forall|i: int|
                0 <= i < self.leaf_boxes(level as nat).len() ==> {
                    &&& (#[trigger] final(boxes)@[old(boxes)@.len() + i]).0 == self.leaf_boxes(
                        level as nat,
                    )[i].0
                    &&& final(boxes)@[old(boxes)@.len() + i].1 == self.leaf_boxes(level as nat)[i].1
                },
        decreases self,
    {
        match &self.kind {
            BvhNodeKind::Leaf(_) => {
                boxes.push((self.aabb, level));
            },
            BvhNodeKind::Branch(left, right) => {
                let ghost start = boxes@.len();
                left.collect_leaf_boxes(level + 1, boxes);
                let ghost middle = boxes@.len();
                right.collect_leaf_boxes(level + 1, boxes);
                proof {
                    let l = left.leaf_boxes((level + 1) as nat);
                    let r = right.leaf_boxes((level + 1) as nat);
                    assert forall|i: int| 0 <= i < (l + r).len() implies {
                        &&& (#[trigger] boxes@[start + i]).0 == (l + r)[i].0
                        &&& boxes@[start + i].1 == (l + r)[i].1
                    } by {
                        if i < l.len() {
                            assert(boxes@[start + i].0 == l[i].0);
                        } else {
                            assert(boxes@[middle + (i - l.len())].0 == r[i - l.len()].0);
                        }
                    }
                }
            },
        }
    }

    /// Counts the nodes on the longest way down.
    pub fn count_depth(&self) -> (depth: usize)
        requires
            self.wf(),
            self.entries().len() <= usize::MAX,
        ensures
            depth == self.depth(),
        decreases self,
    {
        match &self.kind {
            BvhNodeKind::Leaf(_) => 1,
            BvhNodeKind::Branch(left, right) => {
                proof {
                    left.lemma_bounds_exact();
                    right.lemma_bounds_exact();
                }
                let l = left.count_depth();
                let r = right.count_depth();
                1 + if l > r { l } else { r }
            },
        }
    }
}

/// `node` is the tree for `entities`: it is built from them as building
/// prescribes, it is well-formed, holds the entities of `entities` and no
/// others, and keeps its leaves within `capacity`.
pub open spec fn is_tree_of(
    node: BvhNode,
    entities: Seq<EntityPositionPair>,
    capacity: usize,
    max_split_samples: usize,
) -> bool {
    &&& node.built_by(entities, capacity, max_split_samples)
    &&& node.wf()
    &&& node.entries().to_multiset() == entities.to_multiset()
    &&& node.entries().len() == entities.len()
    &&& node.leaves_within(capacity)
    &&& node.bounds() == bounding_box(entities)
    &&& node.is_leaf() == (entities.len() <= capacity)
    &&& (node.is_leaf() ==> node.entries() == entities)
}

/// A branch over trees for the two parts of an arrangement of `entities` is
/// a tree for `entities`.
proof fn lemma_branch_is_tree(
    node: BvhNode,
    entities: Seq<EntityPositionPair>,
    arranged: Seq<EntityPositionPair>,
    choice: (usize, usize),
    capacity: usize,
    max_split_samples: usize,
)
    requires
        entities.len() > capacity,
        arranged.to_multiset() == entities.to_multiset(),
        arranged.len() == entities.len(),
        0 <= choice.0 < 3,
        sorted_along(arranged, choice.0 as int),
        0 < choice.1 < arranged.len(),
        exists|tried: Seq<Seq<EntityPositionPair>>, bests: Seq<(usize, u128)>|
            #[trigger] is_choice(entities, max_split_samples, choice, tried, bests),
        node.aabb == bounding_box(entities),
        match node.kind {
            BvhNodeKind::Leaf(_) => false,
            BvhNodeKind::Branch(left, right) => is_tree_of(
                *left,
                arranged.subrange(0, choice.1 as int),
                capacity,
                max_split_samples,
            ) && is_tree_of(
                *right,
                arranged.subrange(choice.1 as int, arranged.len() as int),
                capacity,
                max_split_samples,
            ),
        },
    ensures
        is_tree_of(node, entities, capacity, max_split_samples),
{
    let axis = choice.0 as int;
    let split_at = choice.1 as int;
    let left = node.kind->Branch_0;
    let right = node.kind->Branch_1;
    let first = arranged.subrange(0, split_at);
    let second = arranged.subrange(split_at, arranged.len() as int);
    let joined = left.entries() + right.entries();
    assert(first + second =~= arranged);
    lemma_multiset_commutative(first, second);
    lemma_multiset_commutative(left.entries(), right.entries());
    assert(joined.to_multiset() == entities.to_multiset());
    lemma_bounding_box_exact(entities);
    lemma_bounding_box_permutation(node.aabb, entities, joined);
    // the last of the first part is not beyond the first of the second part
    lemma_bounding_box_exact(first);
    lemma_bounding_box_exact(second);
    let top = left.aabb.max.coord(axis);
    let bottom = right.aabb.min.coord(axis);
    assert(attains(first, axis, top));
    assert(attains(second, axis, bottom));
    let i = choose|i: int| 0 <= i < first.len() && #[trigger] first[i].1.coord(axis) == top;
    let j = choose|j: int| 0 <= j < second.len() && #[trigger] second[j].1.coord(axis) == bottom;
    assert(first[i] == arranged[i]);
    assert(second[j] == arranged[split_at + j]);
    assert(arranged[i].1.coord(axis) <= arranged[split_at + j].1.coord(axis));
    // the cut is the one that was chosen
    let (tried, bests) = choose|tried: Seq<Seq<EntityPositionPair>>, bests: Seq<(usize, u128)>|
        #[trigger] is_choice(entities, max_split_samples, choice, tried, bests);
    assert(is_cut(entities, max_split_samples, choice, tried, bests, arranged));
    assert(arranged.take(split_at) =~= first);
    assert(arranged.skip(split_at) =~= second);
    assert(left.built_by(arranged.take(choice.1 as int), capacity, max_split_samples));
    assert(right.built_by(arranged.skip(choice.1 as int), capacity, max_split_samples));
    assert(node.built_by(entities, capacity, max_split_samples));
}

/// Builds the tree for a slice of entities on the calling thread.
///
/// A slice that fits into one leaf becomes a leaf. A longer one is sorted
/// along the axis of the cheapest cut, cut there, and both parts are built
/// in turn.
pub fn build_subtree(
    entities: &[EntityPositionPair],
    entities_per_leaf: usize,
    max_split_samples_per_axis: usize,
) -> (node: BvhNode)
    requires
        entities@.len() > 0,
        entities_per_leaf >= 1,
        max_split_samples_per_axis >= 1,
    ensures
        is_tree_of(node, entities@, entities_per_leaf, max_split_samples_per_axis),
    decreases entities@.len(),
{
    // a copy, because the entities are sorted to find the axis of best split
    let mut entities_vec = vstd::slice::slice_to_vec(entities);
    let aabb = calculate_aabb(entities);
    proof {
        lemma_bounding_box_exact(entities@);
    }
    if entities_vec.len() <= entities_per_leaf {
        return BvhNode { aabb, kind: BvhNodeKind::Leaf(entities_vec) };
    }
    let (axis, split_at) = choose_split(&mut entities_vec, max_split_samples_per_axis);
    let left = slice_subrange(entities_vec.as_slice(), 0, split_at);
    let right = slice_subrange(entities_vec.as_slice(), split_at, entities_vec.len());
    let left_node = build_subtree(left, entities_per_leaf, max_split_samples_per_axis);
    let right_node = build_subtree(right, entities_per_leaf, max_split_samples_per_axis);
    let node = BvhNode {
        aabb,
        kind: BvhNodeKind::Branch(Box::new(left_node), Box::new(right_node)),
    };
    proof {
        lemma_branch_is_tree(
            node,
            entities@,
            entities_vec@,
            (axis, split_at),
            entities_per_leaf,
            max_split_samples_per_axis,
        );
    }
    node
}

/// A pool of worker threads.
#[verifier::external_type_specification]
#[verifier::external_body]
pub struct ExTaskPool(TaskPool);

/// Makes a pool of worker threads.
///
/// Trusted: this calls `TaskPool::new` of bevy's task crate, which starts one
/// thread per processor and panics if the operating system refuses one.
/// Nothing is claimed of the pool.
#[verifier::external_body]
fn new_task_pool() -> TaskPool {
    TaskPool::new()
}

/// Builds the trees for two slices at the same time, each on a thread of the
/// pool, and waits for both.
///
/// Trusted: this calls `ParallelSlice::par_chunk_map` of bevy's task crate on
/// the list of the two slices, with chunks of one, so that one task is
/// spawned for each slice; each task calls `build_subtree` on its slice.
/// What is claimed is what the documentation of `par_chunk_map` says: the
/// results come back in the order of the input. So the two nodes are what
/// `build_subtree` returns for `left` and for `right`.
#[verifier::external_body]
fn build_halves(
    task_pool: &TaskPool,
    left: &[EntityPositionPair],
    right: &[EntityPositionPair],
    entities_per_leaf: usize,
    max_split_samples_per_axis: usize,
) -> (halves: (BvhNode, BvhNode))
    requires
        left@.len() > 0,
        right@.len() > 0,
        entities_per_leaf >= 1,
        max_split_samples_per_axis >= 1,
    ensures
        is_tree_of(halves.0, left@, entities_per_leaf, max_split_samples_per_axis),
        is_tree_of(halves.1, right@, entities_per_leaf, max_split_samples_per_axis),
{
    let parts = [left, right];
    let mut nodes = parts.par_chunk_map(
        task_pool,
        1,
        |_index, part| build_subtree(part[0], entities_per_leaf, max_split_samples_per_axis),
    );
    let right_node = nodes.pop().unwrap();
    let left_node = nodes.pop().unwrap();
    (left_node, right_node)
}

/// Splits a slice of entities into the nodes of a tree.
///
/// A slice that fits into one leaf becomes a leaf. A longer one is sorted
/// along the axis of the cheapest cut and cut there; the trees of the two
/// parts are built at the same time on the threads of `task_pool`, and the
/// result is the same as if they had been built one after the other.
pub fn split_node(
    entities: &[EntityPositionPair],
    entities_per_leaf: usize,
    max_split_samples_per_axis: usize,
    task_pool: &TaskPool,
) -> (node: BvhNode)
    requires
        entities@.len() > 0,
        entities_per_leaf >= 1,
        max_split_samples_per_axis >= 1,
    ensures
        is_tree_of(node, entities@, entities_per_leaf, max_split_samples_per_axis),
{
    // a copy, because the entities are sorted to find the axis of best split
    let mut entities_vec = vstd::slice::slice_to_vec(entities);
    let aabb = calculate_aabb(entities);
    proof {
        lemma_bounding_box_exact(entities@);
    }
    if entities_vec.len() <= entities_per_leaf {
        return BvhNode { aabb, kind: BvhNodeKind::Leaf(entities_vec) };
    }
    let (axis, split_at) = choose_split(&mut entities_vec, max_split_samples_per_axis);
    let left = slice_subrange(entities_vec.as_slice(), 0, split_at);
    let right = slice_subrange(entities_vec.as_slice(), split_at, entities_vec.len());
    let (left_node, right_node) = build_halves(
        task_pool,
        left,
        right,
        entities_per_leaf,
        max_split_samples_per_axis,
    );
    let node = BvhNode {
        aabb,
        kind: BvhNodeKind::Branch(Box::new(left_node), Box::new(right_node)),
    };
    proof {
        lemma_branch_is_tree(
            node,
            entities@,
            entities_vec@,
            (axis, split_at),
            entities_per_leaf,
            max_split_samples_per_axis,
        );
    }
    node
}

/// Bounding volume hierarchy, split by the surface area heuristic.
///
/// A query walks the tree from the root, enters every node whose box the
/// query sphere reaches, and tests each entity of the leaves it arrives at.
#[derive(Debug)]
pub struct Bvh {
    /// Maximum number of entities per leaf node, at least 1. More of them
    /// give a smaller tree that is faster to build and to walk, and more
    /// entities to test at the end.
    pub entities_per_leaf: usize,
    /// Maximum number of cut positions tried per axis, at least 1. More of
    /// them give a better tree and a slower build.
    pub max_split_samples_per_axis: usize,
    root: Option<BvhNode>,
    tree_depth: usize,
    task_pool: TaskPool,
}

impl Bvh {
    /// The entities in the tree, left to right; none before the first
    /// `prepare`.
    pub closed spec fn entries(&self) -> Seq<EntityPositionPair> {
        match &self.root {
            Some(root) => root.entries(),
            None => Seq::empty(),
        }
    }

    /// The configured maximum number of entities per leaf.
    pub closed spec fn leaf_capacity(&self) -> usize {
        self.entities_per_leaf
    }

    /// The configured maximum number of cut positions tried per axis.
    pub closed spec fn split_samples(&self) -> usize {
        self.max_split_samples_per_axis
    }

    /// There is a tree, and it is built from `entities` as building
    /// prescribes, with the configured capacity and number of samples.
    pub closed spec fn built_from(&self, entities: Seq<EntityPositionPair>) -> bool {
        match &self.root {
            Some(root) => root.built_by(
                entities,
                self.entities_per_leaf,
                self.max_split_samples_per_axis,
            ),
            None => false,
        }
    }

    /// Building is repeatable: two hierarchies with the same configuration,
    /// built from the same entities, none of which share a coordinate along
    /// any axis, hold the entities in the same order and are equally deep.
    pub proof fn lemma_built_once(&self, other: &Bvh, entities: Seq<EntityPositionPair>)
        requires
            no_ties(entities),
            self.built_from(entities),
            other.built_from(entities),
            self.leaf_capacity() == other.leaf_capacity(),
            self.split_samples() == other.split_samples(),
        ensures
            self.entries() == other.entries(),
            self.depth() == other.depth(),
    {
        let a = self.root->Some_0;
        let b = other.root->Some_0;
        a.lemma_built_once(
            &b,
            entities,
            self.entities_per_leaf,
            self.max_split_samples_per_axis,
        );
    }

    /// A tree has been built.
    pub closed spec fn has_tree(&self) -> bool {
        self.root is Some
    }

    /// The depth of the tree; 0 without one.
    pub closed spec fn depth(&self) -> nat {
        match &self.root {
            Some(root) => root.depth(),
            None => 0,
        }
    }

    /// No leaf of the tree holds more than `capacity` entities.
    pub closed spec fn leaves_within(&self, capacity: usize) -> bool {
        match &self.root {
            Some(root) => root.leaves_within(capacity),
            None => true,
        }
    }

    /// The boxes of the tree's leaves, left to right, each with the level of
    /// its leaf; the root has level 0.
    pub closed spec fn leaf_boxes(&self) -> Seq<(Aabb, nat)> {
        match &self.root {
            Some(root) => root.leaf_boxes(0),
            None => Seq::empty(),
        }
    }

    /// Lists the boxes of the tree's leaves with their levels, for drawing
    /// them.
    pub fn debug_boxes(&self) -> (boxes: Vec<(Aabb, usize)>)
        requires
            self.wf(),
        ensures
            boxes@.len() == self.leaf_boxes().len(),
            forall|i: int|
                0 <= i < boxes@.len() ==> {
                    &&& (#[trigger] boxes@[i]).0 == self.leaf_boxes()[i].0
                    &&& boxes@[i].1 == self.leaf_boxes()[i].1
                },
    {
        let mut boxes: Vec<(Aabb, usize)> = Vec::new();
        if let Some(root) = &self.root {
            proof {
                root.lemma_bounds_exact();
            }
            root.collect_leaf_boxes(0, &mut boxes);
            proof {
                assert forall|i: int| 0 <= i < boxes@.len() implies {
                    &&& (#[trigger] boxes@[i]).0 == self.leaf_boxes()[i].0
                    &&& boxes@[i].1 == self.leaf_boxes()[i].1
                } by {
                    assert(boxes@[0 + i].0 == root.leaf_boxes(0)[i].0);
                }
            }
        }
        boxes
    }

    /// Says whether a tree has been built. A query without one finds
    /// nothing.
    pub fn is_prepared(&self) -> (prepared: bool)
        ensures
            prepared == self.has_tree(),
    {
        self.root.is_some()
    }

    /// The depth that the last build reached.
    pub fn tree_depth(&self) -> (depth: usize)
        requires
            self.wf(),
        ensures
            depth == self.depth(),
    {
        self.tree_depth
    }
}

impl Default for Bvh {
    fn default() -> (bvh: Bvh)
        ensures
            bvh.wf(),
            bvh.leaf_capacity() == 10_000,
            bvh.split_samples() == 10,
            !bvh.has_tree(),
            bvh.entries() == Seq::<EntityPositionPair>::empty(),
            bvh.indexed() == Map::<u64, Position>::empty(),
    {
        Bvh {
            entities_per_leaf: 10_000,
            max_split_samples_per_axis: 10,
            root: None,
            tree_depth: 0,
            task_pool: new_task_pool(),
        }
    }
}

impl SpatialLookupAlgorithm for Bvh {
    closed spec fn wf(&self) -> bool {
        &&& self.entities_per_leaf >= 1
        &&& self.max_split_samples_per_axis >= 1
        &&& match &self.root {
            Some(root) => {
                &&& root.wf()
                &&& distinct_ids(root.entries())
                &&& root.entries().len() <= usize::MAX
                &&& self.tree_depth == root.depth()
            },
            None => self.tree_depth == 0,
        }
    }

    open spec fn indexed(&self) -> Map<u64, Position> {
        entries_map(self.entries())
    }

    open spec fn incremental(&self) -> bool {
        false
    }

    open spec fn rebuilds(&self) -> bool {
        true
    }

    proof fn lemma_no_rebuild_means_incremental(&self) {
    }

    /// Builds a new tree from the snapshot. An empty snapshot leaves no
    /// tree.
    fn prepare(&mut self, entities: &[EntityPositionPair])
        ensures
            final(self).entries().to_multiset() == entities@.to_multiset(),
            final(self).has_tree() == (entities@.len() > 0),
            entities@.len() > 0 ==> final(self).built_from(entities@),
            final(self).leaves_within(old(self).leaf_capacity()),
            final(self).leaf_capacity() == old(self).leaf_capacity(),
            final(self).split_samples() == old(self).split_samples(),
    {
        if entities.len() == 0 {
            self.root = None;
            self.tree_depth = 0;
            proof {
                assert(entities@ =~= Seq::<EntityPositionPair>::empty());
            }
            return ;
        }
        let root = split_node(
            entities,
            self.entities_per_leaf,
            self.max_split_samples_per_axis,
            &self.task_pool,
        );
        proof {
            lemma_permutation_same_map(entities@, root.entries());
        }
        self.tree_depth = root.count_depth();
        self.root = Some(root);
    }

    /// Before the first `prepare` nothing is found.
    fn entities_in_radius(&self, sample_point: Position, radius: u64) -> (found: Vec<u64>)
        ensures
            found@ == ids_within(self.entries(), sample_point, radius),
    {
        proof {
            lemma_ids_within_is_answer(self.entries(), sample_point, radius);
        }
        if let Some(root) = &self.root {
            root.entities_in_radius(&sample_point, radius)
        } else {
            Vec::new()
        }
    }

    fn supports_incremental(&self) -> (supported: bool) {
        false
    }

    fn insert_entity(&mut self, entity: u64, position: Position) {
    }

    fn remove_entity(&mut self, entity: u64) {
    }

    fn update_entity(&mut self, entity: u64, position: Position) {
    }
}

} // verus!

//! Incrementally updated loose octree.
//!
//! The nodes live in an arena and name each other by index; slot 0 is the
//! root. The cubes of a node's children lie inside the node's cube and
//! cover it; where a half-extent is odd they overlap by one lattice unit
//! round the centre.

use crate::algorithms::forest::{
    lemma_pending_work_push, lemma_subtree_bound_positive, pending_work, subtree_bound, Forest,
};
use crate::geometry::{
    interval_gap, lemma_interval_gap_below, square_radius, within_radius, EntityPositionPair,
    Position,
};
use crate::algorithms::bvh::{bounding_box, calculate_aabb, lemma_bounding_box_exact, Aabb};
use crate::model::{
    answers, collect_ids_within, distinct_ids, entries_map, has_id, ids_within, is_answer,
    lemma_entries_map_dom, lemma_entries_map_push, lemma_ids_within_contains,
    lemma_ids_within_distinct,
};
use crate::SpatialLookupAlgorithm;
use std::collections::HashMap;
use vstd::prelude::*;

verus! {

broadcast use vstd::std_specs::hash::group_hash_axioms;

/// The largest half-extent that a node can have.
pub const HALF_MAX: i64 = 0x4_0000_0000;

/// Every node's cube lies between `-NODE_LIMIT` and `NODE_LIMIT` on each
/// axis.
pub const NODE_LIMIT: i64 = 0x8_0000_0000;

/// Configuration of the octree, in lattice units.
///
/// Leaves are buckets that store entities until they split. A leaf splits
/// only when its bucket grows beyond `split_threshold`, so that small
/// fluctuations do not split it again and again.
#[derive(Clone, Copy, Debug, PartialEq, Eq, Structural)]
pub struct OctreeConfig {
    /// Target maximum number of entities per leaf.
    pub bucket_capacity: usize,
    /// The bucket length that must be exceeded before a leaf splits.
    pub split_threshold: usize,
    /// A leaf at this depth does not split.
    pub max_depth: u8,
    /// A leaf does not split if half its half-extent is below this.
    pub min_half_size: u32,
    /// Padding round a node's cube: an entity may sit this far outside the
    /// cube of its leaf.
    pub loose_padding: u32,
    /// Padding added round the first snapshot when the root is made.
    pub initial_padding: u32,
}

impl OctreeConfig {
    /// The default configuration: buckets of 16 that split beyond 32, at
    /// most 16 levels, and sizes of 1, 2 and 4 lattice units.
    pub open spec fn standard() -> OctreeConfig {
        OctreeConfig {
            bucket_capacity: 16,
            split_threshold: 32,
            max_depth: 16,
            min_half_size: 1,
            loose_padding: 2,
            initial_padding: 4,
        }
    }
}

impl Default for OctreeConfig {
    fn default() -> (cfg: OctreeConfig)
        ensures
            cfg == OctreeConfig::standard(),
    {
        OctreeConfig {
            bucket_capacity: 16,
            split_threshold: 32,
            max_depth: 16,
            min_half_size: 1,
            loose_padding: 2,
            initial_padding: 4,
        }
    }
}

/// A cube, given by its centre and half its edge.
#[derive(Clone, Copy, Debug, PartialEq, Eq, Structural)]
pub struct AabbCube {
    pub cx: i64,
    pub cy: i64,
    pub cz: i64,
    pub half: i64,
}

impl AabbCube {
    /// Small enough for the arithmetic of the tests below.
    pub open spec fn bounded(self) -> bool {
        &&& -0x10_0000_0000 <= self.cx <= 0x10_0000_0000
        &&& -0x10_0000_0000 <= self.cy <= 0x10_0000_0000
        &&& -0x10_0000_0000 <= self.cz <= 0x10_0000_0000
        &&& 0 <= self.half <= 0x10_0000_0000
    }

    /// What the cube of a node must be: its half-extent is at least 1 and at
    /// most `HALF_MAX`, and it stays within `NODE_LIMIT`.
    pub open spec fn fits(self) -> bool {
        &&& 1 <= self.half <= HALF_MAX
        &&& -NODE_LIMIT <= self.cx - self.half && self.cx + self.half <= NODE_LIMIT
        &&& -NODE_LIMIT <= self.cy - self.half && self.cy + self.half <= NODE_LIMIT
        &&& -NODE_LIMIT <= self.cz - self.half && self.cz + self.half <= NODE_LIMIT
    }

    /// What the cube of the root must be besides: its centre is no farther
    /// outside the range of the coordinates than half its half-extent.
    pub open spec fn anchored(self) -> bool {
        &&& 2 * (self.cx - i32::MAX) <= self.half && 2 * (i32::MIN - self.cx) <= self.half
        &&& 2 * (self.cy - i32::MAX) <= self.half && 2 * (i32::MIN - self.cy) <= self.half
        &&& 2 * (self.cz - i32::MAX) <= self.half && 2 * (i32::MIN - self.cz) <= self.half
    }

    /// `p` lies in the cube grown by `padding` on every side.
    pub open spec fn holds(self, p: Position, padding: u32) -> bool {
        &&& self.cx - self.half - padding <= p.x <= self.cx + self.half + padding
        &&& self.cy - self.half - padding <= p.y <= self.cy + self.half + padding
        &&& self.cz - self.half - padding <= p.z <= self.cz + self.half + padding
    }

    /// The cube grown by `padding` on every side.
    pub open spec fn inflate(self, padding: u32) -> AabbCube {
        AabbCube { cx: self.cx, cy: self.cy, cz: self.cz, half: (self.half + padding) as i64 }
    }

    /// Squared distance from `p` to the nearest point of the cube; zero if
    /// `p` is inside.
    pub open spec fn gap_squared(self, p: Position) -> int {
        let gx = interval_gap(p.x as int, self.cx - self.half, self.cx + self.half);
        let gy = interval_gap(p.y as int, self.cy - self.half, self.cy + self.half);
        let gz = interval_gap(p.z as int, self.cz - self.half, self.cz + self.half);
        gx * gx + gy * gy + gz * gz
    }

    /// The sphere round `centre` reaches the cube.
    pub open spec fn meets_sphere(self, centre: Position, radius: u64) -> bool {
        self.gap_squared(centre) <= radius * radius
    }

    /// The number of the octant of this cube that `p` belongs to: bit 0 is
    /// set if `p` is not below the centre on the x axis, bit 1 likewise for
    /// y, bit 2 for z.
    pub open spec fn octant_of(self, p: Position) -> int {
        (if p.x >= self.cx { 1int } else { 0 }) + (if p.y >= self.cy { 2int } else { 0 }) + (if p.z
            >= self.cz { 4int } else { 0 })
    }

    /// The cube of octant `i`. Its centre is moved from this cube's centre
    /// by half the half-extent, rounded down, along each axis: up where the
    /// axis's bit is set in `i`, down where it is not. Its half-extent is
    /// the rest of this cube's half-extent, so that it reaches this cube's
    /// faces and, where the half-extent is odd, one unit beyond the centre.
    pub open spec fn octant(self, i: int) -> AabbCube {
        let step = self.half / 2;
        AabbCube {
            cx: if i % 2 == 1 { (self.cx + step) as i64 } else { (self.cx - step) as i64 },
            cy: if (i / 2) % 2 == 1 { (self.cy + step) as i64 } else { (self.cy - step) as i64 },
            cz: if (i / 4) % 2 == 1 { (self.cz + step) as i64 } else { (self.cz - step) as i64 },
            half: (self.half - step) as i64,
        }
    }

    /// The cube twice as large that has this cube as one of its octants,
    /// on the side towards `p` along each axis.
    pub open spec fn grown_towards(self, p: Position) -> AabbCube {
        AabbCube {
            cx: if p.x >= self.cx {
                (self.cx + self.half) as i64
            } else {
                (self.cx - self.half) as i64
            },
            cy: if p.y >= self.cy {
                (self.cy + self.half) as i64
            } else {
                (self.cy - self.half) as i64
            },
            cz: if p.z >= self.cz {
                (self.cz + self.half) as i64
            } else {
                (self.cz - self.half) as i64
            },
            half: (self.half * 2) as i64,
        }
    }

    /// The octant of `grown_towards(p)` that this cube fills.
    pub open spec fn octant_in_grown(self, p: Position) -> int {
        (if p.x >= self.cx { 0int } else { 1 }) + (if p.y >= self.cy { 0int } else { 2 }) + (if p.z
            >= self.cz { 0int } else { 4 })
    }

    /// The cube of a root, doubled towards `p` as often as it takes for its
    /// padded cube to hold `p`.
    pub open spec fn grown_until(self, p: Position, padding: u32) -> AabbCube
        decreases HALF_MAX - self.half,
        when self.fits() && self.anchored()
    {
        if self.holds(p, padding) {
            self
        } else {
            proof {
                lemma_grown_cube(self, p, padding);
            }
            self.grown_towards(p).grown_until(p, padding)
        }
    }

    /// Decides whether `p` lies in the cube grown by `padding`.
    pub fn contains(&self, p: &Position, padding: u32) -> (inside: bool)
        requires
            self.bounded(),
        ensures
            inside == self.holds(*p, padding),
    {
        let h: i64 = self.half + padding as i64;
        let dx: i64 = p.x as i64 - self.cx;
        let dy: i64 = p.y as i64 - self.cy;
        let dz: i64 = p.z as i64 - self.cz;
        -h <= dx && dx <= h && -h <= dy && dy <= h && -h <= dz && dz <= h
    }

    /// Grows the cube by `padding` on every side.
    pub fn inflated(&self, padding: u32) -> (cube: AabbCube)
        requires
            self.bounded(),
            self.half <= 0x8_0000_0000,
        ensures
            cube == self.inflate(padding),
            cube.bounded(),
    {
        AabbCube { cx: self.cx, cy: self.cy, cz: self.cz, half: self.half + padding as i64 }
    }

    /// Decides whether the sphere round `c` reaches the cube, by the squared
    /// distance from `c` to the cube's nearest point.
    pub fn intersects_sphere(&self, c: &Position, r: u64) -> (hit: bool)
        requires
            self.bounded(),
        ensures
            hit == self.meets_sphere(*c, r),
    {
        let gx = cube_gap_squared(c.x, self.cx - self.half, self.cx + self.half);
        let gy = cube_gap_squared(c.y, self.cy - self.half, self.cy + self.half);
        let gz = cube_gap_squared(c.z, self.cz - self.half, self.cz + self.half);
        gx + gy + gz <= square_radius(r)
    }

    /// Picks the octant that `p` belongs to.
    pub fn child_index(&self, p: &Position) -> (idx: usize)
        ensures
            idx == self.octant_of(*p),
            idx < 8,
    {
        let mut idx: usize = 0;
        if p.x as i64 >= self.cx {
            idx += 1;
        }
        if p.y as i64 >= self.cy {
            idx += 2;
        }
        if p.z as i64 >= self.cz {
            idx += 4;
        }
        idx
    }
}

/// A root that does not hold `p` can be doubled: the grown cube is a fit
/// cube for a root, and the old cube is one of its octants.
pub proof fn lemma_grown_cube(old: AabbCube, p: Position, padding: u32)
    requires
        old.fits(),
        old.anchored(),
        !old.holds(p, padding),
    ensures
        old.half * 2 <= HALF_MAX,
        old.grown_towards(p).fits(),
        old.grown_towards(p).anchored(),
        old.grown_towards(p).octant(old.octant_in_grown(p)) == old,
        0 <= old.octant_in_grown(p) < 8,
{
}

/// Squares the gap between `p` and the interval from `lo` to `hi`.
fn cube_gap_squared(p: i32, lo: i64, hi: i64) -> (g: u128)
    requires
        -0x20_0000_0000 <= lo <= 0x20_0000_0000,
        -0x20_0000_0000 <= hi <= 0x20_0000_0000,
    ensures
        g == interval_gap(p as int, lo as int, hi as int) * interval_gap(
            p as int,
            lo as int,
            hi as int,
        ),
        g <= 0x40_0000_0000 * 0x40_0000_0000,
{
    let gap: i64 = if (p as i64) < lo {
        lo - p as i64
    } else if p as i64 > hi {
        p as i64 - hi
    } else {
        0
    };
    assert(0 <= gap * gap <= 0x40_0000_0000 * 0x40_0000_0000) by (nonlinear_arith)
        requires
            0 <= gap <= 0x40_0000_0000,
    ;
    (gap as u128) * (gap as u128)
}

/// A sphere that reaches a point of a cube reaches the cube.
pub proof fn lemma_sphere_reaches_cube(
    cube: AabbCube,
    padding: u32,
    q: Position,
    centre: Position,
    radius: u64,
)
    requires
        0 <= cube.half <= HALF_MAX,
        cube.holds(q, padding),
        within_radius(q, centre, radius),
    ensures
        cube.inflate(padding).meets_sphere(centre, radius),
{
    let c = cube.inflate(padding);
    lemma_interval_gap_below(centre.x as int, c.cx - c.half, c.cx + c.half, q.x as int);
    lemma_interval_gap_below(centre.y as int, c.cy - c.half, c.cy + c.half, q.y as int);
    lemma_interval_gap_below(centre.z as int, c.cz - c.half, c.cz + c.half, q.z as int);
}

/// A point of a cube lies in the cube of the octant it belongs to, and
/// every octant's cube lies in the cube.
pub proof fn lemma_octant_holds(cube: AabbCube, p: Position, padding: u32)
    requires
        cube.fits(),
    ensures
        cube.holds(p, padding) ==> cube.octant(cube.octant_of(p)).holds(p, padding),
        forall|i: int| 0 <= i < 8 && #[trigger] cube.octant(i).holds(p, padding) ==> cube.holds(p, padding),
        forall|i: int| 0 <= i < 8 ==> (#[trigger] cube.octant(i)).fits(),
{
}

/// The position of the entry of `bucket` that carries the identifier `e`.
pub fn position_of(bucket: &Vec<EntityPositionPair>, e: u64) -> (found: Option<usize>)
    ensures
        match found {
            Some(i) => i < bucket@.len() && bucket@[i as int].0 == e && forall|j: int|
                0 <= j < i ==> bucket@[j].0 != e,
            None => !has_id(bucket@, e),
        },
{
    let mut i: usize = 0;
    while i < bucket.len()
        invariant
            i <= bucket@.len(),
            forall|j: int| 0 <= j < i ==> bucket@[j].0 != e,
        decreases bucket@.len() - i,
    {
        if bucket[i].0 == e {
            return Some(i);
        }
        i += 1;
    }
    None
}

/// The cube of the root that is made for a snapshot with the bounding box
/// `bounds`: its centre is the middle of the box, its half-extent half the
/// longest edge of the box, rounded up, and the initial padding, at least
/// the smallest size and at least one lattice unit.
pub open spec fn root_cube(bounds: Aabb, cfg: OctreeConfig) -> AabbCube {
    let ex = bounds.max.x - bounds.min.x;
    let ey = bounds.max.y - bounds.min.y;
    let ez = bounds.max.z - bounds.min.z;
    let longest = if ex > ey { ex } else { ey };
    let extent = if ez > longest { ez } else { longest };
    let padded = (extent + 1) / 2 + cfg.initial_padding;
    let floored = if padded < cfg.min_half_size { cfg.min_half_size as int } else { padded };
    AabbCube {
        cx: (bounds.min.x + ex / 2) as i64,
        cy: (bounds.min.y + ey / 2) as i64,
        cz: (bounds.min.z + ez / 2) as i64,
        half: (if floored < 1 { 1 } else { floored }) as i64,
    }
}

/// The cube of the root that is made for an empty snapshot.
pub open spec fn unit_cube() -> AabbCube {
    AabbCube { cx: 0, cy: 0, cz: 0, half: 1 }
}

/// Makes the cube of the root for a snapshot with the bounding box `bounds`.
pub fn make_root_cube(bounds: &Aabb, cfg: &OctreeConfig) -> (root: AabbCube)
    requires
        bounds.wf(),
    ensures
        root == root_cube(*bounds, *cfg),
        root.fits(),
        root.anchored(),
        forall|p: Position| bounds.contains(p) ==> #[trigger] root.holds(p, 0),
{
    let ex: i64 = bounds.max.x as i64 - bounds.min.x as i64;
    let ey: i64 = bounds.max.y as i64 - bounds.min.y as i64;
    let ez: i64 = bounds.max.z as i64 - bounds.min.z as i64;
    let mut extent: i64 = if ex > ey { ex } else { ey };
    if ez > extent {
        extent = ez;
    }
    let mut half: i64 = (extent + 1) / 2 + cfg.initial_padding as i64;
    if half < cfg.min_half_size as i64 {
        half = cfg.min_half_size as i64;
    }
    if half < 1 {
        half = 1;
    }
    AabbCube {
        cx: bounds.min.x as i64 + ex / 2,
        cy: bounds.min.y as i64 + ey / 2,
        cz: bounds.min.z as i64 + ez / 2,
        half,
    }
}

/// The place of the entry of `bucket` that carries the identifier `e`.
pub open spec fn place_in(bucket: Seq<EntityPositionPair>, e: u64) -> int {
    choose|k: int| 0 <= k < bucket.len() && #[trigger] bucket[k].0 == e
}

/// The bucket after the entry of `e` has been taken out: the last entry
/// stands in its place.
pub open spec fn bucket_without(bucket: Seq<EntityPositionPair>, e: u64) -> Seq<
    EntityPositionPair,
> {
    bucket.update(place_in(bucket, e), bucket.last()).drop_last()
}

/// The bucket after the entry of `e` has been given the position `p`.
pub open spec fn bucket_moved(
    bucket: Seq<EntityPositionPair>,
    e: u64,
    p: Position,
) -> Seq<EntityPositionPair> {
    bucket.update(place_in(bucket, e), (e, p))
}

/// With distinct identifiers, an identifier has one place only.
pub proof fn lemma_place_in(bucket: Seq<EntityPositionPair>, i: int)
    requires
        distinct_ids(bucket),
        0 <= i < bucket.len(),
    ensures
        place_in(bucket, bucket[i].0) == i,
{
    let j = place_in(bucket, bucket[i].0);
    assert(bucket[i].0 == bucket[i].0);
    if j < i {
        assert(bucket[j].0 != bucket[i].0);
    } else if i < j {
        assert(bucket[i].0 != bucket[j].0);
    }
}

/// Node of the arena.
struct Node {
    bounds: AabbCube,
    depth: u8,
    children: Option<[usize; 8]>,
    /// Only a leaf holds entities.
    bucket: Vec<EntityPositionPair>,
}

/// A leaf that may split holds no more entities than the threshold.
spec fn tidy_node(node: Node, cfg: OctreeConfig) -> bool {
    (node.children is None && node.depth < cfg.max_depth && node.bounds.half >= 2
        && node.bounds.half / 2 >= cfg.min_half_size) ==> node.bucket@.len()
        <= cfg.split_threshold
}

/// Every node but the one in slot `skip` is tidy.
spec fn tidy_but(nodes: Seq<Node>, cfg: OctreeConfig, skip: int) -> bool {
    forall|i: int| 0 <= i < nodes.len() && i != skip ==> tidy_node(#[trigger] nodes[i], cfg)
}

impl Node {
    fn is_leaf(&self) -> (leaf: bool)
        ensures
            leaf == (self.children is None),
    {
        self.children.is_none()
    }
}

/// Loose octree over an arena of nodes, with a map from each entity to the
/// leaf that holds it.
pub struct Octree {
    cfg: OctreeConfig,
    built: bool,
    nodes: Vec<Node>,
    entity_leaf: HashMap<u64, usize>,
    /// What the index holds.
    model: Ghost<Map<u64, Position>>,
    /// The shape of the tree in the arena.
    forest: Ghost<Forest>,
    /// No node is deeper than this.
    height: Ghost<nat>,
}

impl View for Octree {
    type V = Map<u64, Position>;

    closed spec fn view(&self) -> Map<u64, Position> {
        self.model@
    }
}

impl Octree {
    /// The configuration that the octree was made with.
    pub closed spec fn config(&self) -> OctreeConfig {
        self.cfg
    }

    /// The root has been made.
    pub closed spec fn is_built(&self) -> bool {
        self.built
    }

    /// Says whether the root has been made. Once it has, `prepare` does
    /// nothing more.
    pub fn is_prepared(&self) -> (prepared: bool)
        ensures
            prepared == self.is_built(),
    {
        self.built
    }

    spec fn leaf_of(&self, e: u64) -> int {
        self.entity_leaf@[e] as int
    }

    /// The cube of the leaf that holds the entity `e`.
    pub closed spec fn leaf_cube(&self, e: u64) -> AabbCube {
        self.nodes@[self.leaf_of(e)].bounds
    }

    /// The leaf in slot `i` may split: it is above the depth limit, half its
    /// half-extent is not below the smallest size, and its half-extent is 2
    /// at least, so that its children are smaller than itself.
    spec fn can_split(&self, i: int) -> bool {
        let node = self.nodes@[i];
        &&& node.depth < self.cfg.max_depth
        &&& node.bounds.half >= 2
        &&& node.bounds.half / 2 >= self.cfg.min_half_size
    }

    /// Every leaf that may split holds no more entities than the threshold.
    spec fn tidy(&self) -> bool {
        tidy_but(self.nodes@, self.cfg, -1)
    }

    spec fn is_child_of(&self, c: int, n: int) -> bool {
        match self.nodes@[n].children {
            Some(ch) => exists|j: int| 0 <= j < 8 && #[trigger] ch[j] == c,
            None => false,
        }
    }

    spec fn entry_ok(&self, i: int, k: int, exempt: Set<u64>) -> bool {
        let e = self.nodes@[i].bucket@[k].0;
        let p = self.nodes@[i].bucket@[k].1;
        &&& !exempt.contains(e)
        &&& self.entity_leaf@.contains_key(e)
        &&& self.entity_leaf@[e] == i
        &&& self.model@.contains_key(e)
        &&& self.model@[e] == p
        &&& self.nodes@[i].bounds.holds(p, self.cfg.loose_padding)
    }

    spec fn node_ok(&self, i: int, exempt: Set<u64>) -> bool {
        let node = self.nodes@[i];
        let f = self.forest@;
        &&& node.bounds.fits()
        &&& f.level[i] <= self.height@
        &&& (i != 0 ==> self.is_child_of(i, f.parent[i]))
        &&& distinct_ids(node.bucket@)
        &&& forall|k: int| 0 <= k < node.bucket@.len() ==> #[trigger] self.entry_ok(i, k, exempt)
        &&& match node.children {
            Some(ch) => {
                &&& node.bucket@.len() == 0
                &&& node.bounds.half >= 2
                &&& forall|j: int|
                    0 <= j < 8 ==> {
                        &&& 1 <= #[trigger] ch[j] < self.nodes@.len()
                        &&& f.parent[ch[j] as int] == i
                        &&& self.nodes@[ch[j] as int].bounds == node.bounds.octant(j)
                    }
            },
            None => true,
        }
    }

    spec fn located(&self, e: u64) -> bool {
        &&& 0 <= self.leaf_of(e) < self.nodes@.len()
        &&& has_id(self.nodes@[self.leaf_of(e)].bucket@, e)
    }

    /// The invariant of a built tree. The entities of `exempt` are in
    /// flight: the index holds them, no bucket does.
    spec fn inv(&self, exempt: Set<u64>) -> bool {
        &&& self.forest@.wf()
        &&& self.forest@.len() == self.nodes@.len()
        &&& self.nodes@[0].bounds.anchored()
        &&& forall|i: int| 0 <= i < self.nodes@.len() ==> #[trigger] self.node_ok(i, exempt)
        &&& self.model@.dom() =~= self.entity_leaf@.dom()
        &&& forall|e: u64|
            self.entity_leaf@.contains_key(e) && !exempt.contains(e) ==> #[trigger] self.located(e)
    }

    /// The node in slot `i` has a cube of half-extent 1 at least, and if it
    /// is interior, its children sit in the arena and have the cubes of its
    /// octants.
    spec fn shaped_at(&self, i: int) -> bool {
        let node = self.nodes@[i];
        &&& node.bounds.half >= 1
        &&& match node.children {
            Some(ch) => {
                &&& node.bounds.half >= 2
                &&& forall|j: int|
                    0 <= j < 8 ==> {
                        &&& 0 <= #[trigger] ch[j] < self.nodes@.len()
                        &&& self.nodes@[ch[j] as int].bounds == node.bounds.octant(j)
                    }
            },
            None => true,
        }
    }

    /// The arena has the shape of a tree of cubes.
    spec fn shaped(&self) -> bool {
        forall|i: int| 0 <= i < self.nodes@.len() ==> #[trigger] self.shaped_at(i)
    }

    /// The slot of the leaf that `p` is handed down to from the node in
    /// slot `from`: at every interior node on the way, the child in the
    /// octant that `p` belongs to is taken.
    spec fn route(&self, from: int, p: Position) -> int
        decreases self.nodes@[from].bounds.half,
        when 0 <= from < self.nodes@.len() && self.shaped()
    {
        match self.nodes@[from].children {
            Some(ch) => {
                proof {
                    assert(self.shaped_at(from));
                    let next = ch[self.nodes@[from].bounds.octant_of(p)] as int;
                    assert(self.shaped_at(next));
                }
                self.route(ch[self.nodes@[from].bounds.octant_of(p)] as int, p)
            },
            None => from,
        }
    }

    /// The slot of the leaf that `p` is handed down to from the node in
    /// slot `from`, by the octant that `p` belongs to at every interior node
    /// on the way.
    pub closed spec fn descend(&self, from: int, p: Position) -> int {
        self.route(from, p)
    }

    /// The entity `x` sits where its position is handed down to from the
    /// leaf that held it in `before`.
    spec fn routed_one(&self, before: Octree, x: u64) -> bool {
        self.leaf_of(x) == self.route(before.leaf_of(x), before.model@[x])
    }

    /// Every entity of `before` but those of `skip` sits where its position
    /// is handed down to from the leaf that held it in `before`: in that
    /// leaf, if it is still one.
    spec fn routed(&self, before: Octree, skip: Set<u64>) -> bool {
        forall|x: u64|
            before.entity_leaf@.contains_key(x) && !skip.contains(x) ==> #[trigger] self.routed_one(
                before,
                x,
            )
    }

    /// A well-formed arena has the shape of a tree of cubes.
    proof fn lemma_inv_shaped(&self, exempt: Set<u64>)
        requires
            self.inv(exempt),
        ensures
            self.shaped(),
    {
        assert forall|i: int| 0 <= i < self.nodes@.len() implies #[trigger] self.shaped_at(i) by {
            assert(self.node_ok(i, exempt));
        }
    }

    /// The leaf of an entity that a bucket holds is a leaf, and handing
    /// anything down from a leaf ends there.
    proof fn lemma_descend_from_leaf(&self, exempt: Set<u64>, x: u64, p: Position)
        requires
            self.inv(exempt),
            self.entity_leaf@.contains_key(x),
            !exempt.contains(x),
        ensures
            0 <= self.leaf_of(x) < self.nodes@.len(),
            self.nodes@[self.leaf_of(x)].children is None,
            self.route(self.leaf_of(x), p) == self.leaf_of(x),
    {
        self.lemma_inv_shaped(exempt);
        assert(self.located(x));
        let leaf = self.leaf_of(x);
        assert(self.node_ok(leaf, exempt));
        let bucket = self.nodes@[leaf].bucket@;
        let k = choose|k: int| 0 <= k < bucket.len() && #[trigger] bucket[k].0 == x;
    }

    /// Handing a position down in a later arena passes through the leaf
    /// that it was handed down to in an earlier one.
    proof fn lemma_descend_through(s: Octree, t: Octree, a: int, p: Position)
        requires
            s.shaped(),
            t.shaped(),
            t.extends(s),
            0 <= a < s.nodes@.len(),
        ensures
            0 <= s.route(a, p) < s.nodes@.len(),
            s.nodes@[s.route(a, p)].children is None,
            t.route(a, p) == t.route(s.route(a, p), p),
        decreases s.nodes@[a].bounds.half,
    {
        assert(s.shaped_at(a));
        assert(t.nodes@[a].bounds == s.nodes@[a].bounds);
        match s.nodes@[a].children {
            Some(ch) => {
                let next = ch[s.nodes@[a].bounds.octant_of(p)] as int;
                assert(s.shaped_at(next));
                assert(t.nodes@[a].children == s.nodes@[a].children);
                Self::lemma_descend_through(s, t, next, p);
            },
            None => {},
        }
    }

    /// Some node of `stack` has the leaf of `e` under it.
    spec fn pending(&self, stack: Seq<usize>, e: u64) -> bool {
        exists|k: int|
            0 <= k < stack.len() && #[trigger] self.forest@.under(stack[k] as int, self.leaf_of(e))
    }

    /// No node of `stack` lies under another.
    spec fn antichain(&self, stack: Seq<usize>) -> bool {
        forall|a: int, b: int|
            0 <= a < stack.len() && 0 <= b < stack.len() && a != b ==> !self.forest@.under(
                #[trigger] stack[a] as int,
                #[trigger] stack[b] as int,
            )
    }

    /// What lies in a node's padded cube lies in the padded cube of every
    /// node above it.
    proof fn lemma_holds_above(&self, n: int, x: int, p: Position)
        requires
            self.inv(Set::empty()),
            0 <= n < self.nodes@.len(),
            0 <= x < self.nodes@.len(),
            self.forest@.under(n, x),
            self.nodes@[x].bounds.holds(p, self.cfg.loose_padding),
        ensures
            self.nodes@[n].bounds.holds(p, self.cfg.loose_padding),
        decreases self.forest@.level[x],
    {
        if x != n {
            let f = self.forest@;
            assert(f.level[x] > f.level[n]) by {
                if f.level[x] == f.level[n] {
                    assert(f.up(x, 0) == x);
                }
            }
            assert(x != 0);
            let parent = f.parent[x];
            assert(self.node_ok(x, Set::empty()));
            assert(self.node_ok(parent, Set::empty()));
            assert(self.is_child_of(x, parent));
            let ch = self.nodes@[parent].children->Some_0;
            let j = choose|j: int| 0 <= j < 8 && #[trigger] ch[j] == x;
            lemma_octant_holds(self.nodes@[parent].bounds, p, self.cfg.loose_padding);
            assert(self.nodes@[parent].bounds.octant(j).holds(p, self.cfg.loose_padding));
            f.lemma_under_parent(x, x);
            assert(f.under(n, parent)) by {
                let k = (f.level[x] - f.level[n]) as nat;
                assert(f.up(x, k) == f.up(parent, (k - 1) as nat));
            }
            self.lemma_holds_above(n, parent, p);
        }
    }

    /// Only a leaf itself lies under a leaf.
    proof fn lemma_under_leaf(&self, n: int, x: int)
        requires
            self.inv(Set::empty()),
            0 <= n < self.nodes@.len(),
            0 <= x < self.nodes@.len(),
            self.nodes@[n].children is None,
            self.forest@.under(n, x),
        ensures
            x == n,
    {
        if x != n {
            let c = self.forest@.lemma_under_child(n, x);
            assert(self.node_ok(c, Set::empty()));
        }
    }

    /// What lies strictly under an interior node lies under one of its
    /// children.
    proof fn lemma_under_interior(&self, n: int, x: int) -> (j: int)
        requires
            self.inv(Set::empty()),
            0 <= n < self.nodes@.len(),
            0 <= x < self.nodes@.len(),
            self.nodes@[n].children is Some,
            self.forest@.under(n, x),
            x != n,
        ensures
            0 <= j < 8,
            self.forest@.under(self.nodes@[n].children->Some_0[j] as int, x),
    {
        let c = self.forest@.lemma_under_child(n, x);
        assert(self.node_ok(c, Set::empty()));
        let ch = self.nodes@[n].children->Some_0;
        let j = choose|j: int| 0 <= j < 8 && #[trigger] ch[j] == c;
        j
    }

    /// What holds between the rounds of a search: the nodes of `stack` are
    /// still to be visited, and `out` lists what was found so far.
    spec fn search_inv(
        &self,
        stack: Seq<usize>,
        out: Seq<u64>,
        centre: Position,
        radius: u64,
    ) -> bool {
        &&& forall|k: int| 0 <= k < stack.len() ==> #[trigger] stack[k] < self.nodes@.len()
        &&& self.antichain(stack)
        &&& forall|e: u64|
            #![auto]
            self.model@.contains_key(e) && within_radius(self.model@[e], centre, radius)
                ==> out.contains(e) || self.pending(stack, e)
        &&& forall|i: int|
            0 <= i < out.len() ==> {
                &&& self.model@.contains_key(#[trigger] out[i])
                &&& within_radius(self.model@[out[i]], centre, radius)
                &&& !self.pending(stack, out[i])
            }
        &&& out.no_duplicates()
    }

    proof fn lemma_pending_push(&self, rest: Seq<usize>, n: usize, e: u64)
        ensures
            self.pending(rest.push(n), e) <==> self.pending(rest, e) || self.forest@.under(
                n as int,
                self.leaf_of(e),
            ),
    {
        let stack = rest.push(n);
        let f = self.forest@;
        if self.pending(rest, e) {
            let k = choose|k: int|
                0 <= k < rest.len() && #[trigger] f.under(rest[k] as int, self.leaf_of(e));
            assert(f.under(stack[k] as int, self.leaf_of(e)));
        }
        if f.under(n as int, self.leaf_of(e)) {
            assert(f.under(stack[rest.len() as int] as int, self.leaf_of(e)));
        }
        if self.pending(stack, e) {
            let k = choose|k: int|
                0 <= k < stack.len() && #[trigger] f.under(stack[k] as int, self.leaf_of(e));
            if k < rest.len() {
                assert(f.under(rest[k] as int, self.leaf_of(e)));
            }
        }
    }

    proof fn lemma_antichain_rest(&self, rest: Seq<usize>, n: usize)
        requires
            self.antichain(rest.push(n)),
        ensures
            self.antichain(rest),
            forall|k: int|
                0 <= k < rest.len() ==> !self.forest@.under(#[trigger] rest[k] as int, n as int)
                    && !self.forest@.under(n as int, rest[k] as int),
    {
        let stack = rest.push(n);
        let last = rest.len() as int;
        assert forall|a: int, b: int|
            0 <= a < rest.len() && 0 <= b < rest.len() && a != b implies !self.forest@.under(
            #[trigger] rest[a] as int,
            #[trigger] rest[b] as int,
        ) by {
            assert(stack[a] == rest[a] && stack[b] == rest[b]);
        }
        assert forall|k: int| 0 <= k < rest.len() implies !self.forest@.under(
            #[trigger] rest[k] as int,
            n as int,
        ) && !self.forest@.under(n as int, rest[k] as int) by {
            assert(stack[k] == rest[k] && stack[last] == n);
        }
    }

    /// The search starts with the root alone on the stack.
    proof fn lemma_search_start(&self, centre: Position, radius: u64)
        requires
            self.inv(Set::empty()),
        ensures
            self.search_inv(seq![0usize], Seq::<u64>::empty(), centre, radius),
    {
        let stack = seq![0usize];
        assert forall|e: u64|
            #![auto]
            self.model@.contains_key(e) && within_radius(
                self.model@[e],
                centre,
                radius,
            ) implies self.pending(stack, e) by {
            assert(self.entity_leaf@.contains_key(e));
            assert(self.located(e));
            self.forest@.lemma_under_root(self.leaf_of(e));
            assert(self.forest@.under(stack[0] as int, self.leaf_of(e)));
        }
    }

    /// A node whose padded cube the sphere does not reach is dropped.
    proof fn lemma_search_pruned(
        &self,
        rest: Seq<usize>,
        n: usize,
        out: Seq<u64>,
        centre: Position,
        radius: u64,
    )
        requires
            self.inv(Set::empty()),
            self.search_inv(rest.push(n), out, centre, radius),
            !self.nodes@[n as int].bounds.inflate(self.cfg.loose_padding).meets_sphere(
                centre,
                radius,
            ),
        ensures
            self.search_inv(rest, out, centre, radius),
    {
        let stack = rest.push(n);
        let f = self.forest@;
        assert(stack[rest.len() as int] == n);
        self.lemma_antichain_rest(rest, n);
        assert forall|k: int| 0 <= k < rest.len() implies #[trigger] rest[k]
            < self.nodes@.len() by {
            assert(stack[k] == rest[k]);
        }
        assert forall|e: u64|
            #![auto]
            self.model@.contains_key(e) && within_radius(
                self.model@[e],
                centre,
                radius,
            ) implies out.contains(e) || self.pending(rest, e) by {
            self.lemma_pending_push(rest, n, e);
            if f.under(n as int, self.leaf_of(e)) {
                assert(self.entity_leaf@.contains_key(e));
                assert(self.located(e));
                let leaf = self.leaf_of(e);
                assert(self.node_ok(leaf, Set::empty()));
                let k = choose|k: int|
                    0 <= k < self.nodes@[leaf].bucket@.len() && #[trigger] self.nodes@[leaf].bucket@[k].0
                        == e;
                assert(self.entry_ok(leaf, k, Set::empty()));
                self.lemma_holds_above(n as int, leaf, self.model@[e]);
                assert(self.node_ok(n as int, Set::empty()));
                lemma_sphere_reaches_cube(
                    self.nodes@[n as int].bounds,
                    self.cfg.loose_padding,
                    self.model@[e],
                    centre,
                    radius,
                );
            }
        }
        assert forall|i: int| 0 <= i < out.len() implies !self.pending(rest, #[trigger] out[i]) by {
            self.lemma_pending_push(rest, n, out[i]);
        }
    }

    /// The entities of a leaf that pass the radius test are found.
    proof fn lemma_search_leaf(
        &self,
        rest: Seq<usize>,
        n: usize,
        out: Seq<u64>,
        found: Seq<u64>,
        centre: Position,
        radius: u64,
    )
        requires
            self.inv(Set::empty()),
            self.search_inv(rest.push(n), out, centre, radius),
            self.nodes@[n as int].children is None,
            found == ids_within(self.nodes@[n as int].bucket@, centre, radius),
        ensures
            self.search_inv(rest, out + found, centre, radius),
    {
        let stack = rest.push(n);
        let f = self.forest@;
        let bucket = self.nodes@[n as int].bucket@;
        let total = out + found;
        assert(stack[rest.len() as int] == n);
        self.lemma_antichain_rest(rest, n);
        assert(self.node_ok(n as int, Set::empty()));
        lemma_ids_within_distinct(bucket, centre, radius);
        assert forall|k: int| 0 <= k < rest.len() implies #[trigger] rest[k]
            < self.nodes@.len() by {
            assert(stack[k] == rest[k]);
        }
        // what the leaf contributes
        assert forall|i: int| 0 <= i < found.len() implies {
            &&& self.model@.contains_key(#[trigger] found[i])
            &&& within_radius(self.model@[found[i]], centre, radius)
            &&& self.leaf_of(found[i]) == n
        } by {
            let e = found[i];
            assert(found.contains(e));
            lemma_ids_within_contains(bucket, centre, radius, e);
            let k = choose|k: int|
                0 <= k < bucket.len() && #[trigger] bucket[k].0 == e && within_radius(
                    bucket[k].1,
                    centre,
                    radius,
                );
            assert(self.entry_ok(n as int, k, Set::empty()));
        }
        assert forall|e: u64|
            #![auto]
            self.model@.contains_key(e) && within_radius(
                self.model@[e],
                centre,
                radius,
            ) implies total.contains(e) || self.pending(rest, e) by {
            self.lemma_pending_push(rest, n, e);
            if out.contains(e) {
                let i = choose|i: int| 0 <= i < out.len() && out[i] == e;
                assert(total[i] == e);
            } else if !self.pending(rest, e) {
                assert(self.entity_leaf@.contains_key(e));
                assert(self.located(e));
                self.lemma_under_leaf(n as int, self.leaf_of(e));
                let k = choose|k: int| 0 <= k < bucket.len() && #[trigger] bucket[k].0 == e;
                assert(self.entry_ok(n as int, k, Set::empty()));
                lemma_ids_within_contains(bucket, centre, radius, e);
                assert(found.contains(e));
                let i = choose|i: int| 0 <= i < found.len() && found[i] == e;
                assert(total[out.len() + i] == e);
            }
        }
        assert forall|i: int| 0 <= i < total.len() implies {
            &&& self.model@.contains_key(#[trigger] total[i])
            &&& within_radius(self.model@[total[i]], centre, radius)
            &&& !self.pending(rest, total[i])
        } by {
            let e = total[i];
            self.lemma_pending_push(rest, n, e);
            if i < out.len() {
                assert(out[i] == e);
            } else {
                assert(found[i - out.len()] == e);
                if self.pending(rest, e) {
                    let k = choose|k: int|
                        0 <= k < rest.len() && #[trigger] f.under(rest[k] as int, self.leaf_of(e));
                    assert(false);
                }
            }
        }
        assert forall|i: int, j: int|
            0 <= i < total.len() && 0 <= j < total.len() && i != j implies total[i]
            != total[j] by {
            if i < out.len() && j < out.len() {
                assert(out[i] != out[j]);
            } else if i >= out.len() && j >= out.len() {
                assert(found[i - out.len()] != found[j - out.len()]);
            } else {
                let (a, b) = if i < out.len() { (i, j) } else { (j, i) };
                assert(out[a] == total[a]);
                assert(found[b - out.len()] == total[b]);
                self.lemma_pending_push(rest, n, out[a]);
                f.lemma_under_root(n as int);
                assert(f.under(n as int, n as int)) by {
                    assert(f.up(n as int, 0) == n);
                }
            }
        }
    }

    /// An interior node is replaced by its eight children.
    proof fn lemma_search_interior(
        &self,
        rest: Seq<usize>,
        n: usize,
        out: Seq<u64>,
        centre: Position,
        radius: u64,
    )
        requires
            self.inv(Set::empty()),
            self.search_inv(rest.push(n), out, centre, radius),
            self.nodes@[n as int].children is Some,
        ensures
            self.search_inv(rest + self.nodes@[n as int].children->Some_0@, out, centre, radius),
    {
        let stack = rest.push(n);
        let f = self.forest@;
        let ch = self.nodes@[n as int].children->Some_0;
        let next = rest + ch@;
        let ni = n as int;
        assert(stack[rest.len() as int] == n);
        self.lemma_antichain_rest(rest, n);
        assert(self.node_ok(ni, Set::empty()));
        assert forall|k: int| 0 <= k < next.len() implies #[trigger] next[k]
            < self.nodes@.len() by {
            if k < rest.len() {
                assert(stack[k] == rest[k]);
            } else {
                assert(next[k] == ch[k - rest.len()]);
            }
        }
        // each child lies directly under the node
        assert forall|j: int| 0 <= j < 8 implies {
            &&& f.under(ni, #[trigger] ch[j] as int)
            &&& f.level[ch[j] as int] == f.level[ni] + 1
        } by {
            let c = ch[j] as int;
            assert(f.parent[c] == ni);
            assert(f.up(c, 1) == f.up(f.parent[c], 0));
        }
        assert forall|e: u64|
            #![auto]
            self.model@.contains_key(e) && within_radius(
                self.model@[e],
                centre,
                radius,
            ) implies out.contains(e) || self.pending(next, e) by {
            self.lemma_pending_push(rest, n, e);
            if self.pending(rest, e) {
                let k = choose|k: int|
                    0 <= k < rest.len() && #[trigger] f.under(rest[k] as int, self.leaf_of(e));
                assert(f.under(next[k] as int, self.leaf_of(e)));
            } else if !out.contains(e) {
                assert(self.entity_leaf@.contains_key(e));
                assert(self.located(e));
                let leaf = self.leaf_of(e);
                assert(self.node_ok(leaf, Set::empty()));
                let j = self.lemma_under_interior(ni, leaf);
                assert(next[rest.len() + j] == ch[j]);
                assert(f.under(next[rest.len() + j] as int, leaf));
            }
        }
        assert forall|i: int| 0 <= i < out.len() implies !self.pending(next, #[trigger] out[i]) by {
            let e = out[i];
            self.lemma_pending_push(rest, n, e);
            if self.pending(next, e) {
                let k = choose|k: int|
                    0 <= k < next.len() && #[trigger] f.under(next[k] as int, self.leaf_of(e));
                assert(self.entity_leaf@.contains_key(e));
                assert(self.located(e));
                if k < rest.len() {
                    assert(f.under(rest[k] as int, self.leaf_of(e)));
                } else {
                    let j = k - rest.len();
                    assert(next[k] == ch[j]);
                    f.lemma_under_trans(ni, ch[j] as int, self.leaf_of(e));
                }
            }
        }
        assert forall|a: int, b: int|
            0 <= a < next.len() && 0 <= b < next.len() && a != b implies !f.under(
            #[trigger] next[a] as int,
            #[trigger] next[b] as int,
        ) by {
            if f.under(next[a] as int, next[b] as int) {
                if a < rest.len() && b < rest.len() {
                    assert(rest[a] == next[a] && rest[b] == next[b]);
                } else if a >= rest.len() && b >= rest.len() {
                    let ja = a - rest.len();
                    let jb = b - rest.len();
                    assert(next[a] == ch[ja] && next[b] == ch[jb]);
                    assert(f.up(ch[jb] as int, 0) == ch[jb]);
                    assert(self.nodes@[ni].bounds.octant(ja) != self.nodes@[ni].bounds.octant(jb));
                } else if a < rest.len() {
                    let jb = b - rest.len();
                    assert(next[a] == rest[a] && next[b] == ch[jb]);
                    let r = rest[a] as int;
                    let c = ch[jb] as int;
                    if f.level[r] <= f.level[ni] {
                        f.lemma_under_comparable(r, ni, c);
                    } else {
                        assert(f.up(c, 0) == c);
                        assert(r == c);
                    }
                } else {
                    let ja = a - rest.len();
                    assert(next[a] == ch[ja] && next[b] == rest[b]);
                    f.lemma_under_trans(ni, ch[ja] as int, rest[b] as int);
                }
            }
        }
    }

    /// Lists the entities within `radius` of `sample_point`: a depth-first
    /// walk with an explicit stack, which drops every node whose padded cube
    /// the sphere does not reach and tests each entity of the leaves it
    /// arrives at.
    fn search(&self, sample_point: &Position, radius: u64) -> (out: Vec<u64>)
        requires
            self.inv(Set::empty()),
        ensures
            is_answer(out@, self.model@, *sample_point, radius),
    {
        let mut out: Vec<u64> = Vec::new();
        let mut stack: Vec<usize> = Vec::new();
        stack.push(0);
        proof {
            self.lemma_search_start(*sample_point, radius);
            assert(stack@ =~= seq![0usize]);
            assert(out@ =~= Seq::<u64>::empty());
        }
        while stack.len() > 0
            invariant
                self.inv(Set::empty()),
                self.search_inv(stack@, out@, *sample_point, radius),
            decreases pending_work(stack@, self.forest@.level, self.height@),
        {
            let ghost before = stack@;
            let idx = stack.pop().unwrap();
            let ghost rest = stack@;
            proof {
                assert(before =~= rest.push(idx));
                assert(before[rest.len() as int] == idx);
                assert(self.node_ok(idx as int, Set::empty()));
                lemma_pending_work_push(rest, idx, self.forest@.level, self.height@);
                lemma_subtree_bound_positive(
                    (self.height@ - self.forest@.level[idx as int]) as nat,
                );
            }
            let n = &self.nodes[idx];
            let cube = n.bounds.inflated(self.cfg.loose_padding);
            if !cube.intersects_sphere(sample_point, radius) {
                proof {
                    self.lemma_search_pruned(rest, idx, out@, *sample_point, radius);
                }
            } else if let Some(children) = n.children {
                let ghost gap = (self.height@ - self.forest@.level[idx as int]) as nat;
                let mut j: usize = 0;
                while j < 8
                    invariant
                        j <= 8,
                        self.inv(Set::empty()),
                        idx < self.nodes@.len(),
                        self.nodes@[idx as int].children == Some(children),
                        gap == self.height@ - self.forest@.level[idx as int],
                        stack@ == rest + children@.take(j as int),
                        pending_work(stack@, self.forest@.level, self.height@) == pending_work(
                            rest,
                            self.forest@.level,
                            self.height@,
                        ) + j * subtree_bound((gap - 1) as nat),
                    decreases 8 - j,
                {
                    proof {
                        assert(self.node_ok(idx as int, Set::empty()));
                        let c = children[j as int];
                        assert(self.node_ok(c as int, Set::empty()));
                        lemma_pending_work_push(stack@, c, self.forest@.level, self.height@);
                        assert(rest + children@.take(j + 1) =~= (rest + children@.take(
                            j as int,
                        )).push(c));
                        assert((j + 1) * subtree_bound((gap - 1) as nat) == j * subtree_bound(
                            (gap - 1) as nat,
                        ) + subtree_bound((gap - 1) as nat)) by (nonlinear_arith);
                    }
                    stack.push(children[j]);
                    j += 1;
                }
                proof {
                    assert(children@.take(8) =~= children@);
                    self.lemma_search_interior(rest, idx, out@, *sample_point, radius);
                    assert(self.node_ok(children[0] as int, Set::empty()));
                    assert(gap >= 1);
                }
            } else {
                let mut found = collect_ids_within(
                    n.bucket.as_slice(),
                    sample_point,
                    radius,
                );
                proof {
                    self.lemma_search_leaf(rest, idx, out@, found@, *sample_point, radius);
                }
                out.append(&mut found);
            }
        }
        proof {
            let index = self.model@;
            assert forall|e: u64|
                out@.to_set().contains(e) <==> answers(index, *sample_point, radius).contains(
                    e,
                ) by {
                if out@.contains(e) {
                    let i = choose|i: int| 0 <= i < out@.len() && out@[i] == e;
                    assert(index.contains_key(out@[i]));
                }
                if index.contains_key(e) && within_radius(index[e], *sample_point, radius) {
                    if self.pending(stack@, e) {
                        let k = choose|k: int|
                            0 <= k < stack@.len() && #[trigger] self.forest@.under(
                                stack@[k] as int,
                                self.leaf_of(e),
                            );
                    }
                }
            }
            assert(out@.to_set() =~= answers(index, *sample_point, radius));
        }
        out
    }

    /// The identifiers of `bucket` from position `from` on.
    spec fn ids_from(bucket: Seq<EntityPositionPair>, from: int) -> Set<u64> {
        Set::new(|e: u64| has_id(bucket.skip(from), e))
    }

    /// The arena of `self` continues that of `before`: the old nodes keep
    /// their cubes and depths, and the interior ones their children.
    spec fn extends(&self, before: Octree) -> bool {
        &&& self.cfg == before.cfg
        &&& self.built == before.built
        &&& self.nodes@.len() >= before.nodes@.len()
        &&& forall|i: int|
            0 <= i < before.nodes@.len() ==> {
                &&& (#[trigger] self.nodes@[i]).bounds == before.nodes@[i].bounds
                &&& self.nodes@[i].depth == before.nodes@[i].depth
                &&& (before.nodes@[i].children is Some ==> self.nodes@[i].children
                    == before.nodes@[i].children)
            }
    }

    /// An entity that no bucket holds is appended to a leaf's bucket.
    proof fn lemma_leaf_push(
        s0: Octree,
        s1: Octree,
        leaf: usize,
        e: u64,
        p: Position,
        exempt: Set<u64>,
    )
        requires
            s0.inv(exempt),
            ({
                let n = leaf as int;
                &&& 0 <= n < s0.nodes@.len()
                &&& s0.nodes@[n].children is None
                &&& s0.nodes@[n].bounds.holds(p, s0.cfg.loose_padding)
                &&& s1.nodes@.len() == s0.nodes@.len()
                &&& forall|i: int|
                    0 <= i < s0.nodes@.len() && i != n ==> s1.nodes@[i] == s0.nodes@[i]
                &&& s1.nodes@[n].bounds == s0.nodes@[n].bounds
                &&& s1.nodes@[n].depth == s0.nodes@[n].depth
                &&& s1.nodes@[n].children == s0.nodes@[n].children
                &&& s1.nodes@[n].bucket@ == s0.nodes@[n].bucket@.push((e, p))
            }),
            !s0.model@.contains_key(e) || exempt.contains(e),
            s1.cfg == s0.cfg,
            s1.built == s0.built,
            s1.forest@ == s0.forest@,
            s1.height@ == s0.height@,
            s1.entity_leaf@ == s0.entity_leaf@.insert(e, leaf),
            s1.model@ == s0.model@.insert(e, p),
        ensures
            s1.inv(exempt.remove(e)),
            s1.extends(s0),
            s0.tidy() ==> tidy_but(s1.nodes@, s1.cfg, leaf as int),
            s1.leaf_of(e) == leaf,
            s1.routed(s0, exempt.insert(e)),
    {
        let n = leaf as int;
        let after = exempt.remove(e);
        if s0.tidy() {
            assert forall|i: int| 0 <= i < s1.nodes@.len() && i != n implies tidy_node(
                #[trigger] s1.nodes@[i],
                s1.cfg,
            ) by {
                assert(tidy_node(s0.nodes@[i], s0.cfg));
            }
        }
        // no bucket of s0 holds e
        assert forall|i: int, k: int|
            0 <= i < s0.nodes@.len() && 0 <= k < s0.nodes@[i].bucket@.len() implies (
        #[trigger] s0.nodes@[i].bucket@[k]).0 != e by {
            assert(s0.node_ok(i, exempt));
            assert(s0.entry_ok(i, k, exempt));
        }
        assert forall|i: int| 0 <= i < s1.nodes@.len() implies #[trigger] s1.node_ok(i, after) by {
            assert(s0.node_ok(i, exempt));
            let pi = s0.forest@.parent[i];
            if i != 0 {
                assert(s0.is_child_of(i, pi));
                assert(s1.nodes@[pi].children == s0.nodes@[pi].children);
                let ch = s0.nodes@[pi].children->Some_0;
                let j = choose|j: int| 0 <= j < 8 && #[trigger] ch[j] == i;
                assert(ch[j] == i);
                assert(s1.is_child_of(i, pi));
            }
            let b0 = s0.nodes@[i].bucket@;
            let b1 = s1.nodes@[i].bucket@;
            assert forall|k: int| 0 <= k < b1.len() implies #[trigger] s1.entry_ok(i, k, after) by {
                if k < b0.len() {
                    assert(s0.entry_ok(i, k, exempt));
                    assert(b1[k] == b0[k]);
                }
            }
            if i == n {
                assert forall|a: int, b: int| 0 <= a < b < b1.len() implies b1[a].0 != b1[b].0 by {
                    if b < b0.len() {
                        assert(b0[a].0 != b0[b].0);
                    }
                }
            }
            if s1.nodes@[i].children is Some {
                let ch = s1.nodes@[i].children->Some_0;
                assert forall|j: int| 0 <= j < 8 implies {
                    &&& 1 <= #[trigger] ch[j] < s1.nodes@.len()
                    &&& s1.forest@.parent[ch[j] as int] == i
                    &&& s1.nodes@[ch[j] as int].bounds == s1.nodes@[i].bounds.octant(j)
                } by {
                    assert(1 <= ch[j] < s0.nodes@.len());
                }
            }
        }
        assert forall|x: u64| s1.entity_leaf@.contains_key(x) && !after.contains(x) implies
            #[trigger] s1.located(x) by {
            if x == e {
                let b1 = s1.nodes@[n].bucket@;
                assert(b1[b1.len() - 1].0 == e);
            } else {
                assert(s0.located(x));
                let at = s0.leaf_of(x);
                let b0 = s0.nodes@[at].bucket@;
                let k = choose|k: int| 0 <= k < b0.len() && #[trigger] b0[k].0 == x;
                assert(s1.nodes@[at].bucket@[k].0 == x);
            }
        }
        assert(s1.inv(after));
        assert forall|x: u64|
            s0.entity_leaf@.contains_key(x) && !exempt.insert(e).contains(x) implies
            #[trigger] s1.routed_one(s0, x) by {
            s1.lemma_descend_from_leaf(after, x, s0.model@[x]);
        }
    }

    /// A leaf has been given eight fresh children, and its bucket has been
    /// taken out: the entities of the bucket are in flight.
    proof fn lemma_leaf_split(s0: Octree, s1: Octree, n: int, exempt: Set<u64>)
        requires
            s0.inv(exempt),
            0 <= n < s0.nodes@.len(),
            s0.nodes@[n].children is None,
            s0.nodes@[n].bounds.half >= 2,
            s1.cfg == s0.cfg,
            s1.built == s0.built,
            s1.model@ == s0.model@,
            s1.entity_leaf@ == s0.entity_leaf@,
            s1.nodes@.len() == s0.nodes@.len() + 8,
            forall|i: int| 0 <= i < s0.nodes@.len() && i != n ==> s1.nodes@[i] == s0.nodes@[i],
            s1.nodes@[n].bounds == s0.nodes@[n].bounds,
            s1.nodes@[n].depth == s0.nodes@[n].depth,
            s1.nodes@[n].bucket@.len() == 0,
            s1.nodes@[n].children is Some,
            forall|j: int|
                0 <= j < 8 ==> {
                    &&& #[trigger] s1.nodes@[n].children->Some_0[j] == s0.nodes@.len() + j
                    &&& s1.nodes@[s0.nodes@.len() + j].bounds == s0.nodes@[n].bounds.octant(j)
                    &&& s1.nodes@[s0.nodes@.len() + j].children is None
                    &&& s1.nodes@[s0.nodes@.len() + j].bucket@.len() == 0
                },
            s1.forest@.parent == s0.forest@.parent + Seq::new(8, |j: int| n),
            s1.forest@.level == s0.forest@.level + Seq::new(
                8,
                |j: int| (s0.forest@.level[n] + 1) as nat,
            ),
            s1.height@ >= s0.height@,
            s1.height@ >= s0.forest@.level[n] + 1,
        ensures
            s1.inv(exempt.union(Self::ids_from(s0.nodes@[n].bucket@, 0))),
            s1.extends(s0),
            tidy_but(s0.nodes@, s0.cfg, n) ==> s1.tidy(),
            s1.routed(s0, exempt.union(Self::ids_from(s0.nodes@[n].bucket@, 0))),
    {
        let base = s0.nodes@.len() as int;
        if tidy_but(s0.nodes@, s0.cfg, n) {
            assert forall|i: int| 0 <= i < s1.nodes@.len() implies tidy_node(
                #[trigger] s1.nodes@[i],
                s1.cfg,
            ) by {
                if i < base && i != n {
                    assert(tidy_node(s0.nodes@[i], s0.cfg));
                } else if i >= base {
                    let j = i - base;
                    assert(s1.nodes@[n].children->Some_0[j] == base + j);
                }
            }
        }
        let bucket = s0.nodes@[n].bucket@;
        let after = exempt.union(Self::ids_from(bucket, 0));
        let ch = s1.nodes@[n].children->Some_0;
        assert(s0.node_ok(n, exempt));
        assert(bucket.skip(0) =~= bucket);
        lemma_octant_holds(s0.nodes@[n].bounds, Position { x: 0, y: 0, z: 0 }, 0);
        // no node of s0 has the leaf as its parent
        assert forall|i: int| 1 <= i < base implies #[trigger] s0.forest@.parent[i] != n by {
            assert(s0.node_ok(i, exempt));
            assert(s0.is_child_of(i, s0.forest@.parent[i]));
        }
        assert(s1.forest@.wf()) by {
            assert forall|i: int| 1 <= i < s1.forest@.len() implies {
                &&& 0 <= #[trigger] s1.forest@.parent[i] < s1.forest@.len()
                &&& s1.forest@.level[i] == s1.forest@.level[s1.forest@.parent[i]] + 1
            } by {
                if i < base {
                    assert(s0.forest@.parent[i] == s1.forest@.parent[i]);
                }
            }
        }
        assert forall|i: int| 0 <= i < s1.nodes@.len() implies #[trigger] s1.node_ok(i, after) by {
            if i < base {
                assert(s0.node_ok(i, exempt));
                let pi = s0.forest@.parent[i];
                if i != 0 {
                    assert(s0.is_child_of(i, pi));
                    assert(pi != n);
                    let pch = s0.nodes@[pi].children->Some_0;
                    let j = choose|j: int| 0 <= j < 8 && #[trigger] pch[j] == i;
                    assert(pch[j] == i);
                    assert(s1.is_child_of(i, pi));
                }
                if i == n {
                    assert forall|j: int| 0 <= j < 8 implies {
                        &&& 1 <= #[trigger] ch[j] < s1.nodes@.len()
                        &&& s1.forest@.parent[ch[j] as int] == i
                        &&& s1.nodes@[ch[j] as int].bounds == s1.nodes@[i].bounds.octant(j)
                    } by {
                        assert(ch[j] == base + j);
                    }
                } else {
                    let b0 = s0.nodes@[i].bucket@;
                    assert forall|k: int| 0 <= k < b0.len() implies #[trigger] s1.entry_ok(
                        i,
                        k,
                        after,
                    ) by {
                        assert(s0.entry_ok(i, k, exempt));
                        let x = b0[k].0;
                        if has_id(bucket, x) {
                            let t = choose|t: int| 0 <= t < bucket.len() && #[trigger] bucket[t].0 == x;
                            assert(s0.entry_ok(n, t, exempt));
                        }
                    }
                    if s1.nodes@[i].children is Some {
                        let ich = s1.nodes@[i].children->Some_0;
                        assert forall|j: int| 0 <= j < 8 implies {
                            &&& 1 <= #[trigger] ich[j] < s1.nodes@.len()
                            &&& s1.forest@.parent[ich[j] as int] == i
                            &&& s1.nodes@[ich[j] as int].bounds == s1.nodes@[i].bounds.octant(j)
                        } by {
                            assert(1 <= ich[j] < base);
                            assert(s0.forest@.parent[ich[j] as int] == i);
                        }
                    }
                }
            } else {
                let j = i - base;
                assert(ch[j] == i);
                assert(s1.is_child_of(i, n));
                assert(s1.forest@.parent[i] == n);
            }
        }
        assert forall|x: u64| s1.entity_leaf@.contains_key(x) && !after.contains(x) implies
            #[trigger] s1.located(x) by {
            assert(s0.located(x));
            let leaf = s0.leaf_of(x);
            if leaf == n {
                assert(has_id(bucket, x));
                assert(Self::ids_from(bucket, 0).contains(x));
            }
        }
        assert(s1.inv(after));
        assert forall|x: u64| s0.entity_leaf@.contains_key(x) && !after.contains(x) implies
            #[trigger] s1.routed_one(s0, x) by {
            s1.lemma_descend_from_leaf(after, x, s0.model@[x]);
        }
    }

    /// The leaf in slot `n` of `before` has been split: its children are the
    /// eight slots added behind the arena of `before`, in the order of the
    /// octants, each with the cube of its octant and one level deeper.
    spec fn split_from(&self, before: Octree, n: int) -> bool {
        let base = before.nodes@.len();
        &&& self.nodes@[n].children is Some
        &&& self.nodes@.len() >= base + 8
        &&& forall|j: int|
            0 <= j < 8 ==> {
                &&& #[trigger] self.nodes@[n].children->Some_0[j] == base + j
                &&& self.nodes@[base + j].bounds == before.nodes@[n].bounds.octant(j)
                &&& self.nodes@[base + j].depth == before.nodes@[n].depth + 1
            }
    }

    /// Turns an overfull leaf into an interior node with eight fresh leaves
    /// and hands its entities down to them. A leaf at the depth limit, one
    /// whose half-extent halved is below the smallest size, and one of
    /// half-extent 1 are left as they are.
    fn split_leaf(&mut self, node_idx: usize, Ghost(exempt): Ghost<Set<u64>>)
        requires
            old(self).inv(exempt),
            node_idx < old(self).nodes@.len(),
            old(self).nodes@[node_idx as int].children is None,
            tidy_but(old(self).nodes@, old(self).cfg, node_idx as int),
        ensures
            final(self).inv(exempt),
            final(self).tidy(),
            final(self).extends(*old(self)),
            final(self).model@ == old(self).model@,
            final(self).routed(*old(self), exempt),
            !old(self).can_split(node_idx as int) ==> *final(self) == *old(self),
            old(self).can_split(node_idx as int) ==> final(self).split_from(
                *old(self),
                node_idx as int,
            ),
        decreases old(self).nodes@[node_idx as int].bounds.half, 2int,
    {
        let bounds = self.nodes[node_idx].bounds;
        let depth = self.nodes[node_idx].depth;
        let half = bounds.half;
        proof {
            assert(self.node_ok(node_idx as int, exempt));
        }
        if depth >= self.cfg.max_depth || half < 2 || half / 2 < self.cfg.min_half_size as i64 {
            proof {
                assert forall|x: u64|
                    self.entity_leaf@.contains_key(x) && !exempt.contains(x) implies
                    #[trigger] self.routed_one(*self, x) by {
                    self.lemma_descend_from_leaf(exempt, x, self.model@[x]);
                }
            }
            return ;
        }
        let step = half / 2;
        let child_half = half - step;
        let base = self.nodes.len();
        let ghost s0 = *self;
        let ghost level = (s0.forest@.level[node_idx as int] + 1) as nat;
        let mut children = [0usize;8];
        let mut i: usize = 0;
        while i < 8
            invariant
                i <= 8,
                base == s0.nodes@.len(),
                node_idx < base,
                bounds == s0.nodes@[node_idx as int].bounds,
                bounds.fits(),
                half == bounds.half,
                step == half / 2,
                child_half == half - step,
                half >= 2,
                depth < 255,
                depth == s0.nodes@[node_idx as int].depth,
                self.cfg == s0.cfg,
                self.built == s0.built,
                self.model@ == s0.model@,
                self.entity_leaf@ == s0.entity_leaf@,
                self.height@ == s0.height@,
                self.nodes@.len() == base + i,
                forall|t: int| 0 <= t < base ==> self.nodes@[t] == s0.nodes@[t],
                forall|j: int|
                    0 <= j < i ==> {
                        &&& #[trigger] children[j] == base + j
                        &&& self.nodes@[base + j].bounds == bounds.octant(j)
                        &&& self.nodes@[base + j].depth == depth + 1
                        &&& self.nodes@[base + j].children is None
                        &&& self.nodes@[base + j].bucket@.len() == 0
                    },
                self.forest@.parent == s0.forest@.parent + Seq::new(i as nat, |j: int| node_idx as int),
                self.forest@.level == s0.forest@.level + Seq::new(i as nat, |j: int| level),
            decreases 8 - i,
        {
            let ox = if i % 2 == 1 { step } else { -step };
            let oy = if (i / 2) % 2 == 1 { step } else { -step };
            let oz = if (i / 4) % 2 == 1 { step } else { -step };
            let child = Node {
                bounds: AabbCube {
                    cx: bounds.cx + ox,
                    cy: bounds.cy + oy,
                    cz: bounds.cz + oz,
                    half: child_half,
                },
                depth: depth + 1,
                children: None,
                bucket: Vec::new(),
            };
            let idx = self.nodes.len();
            let ghost before = children;
            let ghost nodes_before = self.nodes@;
            let ghost fresh = child;
            self.nodes.push(child);
            children[i] = idx;
            proof {
                assert(fresh.bounds == bounds.octant(i as int));
                assert(self.nodes@ == nodes_before.push(fresh));
                assert forall|j: int| 0 <= j < i + 1 implies {
                    &&& #[trigger] children[j] == base + j
                    &&& self.nodes@[base + j].bounds == bounds.octant(j)
                    &&& self.nodes@[base + j].depth == depth + 1
                    &&& self.nodes@[base + j].children is None
                    &&& self.nodes@[base + j].bucket@.len() == 0
                } by {
                    if j < i {
                        assert(before[j] == base + j);
                        assert(self.nodes@[base + j] == nodes_before[base + j]);
                    } else {
                        assert(self.nodes@[base + j] == fresh);
                    }
                }
                let f = self.forest@;
                self.forest = Ghost(
                    Forest { parent: f.parent.push(node_idx as int), level: f.level.push(level) },
                );
                assert(self.forest@.parent =~= s0.forest@.parent + Seq::new(
                    (i + 1) as nat,
                    |j: int| node_idx as int,
                ));
                assert(self.forest@.level =~= s0.forest@.level + Seq::new(
                    (i + 1) as nat,
                    |j: int| level,
                ));
            }
            i += 1;
        }
        // take the bucket and hand its entities down
        let ghost after_children = self.nodes@;
        let mut bucket: Vec<EntityPositionPair> = Vec::new();
        std::mem::swap(&mut bucket, &mut self.nodes[node_idx].bucket);
        self.nodes[node_idx].children = Some(children);
        proof {
            if self.height@ < level {
                self.height = Ghost(level);
            }
            assert forall|j: int| 0 <= j < 8 implies {
                &&& #[trigger] self.nodes@[node_idx as int].children->Some_0[j] == base + j
                &&& self.nodes@[base + j].bounds == bounds.octant(j)
                &&& self.nodes@[base + j].depth == depth + 1
                &&& self.nodes@[base + j].children is None
                &&& self.nodes@[base + j].bucket@.len() == 0
            } by {
                assert(children[j] == base + j);
                assert(self.nodes@[base + j] == after_children[base + j]);
            }
            Self::lemma_leaf_split(s0, *self, node_idx as int, exempt);
            assert(s0.node_ok(node_idx as int, exempt));
            assert(bucket@.skip(0) =~= bucket@);
        }
        let ghost s1 = *self;
        let mut k: usize = 0;
        while k < bucket.len()
            invariant
                k <= bucket@.len(),
                bucket@ == s0.nodes@[node_idx as int].bucket@,
                s0.inv(exempt),
                s0.node_ok(node_idx as int, exempt),
                node_idx < s0.nodes@.len(),
                self.inv(exempt.union(Self::ids_from(bucket@, k as int))),
                self.tidy(),
                self.extends(s1),
                s1.extends(s0),
                s1.nodes@[node_idx as int].children is Some,
                self.model@ == s0.model@,
                half == s0.nodes@[node_idx as int].bounds.half,
                half == old(self).nodes@[node_idx as int].bounds.half,
                s1.nodes@.len() == s0.nodes@.len() + 8,
                self.routed(s0, exempt.union(Self::ids_from(bucket@, k as int))),
                s0 == *old(self),
                base == s0.nodes@.len(),
                bounds == s0.nodes@[node_idx as int].bounds,
                depth == s0.nodes@[node_idx as int].depth,
                forall|j: int|
                    0 <= j < 8 ==> {
                        &&& #[trigger] s1.nodes@[node_idx as int].children->Some_0[j] == base + j
                        &&& s1.nodes@[base + j].bounds == bounds.octant(j)
                        &&& s1.nodes@[base + j].depth == depth + 1
                    },
            decreases bucket@.len() - k,
        {
            let (e, p) = bucket[k];
            let ghost flying = exempt.union(Self::ids_from(bucket@, k as int));
            proof {
                assert(s0.entry_ok(node_idx as int, k as int, exempt));
                assert(bucket@.skip(k as int)[0] == bucket@[k as int]);
                assert(has_id(bucket@.skip(k as int), e));
                assert(flying.contains(e));
                assert(self.nodes@[node_idx as int].bounds == s0.nodes@[node_idx as int].bounds);
                assert(self.nodes@[node_idx as int].children is Some);
            }
            let ghost mid = *self;
            self.insert_into(node_idx, e, p, Ghost(flying));
            proof {
                let rest = exempt.union(Self::ids_from(bucket@, k + 1));
                mid.lemma_inv_shaped(flying);
                self.lemma_inv_shaped(flying.remove(e));
                assert forall|x: u64| s0.entity_leaf@.contains_key(x) && !rest.contains(x) implies
                    #[trigger] self.routed_one(s0, x) by {
                    if x != e {
                        assert(!flying.contains(x)) by {
                            if has_id(bucket@.skip(k as int), x) {
                                let tail = bucket@.skip(k as int);
                                let t = choose|t: int| 0 <= t < tail.len() && #[trigger] tail[t].0 == x;
                                assert(bucket@.skip(k + 1)[t - 1].0 == x);
                            }
                        }
                        assert(mid.routed_one(s0, x));
                        assert(mid.entity_leaf@.contains_key(x));
                        assert(self.routed_one(mid, x));
                        assert(s0.located(x));
                        Self::lemma_descend_through(mid, *self, s0.leaf_of(x), s0.model@[x]);
                    }
                }
                assert forall|x: u64| flying.remove(e).contains(x) <==> rest.contains(x) by {
                    let tail = bucket@.skip(k as int);
                    let next = bucket@.skip(k + 1);
                    if has_id(next, x) {
                        let t = choose|t: int| 0 <= t < next.len() && #[trigger] next[t].0 == x;
                        assert(tail[t + 1].0 == x);
                        assert(bucket@[k as int].0 != bucket@[k + 1 + t].0);
                    }
                    if has_id(tail, x) && x != e {
                        let t = choose|t: int| 0 <= t < tail.len() && #[trigger] tail[t].0 == x;
                        assert(next[t - 1].0 == x);
                    }
                }
                assert(flying.remove(e) =~= rest);
                assert(self.model@ =~= s0.model@);
            }
            k += 1;
        }
        proof {
            assert forall|x: u64| !Self::ids_from(bucket@, k as int).contains(x) by {
                assert(bucket@.skip(k as int).len() == 0);
            }
            assert(exempt.union(Self::ids_from(bucket@, k as int)) =~= exempt);
            assert forall|j: int| 0 <= j < 8 implies {
                &&& #[trigger] self.nodes@[node_idx as int].children->Some_0[j] == base + j
                &&& self.nodes@[base + j].bounds == bounds.octant(j)
                &&& self.nodes@[base + j].depth == depth + 1
            } by {
                assert(s1.nodes@[node_idx as int].children->Some_0[j] == base + j);
                assert(self.nodes@[node_idx as int].children == s1.nodes@[node_idx as int].children);
                assert(self.nodes@[base + j].bounds == s1.nodes@[base + j].bounds);
                assert(self.nodes@[base + j].depth == s1.nodes@[base + j].depth);
            }
            assert(self.nodes@[node_idx as int].children is Some);
            assert(self.nodes@.len() >= base + 8);
            assert(self.split_from(s0, node_idx as int));
        }
    }

    /// Hands an entity that no bucket holds down from `node_idx` to the leaf
    /// whose octants it belongs to, and splits that leaf if its bucket has
    /// grown beyond the threshold.
    fn insert_into(&mut self, node_idx: usize, e: u64, p: Position, Ghost(exempt): Ghost<Set<u64>>)
        requires
            old(self).inv(exempt),
            node_idx < old(self).nodes@.len(),
            old(self).nodes@[node_idx as int].bounds.holds(p, old(self).cfg.loose_padding),
            !old(self).model@.contains_key(e) || exempt.contains(e),
            old(self).tidy(),
        ensures
            final(self).inv(exempt.remove(e)),
            final(self).tidy(),
            final(self).extends(*old(self)),
            final(self).model@ == old(self).model@.insert(e, p),
            final(self).leaf_of(e) == final(self).descend(node_idx as int, p),
            final(self).nodes@[final(self).leaf_of(e)].bucket@.contains((e, p)),
            final(self).routed(*old(self), exempt.insert(e)),
        decreases
                old(self).nodes@[node_idx as int].bounds.half,
                (if old(self).nodes@[node_idx as int].children is Some {
                    1int
                } else {
                    3int
                }),
    {
        proof {
            assert(self.node_ok(node_idx as int, exempt));
        }
        if let Some(children) = self.nodes[node_idx].children {
            let ci = self.nodes[node_idx].bounds.child_index(&p);
            let child = children[ci];
            proof {
                lemma_octant_holds(self.nodes@[node_idx as int].bounds, p, self.cfg.loose_padding);
                assert(self.node_ok(child as int, exempt));
            }
            self.insert_into(child, e, p, Ghost(exempt));
            proof {
                self.lemma_inv_shaped(exempt.remove(e));
                assert(self.shaped_at(node_idx as int));
                assert(self.nodes@[node_idx as int].children == Some(children));
            }
            return ;
        }
        // leaf
        let ghost s0 = *self;
        self.nodes[node_idx].bucket.push((e, p));
        self.entity_leaf.insert(e, node_idx);
        proof {
            self.model = Ghost(self.model@.insert(e, p));
            Self::lemma_leaf_push(s0, *self, node_idx, e, p, exempt);
            self.lemma_descend_from_leaf(exempt.remove(e), e, p);
        }
        let ghost s1 = *self;
        let len = self.nodes[node_idx].bucket.len();
        if len > self.cfg.split_threshold {
            self.split_leaf(node_idx, Ghost(exempt.remove(e)));
            proof {
                assert(self.routed_one(s1, e));
                assert forall|x: u64|
                    s0.entity_leaf@.contains_key(x) && !exempt.insert(e).contains(x) implies
                    #[trigger] self.routed_one(s0, x) by {
                    assert(s1.routed_one(s0, x));
                    assert(self.routed_one(s1, x));
                    s1.lemma_descend_from_leaf(exempt.remove(e), x, s0.model@[x]);
                }
            }
        }
        proof {
            // the bucket of the leaf holds the pair
            let after = exempt.remove(e);
            assert(self.located(e));
            let leaf = self.leaf_of(e);
            assert(self.node_ok(leaf, after));
            let bucket = self.nodes@[leaf].bucket@;
            let k = choose|k: int| 0 <= k < bucket.len() && #[trigger] bucket[k].0 == e;
            assert(self.entry_ok(leaf, k, after));
            assert(bucket[k] == (e, p));
        }
    }

    /// One of the first `upto` entries of `children` names the slot `t`.
    spec fn names(children: [usize; 8], upto: int, t: int) -> bool {
        exists|j: int| 0 <= j < upto && #[trigger] children[j] == t
    }

    /// The slot of a node after the old root has moved from slot 0 to slot
    /// `moved`.
    spec fn relocated(slot: int, moved: int) -> int {
        if slot == 0 {
            moved
        } else {
            slot
        }
    }

    /// The shape of the tree after the root has been put under a new root:
    /// the old root sits in slot `moved`, every old node is one level
    /// deeper, and the slots behind `moved` hold children of the new root.
    spec fn grown_forest(before: Forest, moved: int, len: nat) -> Forest {
        Forest {
            parent: Seq::new(
                len,
                |i: int|
                    if 1 <= i < moved {
                        Self::relocated(before.parent[i], moved)
                    } else {
                        0
                    },
            ),
            level: Seq::new(
                len,
                |i: int|
                    if i == 0 {
                        0nat
                    } else if i < moved {
                        before.level[i] + 1
                    } else {
                        1nat
                    },
            ),
        }
    }

    /// The root has been put under a new root twice its size.
    proof fn lemma_grow(s0: Octree, s2: Octree, p: Position, moved: usize)
        requires
            s0.inv(Set::empty()),
            !s0.nodes@[0].bounds.holds(p, s0.cfg.loose_padding),
            moved == s0.nodes@.len(),
            s2.cfg == s0.cfg,
            s2.built == s0.built,
            s2.model@ == s0.model@,
            s2.height@ == s0.height@ + 1,
            s2.nodes@.len() > moved,
            s2.forest@ == Self::grown_forest(s0.forest@, moved as int, s2.nodes@.len()),
            forall|i: int| 1 <= i < moved ==> s2.nodes@[i] == s0.nodes@[i],
            s2.nodes@[moved as int] == s0.nodes@[0],
            s2.nodes@[0].bounds == s0.nodes@[0].bounds.grown_towards(p),
            s2.nodes@[0].bucket@.len() == 0,
            s2.nodes@[0].children is Some,
            forall|j: int|
                0 <= j < 8 ==> {
                    let c = #[trigger] s2.nodes@[0].children->Some_0[j];
                    if j == s0.nodes@[0].bounds.octant_in_grown(p) {
                        c == moved
                    } else {
                        &&& moved < c < s2.nodes@.len()
                        &&& s2.nodes@[c as int].bounds == s2.nodes@[0].bounds.octant(j)
                        &&& s2.nodes@[c as int].children is None
                        &&& s2.nodes@[c as int].bucket@.len() == 0
                    }
                },
            forall|t: int| moved < t < s2.nodes@.len() ==> #[trigger] s2.is_child_of(t, 0),
            s2.entity_leaf@.dom() =~= s0.entity_leaf@.dom(),
            forall|e: u64|
                s0.entity_leaf@.contains_key(e) ==> #[trigger] s2.entity_leaf@[e] == Self::relocated(
                    s0.entity_leaf@[e] as int,
                    moved as int,
                ),
        ensures
            s2.inv(Set::empty()),
            s0.tidy() ==> s2.tidy(),
    {
        let none = Set::<u64>::empty();
        let k = moved as int;
        if s0.tidy() {
            assert forall|i: int| 0 <= i < s2.nodes@.len() implies tidy_node(
                #[trigger] s2.nodes@[i],
                s2.cfg,
            ) by {
                if 1 <= i < k {
                    assert(tidy_node(s0.nodes@[i], s0.cfg));
                } else if i == k {
                    assert(tidy_node(s0.nodes@[0], s0.cfg));
                } else if i > k {
                    assert(s2.is_child_of(i, 0));
                    let ch = s2.nodes@[0].children->Some_0;
                    let j = choose|j: int| 0 <= j < 8 && #[trigger] ch[j] == i;
                    assert(ch[j] == i);
                }
            }
        }
        let f0 = s0.forest@;
        let f2 = s2.forest@;
        let old = s0.nodes@[0].bounds;
        let new = s2.nodes@[0].bounds;
        let cj = old.octant_in_grown(p);
        let ch = s2.nodes@[0].children->Some_0;
        assert(s0.node_ok(0, none));
        lemma_grown_cube(old, p, s0.cfg.loose_padding);
        lemma_octant_holds(new, p, 0);
        assert(ch[cj] == k);
        // where each old node sits now
        let at = |i: int| Self::relocated(i, k);
        assert forall|i: int| 0 <= i < k implies s2.nodes@[at(i)] == s0.nodes@[i] by {}
        assert(f2.wf()) by {
            assert forall|i: int| 1 <= i < f2.len() implies {
                &&& 0 <= #[trigger] f2.parent[i] < f2.len()
                &&& f2.level[i] == f2.level[f2.parent[i]] + 1
            } by {
                if i < k {
                    let q = f0.parent[i];
                    assert(0 <= q < k);
                    if q != 0 {
                        assert(f0.level[q] == f0.level[f0.parent[q]] + 1);
                    }
                }
            }
        }
        assert forall|i: int| 0 <= i < s2.nodes@.len() implies #[trigger] s2.node_ok(i, none) by {
            if i == 0 {
                assert forall|j: int| 0 <= j < 8 implies {
                    &&& 1 <= #[trigger] ch[j] < s2.nodes@.len()
                    &&& f2.parent[ch[j] as int] == 0
                    &&& s2.nodes@[ch[j] as int].bounds == new.octant(j)
                } by {
                    if j == cj {
                    }
                }
            } else if i <= k {
                // an old node: slot i held it before, unless it is the old root
                let was = if i == k { 0 } else { i };
                assert(s0.node_ok(was, none));
                assert(s2.nodes@[i] == s0.nodes@[was]);
                if i == k {
                    assert(s2.is_child_of(i, 0));
                } else {
                    let q = f0.parent[i];
                    assert(s0.is_child_of(i, q));
                    let pch = s0.nodes@[q].children->Some_0;
                    let j = choose|j: int| 0 <= j < 8 && #[trigger] pch[j] == i;
                    assert(s2.nodes@[at(q)] == s0.nodes@[q]);
                    assert(pch[j] == i);
                    assert(s2.is_child_of(i, at(q)));
                }
                let bucket = s2.nodes@[i].bucket@;
                assert forall|t: int| 0 <= t < bucket.len() implies #[trigger] s2.entry_ok(
                    i,
                    t,
                    none,
                ) by {
                    assert(s0.entry_ok(was, t, none));
                }
                if s2.nodes@[i].children is Some {
                    let ich = s2.nodes@[i].children->Some_0;
                    assert forall|j: int| 0 <= j < 8 implies {
                        &&& 1 <= #[trigger] ich[j] < s2.nodes@.len()
                        &&& f2.parent[ich[j] as int] == i
                        &&& s2.nodes@[ich[j] as int].bounds == s2.nodes@[i].bounds.octant(j)
                    } by {
                        assert(1 <= ich[j] < k);
                        assert(f0.parent[ich[j] as int] == was);
                    }
                }
            } else {
                assert(s2.is_child_of(i, 0));
                let j = choose|j: int| 0 <= j < 8 && #[trigger] ch[j] == i;
                assert(ch[j] == i);
                assert(j != cj);
            }
        }
        assert forall|e: u64| s2.entity_leaf@.contains_key(e) implies #[trigger] s2.located(e) by {
            assert(s0.entity_leaf@.contains_key(e));
            assert(s0.located(e));
            assert(s2.entity_leaf@[e] == Self::relocated(s0.entity_leaf@[e] as int, k));
        }
    }

    /// Points the entities of the leaf in slot `idx` to that slot, after the
    /// leaf has moved there from slot 0. An interior node holds none.
    fn fix_leaf_indices(&mut self, idx: usize, Ghost(before): Ghost<Map<u64, usize>>)
        requires
            idx < old(self).nodes@.len(),
            old(self).entity_leaf@ == before,
            old(self).nodes@[idx as int].children is Some ==> old(self).nodes@[idx as int].bucket@.len() == 0,
            forall|t: int|
                0 <= t < old(self).nodes@[idx as int].bucket@.len() ==> {
                    &&& before.contains_key(#[trigger] old(self).nodes@[idx as int].bucket@[t].0)
                    &&& before[old(self).nodes@[idx as int].bucket@[t].0] == 0
                },
            forall|e: u64|
                before.contains_key(e) && before[e] == 0 ==> has_id(
                    old(self).nodes@[idx as int].bucket@,
                    e,
                ),
        ensures
            final(self).cfg == old(self).cfg,
            final(self).built == old(self).built,
            final(self).nodes == old(self).nodes,
            final(self).model == old(self).model,
            final(self).forest == old(self).forest,
            final(self).height == old(self).height,
            final(self).entity_leaf@.dom() =~= before.dom(),
            forall|e: u64|
                before.contains_key(e) ==> #[trigger] final(self).entity_leaf@[e]
                    == Self::relocated(before[e] as int, idx as int),
    {
        if self.nodes[idx].is_leaf() {
            let mut t: usize = 0;
            while t < self.nodes[idx].bucket.len()
                invariant
                    idx < self.nodes@.len(),
                    t <= self.nodes@[idx as int].bucket@.len(),
                    self.cfg == old(self).cfg,
                    self.built == old(self).built,
                    self.nodes == old(self).nodes,
                    self.model == old(self).model,
                    self.forest == old(self).forest,
                    self.height == old(self).height,
                    self.entity_leaf@.dom() =~= before.dom(),
                    forall|i: int|
                        0 <= i < self.nodes@[idx as int].bucket@.len() ==> {
                            &&& before.contains_key(#[trigger] self.nodes@[idx as int].bucket@[i].0)
                            &&& before[self.nodes@[idx as int].bucket@[i].0] == 0
                        },
                    forall|e: u64|
                        before.contains_key(e) ==> #[trigger] self.entity_leaf@[e] == (if has_id(
                            self.nodes@[idx as int].bucket@.take(t as int),
                            e,
                        ) {
                            idx
                        } else {
                            before[e]
                        }),
                decreases self.nodes@[idx as int].bucket@.len() - t,
            {
                let (e, _) = self.nodes[idx].bucket[t];
                let ghost bucket = self.nodes@[idx as int].bucket@;
                let ghost map = self.entity_leaf@;
                self.entity_leaf.insert(e, idx);
                proof {
                    assert(bucket[t as int].0 == e);
                    assert forall|x: u64| before.contains_key(x) implies #[trigger] self.entity_leaf@[x]
                        == (if has_id(bucket.take(t + 1), x) {
                        idx
                    } else {
                        before[x]
                    }) by {
                        let shorter = bucket.take(t as int);
                        let longer = bucket.take(t + 1);
                        assert(map[x] == (if has_id(shorter, x) {
                            idx
                        } else {
                            before[x]
                        }));
                        if has_id(shorter, x) {
                            let i = choose|i: int| 0 <= i < shorter.len() && #[trigger] shorter[i].0 == x;
                            assert(longer[i].0 == x);
                        }
                        if x == e {
                            assert(longer[t as int].0 == x);
                        }
                        if has_id(longer, x) && x != e {
                            let i = choose|i: int| 0 <= i < longer.len() && #[trigger] longer[i].0 == x;
                            assert(shorter[i].0 == x);
                        }
                    }
                }
                t += 1;
            }
            proof {
                let bucket = self.nodes@[idx as int].bucket@;
                assert(bucket.take(t as int) =~= bucket);
                assert forall|e: u64| before.contains_key(e) implies #[trigger] self.entity_leaf@[e]
                    == Self::relocated(before[e] as int, idx as int) by {
                    if has_id(bucket, e) {
                        let i = choose|i: int| 0 <= i < bucket.len() && #[trigger] bucket[i].0 == e;
                        assert(before[bucket[i].0] == 0);
                    }
                }
            }
        } else {
            proof {
                assert forall|e: u64| before.contains_key(e) implies #[trigger] self.entity_leaf@[e]
                    == Self::relocated(before[e] as int, idx as int) by {
                    if before[e] == 0 {
                        let bucket = self.nodes@[idx as int].bucket@;
                        assert(has_id(bucket, e));
                        let i = choose|i: int| 0 <= i < bucket.len() && #[trigger] bucket[i].0 == e;
                    }
                }
            }
        }
    }

    /// Grows the tree until the root's padded cube holds `p`: the root is
    /// doubled towards `p`, and the old root becomes the child of the new
    /// one in the octant that it fills. The other seven children are fresh
    /// leaves.
    fn ensure_root_contains(&mut self, p: Position)
        requires
            old(self).inv(Set::empty()),
            old(self).tidy(),
        ensures
            final(self).inv(Set::empty()),
            final(self).tidy(),
            final(self).cfg == old(self).cfg,
            final(self).built == old(self).built,
            final(self).model@ == old(self).model@,
            final(self).nodes@[0].bounds.holds(p, final(self).cfg.loose_padding),
            final(self).nodes@[0].bounds == old(self).nodes@[0].bounds.grown_until(
                p,
                old(self).cfg.loose_padding,
            ),
            final(self).nodes@.len() >= old(self).nodes@.len(),
            old(self).nodes@[0].bounds.holds(p, old(self).cfg.loose_padding) ==> *final(self)
                == *old(self),
    {
        proof {
            assert(self.node_ok(0, Set::empty()));
        }
        while !self.nodes[0].bounds.contains(&p, self.cfg.loose_padding)
            invariant
                self.inv(Set::empty()),
                self.tidy(),
                self.node_ok(0, Set::empty()),
                self.cfg == old(self).cfg,
                self.built == old(self).built,
                self.model@ == old(self).model@,
                self.nodes@.len() >= old(self).nodes@.len(),
                self.nodes@[0].bounds.anchored(),
                self.nodes@[0].bounds.grown_until(p, self.cfg.loose_padding) == old(self).nodes@[0].bounds.grown_until(p, self.cfg.loose_padding),
                old(self).nodes@[0].bounds.holds(p, old(self).cfg.loose_padding) ==> *self == *old(self),
            decreases HALF_MAX - self.nodes@[0].bounds.half,
        {
            let ghost s0 = *self;
            let old = self.nodes[0].bounds;
            proof {
                lemma_grown_cube(old, p, self.cfg.loose_padding);
                assert(forall|i: int| 0 <= i < self.nodes@.len() ==> #[trigger] self.node_ok(i, Set::empty()));
            }
            let new_bounds = AabbCube {
                cx: if p.x as i64 >= old.cx { old.cx + old.half } else { old.cx - old.half },
                cy: if p.y as i64 >= old.cy { old.cy + old.half } else { old.cy - old.half },
                cz: if p.z as i64 >= old.cz { old.cz + old.half } else { old.cz - old.half },
                half: old.half * 2,
            };
            // the new root goes to slot 0, the old one to the end
            let moved = self.nodes.len();
            self.nodes.push(Node { bounds: new_bounds, depth: 0, children: None, bucket: Vec::new() });
            let old_root = self.nodes.swap_remove(0);
            self.nodes.push(old_root);
            // the octant of the new root that the old root fills
            let mut child_idx: usize = 0;
            if old.cx >= new_bounds.cx {
                child_idx += 1;
            }
            if old.cy >= new_bounds.cy {
                child_idx += 2;
            }
            if old.cz >= new_bounds.cz {
                child_idx += 4;
            }
            let child_half = old.half;
            let mut children = [0usize;8];
            let mut i: usize = 0;
            while i < 8
                invariant
                    i <= 8,
                    moved == s0.nodes@.len(),
                    moved >= 1,
                    old == s0.nodes@[0].bounds,
                    old.fits(),
                    old.half >= 1,
                    new_bounds == old.grown_towards(p),
                    new_bounds.fits(),
                    child_half == old.half,
                    child_idx == old.octant_in_grown(p),
                    self.cfg == s0.cfg,
                    self.built == s0.built,
                    self.model@ == s0.model@,
                    self.entity_leaf@ == s0.entity_leaf@,
                    self.forest@ == s0.forest@,
                    self.height@ == s0.height@,
                    moved < self.nodes@.len() <= moved + 1 + i,
                    forall|t: int| 1 <= t < moved ==> self.nodes@[t] == s0.nodes@[t],
                    self.nodes@[moved as int] == s0.nodes@[0],
                    self.nodes@[0].bounds == new_bounds,
                    self.nodes@[0].bucket@.len() == 0,
                    forall|j: int|
                        0 <= j < i ==> {
                            let c = #[trigger] children[j];
                            if j == child_idx {
                                c == moved
                            } else {
                                &&& moved < c < self.nodes@.len()
                                &&& self.nodes@[c as int].bounds == new_bounds.octant(j)
                                &&& self.nodes@[c as int].children is None
                                &&& self.nodes@[c as int].bucket@.len() == 0
                            }
                        },
                    forall|t: int|
                        moved < t < self.nodes@.len() ==> #[trigger] Self::names(
                            children,
                            i as int,
                            t,
                        ),
                decreases 8 - i,
            {
                let ghost before = children;
                let ghost len_before = self.nodes@.len();
                if i == child_idx {
                    children[i] = moved;
                } else {
                    let ox = if i % 2 == 1 { child_half } else { -child_half };
                    let oy = if (i / 2) % 2 == 1 { child_half } else { -child_half };
                    let oz = if (i / 4) % 2 == 1 { child_half } else { -child_half };
                    let idx = self.nodes.len();
                    self.nodes.push(
                        Node {
                            bounds: AabbCube {
                                cx: new_bounds.cx + ox,
                                cy: new_bounds.cy + oy,
                                cz: new_bounds.cz + oz,
                                half: child_half,
                            },
                            depth: 1,
                            children: None,
                            bucket: Vec::new(),
                        },
                    );
                    children[i] = idx;
                }
                proof {
                    assert forall|j: int| 0 <= j < i + 1 implies {
                        let c = #[trigger] children[j];
                        if j == child_idx {
                            c == moved
                        } else {
                            &&& moved < c < self.nodes@.len()
                            &&& self.nodes@[c as int].bounds == new_bounds.octant(j)
                            &&& self.nodes@[c as int].children is None
                            &&& self.nodes@[c as int].bucket@.len() == 0
                        }
                    } by {
                        if j < i {
                            assert(before[j] == children[j]);
                        }
                    }
                    assert forall|t: int| moved < t < self.nodes@.len() implies #[trigger] Self::names(
                        children,
                        i + 1,
                        t,
                    ) by {
                        if t < len_before {
                            assert(Self::names(before, i as int, t));
                            let j = choose|j: int| 0 <= j < i && #[trigger] before[j] == t;
                            assert(children[j] == t);
                        } else {
                            assert(children[i as int] == t);
                        }
                    }
                }
                i += 1;
            }
            self.nodes[0].children = Some(children);
            proof {
                self.forest = Ghost(
                    Self::grown_forest(s0.forest@, moved as int, self.nodes@.len()),
                );
                self.height = Ghost(s0.height@ + 1);
            }
            let ghost s1 = *self;
            proof {
                assert(s0.node_ok(0, Set::empty()));
                let bucket = s0.nodes@[0].bucket@;
                assert forall|t: int| 0 <= t < bucket.len() implies {
                    &&& s0.entity_leaf@.contains_key(#[trigger] bucket[t].0)
                    &&& s0.entity_leaf@[bucket[t].0] == 0
                } by {
                    assert(s0.entry_ok(0, t, Set::empty()));
                }
                assert forall|e: u64|
                    s0.entity_leaf@.contains_key(e) && s0.entity_leaf@[e] == 0 implies has_id(
                    bucket,
                    e,
                ) by {
                    assert(s0.located(e));
                }
            }
            self.fix_leaf_indices(moved, Ghost(s0.entity_leaf@));
            proof {
                let ch = self.nodes@[0].children->Some_0;
                assert forall|t: int| moved < t < self.nodes@.len() implies #[trigger] self.is_child_of(
                    t,
                    0,
                ) by {
                    assert(Self::names(children, 8, t));
                    let j = choose|j: int| 0 <= j < 8 && #[trigger] children[j] == t;
                    assert(ch[j] == t);
                }
                assert forall|j: int| 0 <= j < 8 implies {
                    let c = #[trigger] self.nodes@[0].children->Some_0[j];
                    if j == s0.nodes@[0].bounds.octant_in_grown(p) {
                        c == moved
                    } else {
                        &&& moved < c < self.nodes@.len()
                        &&& self.nodes@[c as int].bounds == self.nodes@[0].bounds.octant(j)
                        &&& self.nodes@[c as int].children is None
                        &&& self.nodes@[c as int].bucket@.len() == 0
                    }
                } by {
                    assert(children[j] == ch[j]);
                }
                Self::lemma_grow(s0, *self, p, moved);
                assert(self.node_ok(0, Set::empty()));
            }
        }
    }

    /// The tree that consists of a root with the cube `bounds` and nothing
    /// else is well-formed.
    proof fn lemma_single_root(s: Octree)
        requires
            s.nodes@.len() == 1,
            s.nodes@[0].bounds.fits(),
            s.nodes@[0].bounds.anchored(),
            s.nodes@[0].children is None,
            s.nodes@[0].bucket@.len() == 0,
            s.model@ =~= Map::<u64, Position>::empty(),
            s.entity_leaf@ =~= Map::<u64, usize>::empty(),
            s.forest@ == (Forest { parent: seq![-1int], level: seq![0nat] }),
        ensures
            s.inv(Set::empty()),
            s.tidy(),
    {
        assert(s.node_ok(0, Set::empty()));
    }

    /// An octree with the given configuration and no root yet.
    pub fn new(cfg: OctreeConfig) -> (octree: Octree)
        ensures
            octree.wf(),
            octree.config() == cfg,
            !octree.is_built(),
            octree@ == Map::<u64, Position>::empty(),
    {
        Octree {
            cfg,
            built: false,
            nodes: Vec::new(),
            entity_leaf: HashMap::new(),
            model: Ghost(Map::empty()),
            forest: Ghost(Forest { parent: Seq::empty(), level: Seq::empty() }),
            height: Ghost(0),
        }
    }

    /// Replaces the arena by a single empty root leaf with the cube
    /// `bounds`.
    fn reset(&mut self, bounds: AabbCube)
        requires
            bounds.fits(),
            bounds.anchored(),
        ensures
            final(self).inv(Set::empty()),
            final(self).tidy(),
            final(self).cfg == old(self).cfg,
            final(self).built == old(self).built,
            final(self).model@ == Map::<u64, Position>::empty(),
            final(self).nodes@[0].bounds == bounds,
            final(self).rooted(),
    {
        self.nodes.clear();
        self.entity_leaf.clear();
        self.nodes.push(Node { bounds, depth: 0, children: None, bucket: Vec::new() });
        proof {
            self.model = Ghost(Map::empty());
            self.forest = Ghost(Forest { parent: seq![-1int], level: seq![0nat] });
            self.height = Ghost(0);
            Self::lemma_single_root(*self);
        }
    }

    /// Builds the tree from scratch. The root is a cube round the middle of
    /// the snapshot's bounding box: half the longest extent and the initial
    /// padding, at least the smallest size and one lattice unit.
    /// The entities are then inserted one at a time. An empty snapshot
    /// gives a root of half-extent 1 round the origin.
    fn build_from_entities(&mut self, entities: &[EntityPositionPair])
        requires
            distinct_ids(entities@),
        ensures
            final(self).inv(Set::empty()),
            final(self).tidy(),
            final(self).built,
            final(self).cfg == old(self).cfg,
            final(self).model@ == entries_map(entities@),
            final(self).nodes@[0].bounds == (if entities@.len() == 0 {
                unit_cube()
            } else {
                root_cube(bounding_box(entities@), old(self).cfg)
            }),
            final(self).rooted(),
    {
        if entities.len() == 0 {
            // a tiny root, so that inserts can still work later
            self.built = true;
            self.reset(AabbCube { cx: 0, cy: 0, cz: 0, half: 1 });
            return ;
        }
        let aabb = calculate_aabb(entities);
        proof {
            lemma_bounding_box_exact(entities@);
        }
        let root = make_root_cube(&aabb, &self.cfg);
        proof {
            assert forall|k: int| 0 <= k < entities@.len() implies root.holds(
                #[trigger] entities@[k].1,
                0,
            ) by {
                assert(aabb.contains(entities@[k].1));
            }
        }
        self.built = true;
        self.reset(root);
        let mut i: usize = 0;
        while i < entities.len()
            invariant
                i <= entities@.len(),
                distinct_ids(entities@),
                self.inv(Set::empty()),
                self.tidy(),
                self.built,
                self.cfg == old(self).cfg,
                self.model@ == entries_map(entities@.take(i as int)),
                self.nodes@[0].bounds == root,
                self.rooted(),
                forall|k: int|
                    0 <= k < entities@.len() ==> root.holds(#[trigger] entities@[k].1, 0),
            decreases entities@.len() - i,
        {
            let (e, p) = entities[i];
            proof {
                assert(root.holds(entities@[i as int].1, 0));
                assert(root.holds(p, self.cfg.loose_padding));
                let done = entities@.take(i as int);
                lemma_entries_map_dom(done, e);
                if has_id(done, e) {
                    let j = choose|j: int| 0 <= j < done.len() && #[trigger] done[j].0 == e;
                    assert(entities@[j].0 != entities@[i as int].0);
                }
                assert(entities@.take(i + 1).drop_last() =~= done);
            }
            let ghost before = *self;
            self.insert_internal(e, p);
            proof {
                Self::lemma_rooted_step(before, *self, e, p);
            }
            i += 1;
        }
        proof {
            assert(entities@.take(i as int) =~= entities@);
        }
    }

    /// An arena in which every entity sits where it is handed down to from
    /// the root stays so when one more entity is handed down from the root.
    proof fn lemma_rooted_step(s: Octree, t: Octree, e: u64, p: Position)
        requires
            s.inv(Set::empty()),
            t.inv(Set::empty()),
            s.rooted(),
            !s.model@.contains_key(e),
            t.model@ == s.model@.insert(e, p),
            t.extends(s),
            t.routed(s, set![e]),
            t.leaf_of(e) == t.route(0, p),
        ensures
            t.rooted(),
    {
        s.lemma_inv_shaped(Set::empty());
        t.lemma_inv_shaped(Set::empty());
        assert forall|x: u64| t@.contains_key(x) implies #[trigger] t.leaf_slot(x) == t.descend(
            0,
            t@[x],
        ) by {
            if x != e {
                assert(s@.contains_key(x));
                assert(s.entity_leaf@.contains_key(x));
                assert(s.leaf_slot(x) == s.descend(0, s@[x]));
                assert(t.routed_one(s, x));
                Self::lemma_descend_through(s, t, 0, s.model@[x]);
            }
        }
    }

    /// Inserts an entity that the index does not hold: the root grows until
    /// it holds the position, then the entity is handed down from the root.
    fn insert_internal(&mut self, e: u64, p: Position)
        requires
            old(self).inv(Set::empty()),
            old(self).tidy(),
            !old(self).model@.contains_key(e),
        ensures
            final(self).inv(Set::empty()),
            final(self).tidy(),
            final(self).cfg == old(self).cfg,
            final(self).built == old(self).built,
            final(self).model@ == old(self).model@.insert(e, p),
            final(self).nodes@.len() >= old(self).nodes@.len(),
            final(self).nodes@[0].bounds == old(self).nodes@[0].bounds.grown_until(
                p,
                old(self).cfg.loose_padding,
            ),
            final(self).leaf_of(e) == final(self).route(0, p),
            old(self).nodes@[0].bounds.holds(p, old(self).cfg.loose_padding) ==> final(self).extends(
                *old(self),
            ) && final(self).routed(*old(self), set![e]),
    {
        self.ensure_root_contains(p);
        self.insert_into(0, e, p, Ghost(Set::empty()));
        proof {
            assert(Set::<u64>::empty().remove(e) =~= Set::<u64>::empty());
            assert(Set::<u64>::empty().insert(e) =~= set![e]);
        }
    }

    /// An entry has left a leaf's bucket by `swap_remove`.
    proof fn lemma_leaf_remove(s0: Octree, s1: Octree, leaf: usize, i: int, e: u64)
        requires
            s0.inv(Set::empty()),
            s0.entity_leaf@.contains_key(e),
            s0.entity_leaf@[e] == leaf,
            ({
                let n = leaf as int;
                let b0 = s0.nodes@[n].bucket@;
                &&& 0 <= n < s0.nodes@.len()
                &&& 0 <= i < b0.len()
                &&& b0[i].0 == e
                &&& s1.nodes@.len() == s0.nodes@.len()
                &&& forall|t: int|
                    0 <= t < s0.nodes@.len() && t != n ==> s1.nodes@[t] == s0.nodes@[t]
                &&& s1.nodes@[n].bounds == s0.nodes@[n].bounds
                &&& s1.nodes@[n].depth == s0.nodes@[n].depth
                &&& s1.nodes@[n].children == s0.nodes@[n].children
                &&& s1.nodes@[n].bucket@ == b0.update(i, b0.last()).drop_last()
            }),
            s1.cfg == s0.cfg,
            s1.built == s0.built,
            s1.forest@ == s0.forest@,
            s1.height@ == s0.height@,
            s1.entity_leaf@ == s0.entity_leaf@.remove(e),
            s1.model@ == s0.model@.remove(e),
        ensures
            s1.inv(Set::empty()),
            s1.cubes() == s0.cubes(),
            s0.tidy() ==> s1.tidy(),
    {
        let none = Set::<u64>::empty();
        let n = leaf as int;
        let b0 = s0.nodes@[n].bucket@;
        let b1 = s1.nodes@[n].bucket@;
        let last = b0.len() - 1;
        if s0.tidy() {
            assert forall|t: int| 0 <= t < s1.nodes@.len() implies tidy_node(
                #[trigger] s1.nodes@[t],
                s1.cfg,
            ) by {
                assert(tidy_node(s0.nodes@[t], s0.cfg));
            }
        }
        assert(s0.node_ok(n, none));
        // where each remaining entry of the leaf came from
        let from = |t: int| if t == i { last } else { t };
        assert forall|t: int| 0 <= t < b1.len() implies b1[t] == b0[from(t)] && b1[t].0 != e by {
            if from(t) < i {
                assert(b0[from(t)].0 != b0[i].0);
            } else {
                assert(b0[i].0 != b0[from(t)].0);
            }
        }
        assert forall|t: int| 0 <= t < s1.nodes@.len() implies #[trigger] s1.node_ok(t, none) by {
            assert(s0.node_ok(t, none));
            let pt = s0.forest@.parent[t];
            if t != 0 {
                assert(s0.is_child_of(t, pt));
                let pch = s0.nodes@[pt].children->Some_0;
                let j = choose|j: int| 0 <= j < 8 && #[trigger] pch[j] == t;
                assert(pch[j] == t);
                assert(s1.is_child_of(t, pt));
            }
            let bucket = s1.nodes@[t].bucket@;
            assert forall|k: int| 0 <= k < bucket.len() implies #[trigger] s1.entry_ok(t, k, none) by {
                if t == n {
                    assert(s0.entry_ok(n, from(k), none));
                } else {
                    assert(s0.entry_ok(t, k, none));
                    assert(s0.entity_leaf@[bucket[k].0] == t);
                }
            }
            if t == n {
                assert forall|a: int, b: int| 0 <= a < b < b1.len() implies b1[a].0 != b1[b].0 by {
                    let fa = from(a);
                    let fb = from(b);
                    if fa < fb {
                        assert(b0[fa].0 != b0[fb].0);
                    } else {
                        assert(b0[fb].0 != b0[fa].0);
                    }
                }
            }
            if s1.nodes@[t].children is Some {
                let ch = s1.nodes@[t].children->Some_0;
                assert forall|j: int| 0 <= j < 8 implies {
                    &&& 1 <= #[trigger] ch[j] < s1.nodes@.len()
                    &&& s1.forest@.parent[ch[j] as int] == t
                    &&& s1.nodes@[ch[j] as int].bounds == s1.nodes@[t].bounds.octant(j)
                } by {
                    assert(1 <= ch[j] < s0.nodes@.len());
                }
            }
        }
        assert forall|x: u64| s1.entity_leaf@.contains_key(x) implies #[trigger] s1.located(x) by {
            assert(s0.located(x));
            let at = s0.leaf_of(x);
            let bucket = s0.nodes@[at].bucket@;
            let k = choose|k: int| 0 <= k < bucket.len() && #[trigger] bucket[k].0 == x;
            if at == n {
                if k == last {
                    assert(b1[i].0 == x);
                } else {
                    assert(b1[k].0 == x);
                }
            } else {
                assert(s1.nodes@[at].bucket@[k].0 == x);
            }
        }
        assert(s1.cubes() =~= s0.cubes());
    }

    /// Takes an entity out of the leaf that holds it. The leaf stays, even
    /// if it is empty afterwards: nodes are never merged.
    fn remove_internal(&mut self, e: u64)
        requires
            old(self).inv(Set::empty()),
            old(self).tidy(),
        ensures
            final(self).inv(Set::empty()),
            final(self).tidy(),
            final(self).cfg == old(self).cfg,
            final(self).built == old(self).built,
            final(self).model@ == old(self).model@.remove(e),
            final(self).cubes() == old(self).cubes(),
            final(self).nodes@.len() == old(self).nodes@.len(),
            !old(self).model@.contains_key(e) ==> *final(self) == *old(self),
            old(self).model@.contains_key(e) ==> {
                &&& final(self).arena_kept_but(*old(self), old(self).leaf_of(e))
                &&& final(self).entity_leaf@ == old(self).entity_leaf@.remove(e)
                &&& final(self).nodes@[old(self).leaf_of(e)].bucket@ == bucket_without(
                    old(self).nodes@[old(self).leaf_of(e)].bucket@,
                    e,
                )
            },
    {
        let ghost s0 = *self;
        proof {
            if self.entity_leaf@.contains_key(e) {
                assert(self.located(e));
            }
        }
        let leaf = match self.entity_leaf.get(&e) {
            Some(leaf) => *leaf,
            None => {
                proof {
                    assert(self.model@.remove(e) =~= self.model@);
                }
                return ;
            },
        };
        proof {
            assert(self.node_ok(leaf as int, Set::empty()));
        }
        self.entity_leaf.remove(&e);
        if let Some(i) = position_of(&self.nodes[leaf].bucket, e) {
            self.nodes[leaf].bucket.swap_remove(i);
            proof {
                self.model = Ghost(self.model@.remove(e));
                Self::lemma_leaf_remove(s0, *self, leaf, i as int, e);
                Self::lemma_kept_but(s0, *self, leaf as int);
                lemma_place_in(s0.nodes@[leaf as int].bucket@, i as int);
            }
        }
    }

    /// An arena in which only one bucket has changed is kept but for that
    /// bucket.
    proof fn lemma_kept_but(s0: Octree, s1: Octree, n: int)
        requires
            0 <= n < s0.nodes@.len(),
            s1.nodes@.len() == s0.nodes@.len(),
            forall|t: int| 0 <= t < s0.nodes@.len() && t != n ==> s1.nodes@[t] == s0.nodes@[t],
            s1.nodes@[n].bounds == s0.nodes@[n].bounds,
            s1.nodes@[n].depth == s0.nodes@[n].depth,
            s1.nodes@[n].children == s0.nodes@[n].children,
        ensures
            s1.arena_kept_but(s0, n),
    {
        assert(s1.cubes() =~= s0.cubes());
        assert forall|i: int| 0 <= i < s1.cubes().len() implies {
            &&& #[trigger] s1.depth_at(i) == s0.depth_at(i)
            &&& s1.children_at(i) == s0.children_at(i)
            &&& (i != n ==> s1.bucket_at(i) == s0.bucket_at(i))
        } by {
            if i != n {
                assert(s1.nodes@[i] == s0.nodes@[i]);
            }
        }
    }

    /// An entry of a leaf's bucket has been given a new position inside the
    /// leaf's padded cube.
    proof fn lemma_leaf_move(s0: Octree, s1: Octree, leaf: usize, i: int, e: u64, p: Position)
        requires
            s0.inv(Set::empty()),
            ({
                let n = leaf as int;
                let b0 = s0.nodes@[n].bucket@;
                &&& 0 <= n < s0.nodes@.len()
                &&& 0 <= i < b0.len()
                &&& b0[i].0 == e
                &&& s0.nodes@[n].bounds.holds(p, s0.cfg.loose_padding)
                &&& s1.nodes@.len() == s0.nodes@.len()
                &&& forall|t: int|
                    0 <= t < s0.nodes@.len() && t != n ==> s1.nodes@[t] == s0.nodes@[t]
                &&& s1.nodes@[n].bounds == s0.nodes@[n].bounds
                &&& s1.nodes@[n].depth == s0.nodes@[n].depth
                &&& s1.nodes@[n].children == s0.nodes@[n].children
                &&& s1.nodes@[n].bucket@ == b0.update(i, (e, p))
            }),
            s1.cfg == s0.cfg,
            s1.built == s0.built,
            s1.forest@ == s0.forest@,
            s1.height@ == s0.height@,
            s1.entity_leaf@ == s0.entity_leaf@,
            s1.model@ == s0.model@.insert(e, p),
        ensures
            s1.inv(Set::empty()),
            s1.cubes() == s0.cubes(),
            s0.tidy() ==> s1.tidy(),
    {
        let none = Set::<u64>::empty();
        let n = leaf as int;
        let b0 = s0.nodes@[n].bucket@;
        let b1 = s1.nodes@[n].bucket@;
        assert(s0.node_ok(n, none));
        assert(s0.entry_ok(n, i, none));
        if s0.tidy() {
            assert forall|t: int| 0 <= t < s1.nodes@.len() implies tidy_node(
                #[trigger] s1.nodes@[t],
                s1.cfg,
            ) by {
                assert(tidy_node(s0.nodes@[t], s0.cfg));
            }
        }
        assert forall|t: int| 0 <= t < s1.nodes@.len() implies #[trigger] s1.node_ok(t, none) by {
            assert(s0.node_ok(t, none));
            let pt = s0.forest@.parent[t];
            if t != 0 {
                assert(s0.is_child_of(t, pt));
                let pch = s0.nodes@[pt].children->Some_0;
                let j = choose|j: int| 0 <= j < 8 && #[trigger] pch[j] == t;
                assert(pch[j] == t);
                assert(s1.is_child_of(t, pt));
            }
            let bucket = s1.nodes@[t].bucket@;
            assert forall|k: int| 0 <= k < bucket.len() implies #[trigger] s1.entry_ok(t, k, none) by {
                assert(s0.entry_ok(t, k, none));
                if t == n && k != i {
                    if k < i {
                        assert(b0[k].0 != b0[i].0);
                    } else {
                        assert(b0[i].0 != b0[k].0);
                    }
                }
            }
            if t == n {
                assert forall|a: int, b: int| 0 <= a < b < b1.len() implies b1[a].0 != b1[b].0 by {
                    assert(b0[a].0 != b0[b].0);
                }
            }
            if s1.nodes@[t].children is Some {
                let ch = s1.nodes@[t].children->Some_0;
                assert forall|j: int| 0 <= j < 8 implies {
                    &&& 1 <= #[trigger] ch[j] < s1.nodes@.len()
                    &&& s1.forest@.parent[ch[j] as int] == t
                    &&& s1.nodes@[ch[j] as int].bounds == s1.nodes@[t].bounds.octant(j)
                } by {
                    assert(1 <= ch[j] < s0.nodes@.len());
                }
            }
        }
        assert forall|x: u64| s1.entity_leaf@.contains_key(x) implies #[trigger] s1.located(x) by {
            assert(s0.located(x));
            let at = s0.leaf_of(x);
            let bucket = s0.nodes@[at].bucket@;
            let k = choose|k: int| 0 <= k < bucket.len() && #[trigger] bucket[k].0 == x;
            assert(s1.nodes@[at].bucket@[k].0 == x);
        }
        assert(s1.cubes() =~= s0.cubes());
    }

    /// Moves an entity. If the new position still lies in the padded cube of
    /// the entity's leaf, only the stored position changes; otherwise the
    /// entity is removed and inserted again. An unknown entity is inserted.
    fn update_internal(&mut self, e: u64, p: Position)
        requires
            old(self).inv(Set::empty()),
            old(self).tidy(),
        ensures
            final(self).inv(Set::empty()),
            final(self).tidy(),
            final(self).cfg == old(self).cfg,
            final(self).built == old(self).built,
            final(self).model@ == old(self).model@.insert(e, p),
            final(self).nodes@.len() >= old(self).nodes@.len(),
            final(self).nodes@[0].bounds == old(self).nodes@[0].bounds.grown_until(
                p,
                old(self).cfg.loose_padding,
            ),
            old(self).model@.contains_key(e) && old(self).leaf_cube(e).holds(
                p,
                old(self).cfg.loose_padding,
            ) ==> {
                &&& final(self).leaf_cube(e) == old(self).leaf_cube(e)
                &&& final(self).arena_kept_but(*old(self), old(self).leaf_of(e))
                &&& final(self).entity_leaf@ == old(self).entity_leaf@
                &&& final(self).nodes@[old(self).leaf_of(e)].bucket@ == bucket_moved(
                    old(self).nodes@[old(self).leaf_of(e)].bucket@,
                    e,
                    p,
                )
            },
            !(old(self).model@.contains_key(e) && old(self).leaf_cube(e).holds(
                p,
                old(self).cfg.loose_padding,
            )) ==> final(self).leaf_of(e) == final(self).route(0, p),
    {
        let ghost s0 = *self;
        let leaf = match self.entity_leaf.get(&e) {
            Some(leaf) => *leaf,
            None => {
                self.insert_internal(e, p);
                return ;
            },
        };
        proof {
            assert(self.located(e));
            assert(self.node_ok(leaf as int, Set::empty()));
            assert(self.node_ok(0, Set::empty()));
            if self.nodes@[leaf as int].bounds.holds(p, self.cfg.loose_padding) {
                self.forest@.lemma_under_root(leaf as int);
                self.lemma_holds_above(0, leaf as int, p);
            }
        }
        // if it still fits within the leaf's padded cube, update in place
        if self.nodes[leaf].bounds.contains(&p, self.cfg.loose_padding) {
            if let Some(i) = position_of(&self.nodes[leaf].bucket, e) {
                self.nodes[leaf].bucket[i].1 = p;
                proof {
                    self.model = Ghost(self.model@.insert(e, p));
                    let b0 = s0.nodes@[leaf as int].bucket@;
                    assert(self.nodes@[leaf as int].bucket@ =~= b0.update(i as int, (e, p)));
                    Self::lemma_leaf_move(s0, *self, leaf, i as int, e, p);
                    Self::lemma_kept_but(s0, *self, leaf as int);
                    lemma_place_in(b0, i as int);
                }
            }
            return ;
        }
        // otherwise reinsert
        self.remove_internal(e);
        proof {
            assert(self.cubes()[0] == s0.cubes()[0]);
        }
        self.insert_internal(e, p);
        proof {
            assert(s0.model@.remove(e).insert(e, p) =~= s0.model@.insert(e, p));
        }
    }

    /// The slot of the leaf that holds the entity `e`.
    pub closed spec fn leaf_slot(&self, e: u64) -> int {
        self.leaf_of(e)
    }

    /// For every entity of the index the slot of the leaf that holds it.
    pub closed spec fn leaf_slots(&self) -> Map<u64, usize> {
        self.entity_leaf@
    }

    /// The arena is as it was in `before`, but for the bucket of the node in
    /// `slot`: the same cubes, depths and children, and the same entities in
    /// every other bucket.
    pub open spec fn arena_kept_but(&self, before: Octree, slot: int) -> bool {
        &&& self.cubes() == before.cubes()
        &&& forall|i: int|
            0 <= i < self.cubes().len() ==> {
                &&& #[trigger] self.depth_at(i) == before.depth_at(i)
                &&& self.children_at(i) == before.children_at(i)
                &&& (i != slot ==> self.bucket_at(i) == before.bucket_at(i))
            }
    }

    /// The entity `e` is in the index, and `p` lies in the padded cube of
    /// the leaf that holds it: a move to `p` leaves the entity in its leaf.
    pub open spec fn stays_in_leaf(&self, e: u64, p: Position) -> bool {
        &&& self.is_built()
        &&& self@.contains_key(e)
        &&& self.leaf_cube(e).holds(p, self.config().loose_padding)
    }

    /// The entity `e` has moved to `p` inside its leaf: nothing else of the
    /// arena and of the map from entities to leaves has changed.
    pub open spec fn moved_in_leaf(&self, before: Octree, e: u64, p: Position) -> bool {
        &&& self.leaf_cube(e) == before.leaf_cube(e)
        &&& self.arena_kept_but(before, before.leaf_slot(e))
        &&& self.leaf_slots() == before.leaf_slots()
        &&& self.bucket_at(before.leaf_slot(e)) == bucket_moved(
            before.bucket_at(before.leaf_slot(e)),
            e,
            p,
        )
    }

    /// The entity `e` has left its leaf: nothing else of the arena and of
    /// the map from entities to leaves has changed.
    pub open spec fn taken_from_leaf(&self, before: Octree, e: u64) -> bool {
        &&& self.arena_kept_but(before, before.leaf_slot(e))
        &&& self.leaf_slots() == before.leaf_slots().remove(e)
        &&& self.bucket_at(before.leaf_slot(e)) == bucket_without(
            before.bucket_at(before.leaf_slot(e)),
            e,
        )
    }

    /// Every entity of the index sits in the leaf that its position is
    /// handed down to from the root.
    pub open spec fn rooted(&self) -> bool {
        forall|e: u64|
            self@.contains_key(e) ==> #[trigger] self.leaf_slot(e) == self.descend(0, self@[e])
    }

    /// The entities in the bucket of the node in `slot`.
    pub closed spec fn bucket_at(&self, slot: int) -> Seq<EntityPositionPair> {
        self.nodes@[slot].bucket@
    }

    /// The slots of the eight children of the node in `slot`; `None` for a
    /// leaf.
    pub closed spec fn children_at(&self, slot: int) -> Option<Seq<usize>> {
        match self.nodes@[slot].children {
            Some(children) => Some(children@),
            None => None,
        }
    }

    /// The depth that the node in `slot` was made at. A node keeps it when
    /// the tree grows above it.
    pub closed spec fn depth_at(&self, slot: int) -> u8 {
        self.nodes@[slot].depth
    }

    /// The node in `slot` is a leaf that splits once its bucket grows
    /// beyond the threshold: it is above the depth limit, half its
    /// half-extent is not below the smallest size, and its half-extent is 2
    /// at least.
    pub open spec fn may_split(&self, slot: int) -> bool {
        &&& self.children_at(slot) is None
        &&& self.depth_at(slot) < self.config().max_depth
        &&& self.cubes()[slot].half >= 2
        &&& self.cubes()[slot].half / 2 >= self.config().min_half_size
    }

    /// An interior node holds no entities, and its eight children are the
    /// octants of its cube.
    pub proof fn lemma_interior_slot(&self, slot: int)
        requires
            self.wf(),
            self.is_built(),
            0 <= slot < self.cubes().len(),
            self.children_at(slot) is Some,
        ensures
            self.bucket_at(slot).len() == 0,
            self.children_at(slot)->Some_0.len() == 8,
            forall|j: int|
                0 <= j < 8 ==> {
                    &&& 1 <= #[trigger] self.children_at(slot)->Some_0[j] < self.cubes().len()
                    &&& self.cubes()[self.children_at(slot)->Some_0[j] as int]
                        == self.cubes()[slot].octant(j)
                },
    {
        assert(self.node_ok(slot, Set::empty()));
    }

    /// A leaf holds each entity once, at the position that the index has
    /// for it and inside its padded cube; the entities it holds are mapped to
    /// it; and if it may split, its bucket is within the threshold.
    pub proof fn lemma_leaf_slot(&self, slot: int)
        requires
            self.wf(),
            self.is_built(),
            0 <= slot < self.cubes().len(),
            self.children_at(slot) is None,
        ensures
            distinct_ids(self.bucket_at(slot)),
            self.may_split(slot) ==> self.bucket_at(slot).len() <= self.config().split_threshold,
            forall|k: int|
                0 <= k < self.bucket_at(slot).len() ==> {
                    let pair = #[trigger] self.bucket_at(slot)[k];
                    &&& self@.contains_key(pair.0)
                    &&& self@[pair.0] == pair.1
                    &&& self.leaf_slot(pair.0) == slot
                    &&& self.cubes()[slot].holds(pair.1, self.config().loose_padding)
                },
    {
        assert(self.node_ok(slot, Set::empty()));
        assert(tidy_node(self.nodes@[slot], self.cfg));
        assert forall|k: int| 0 <= k < self.bucket_at(slot).len() implies {
            let pair = #[trigger] self.bucket_at(slot)[k];
            &&& self@.contains_key(pair.0)
            &&& self@[pair.0] == pair.1
            &&& self.leaf_slot(pair.0) == slot
            &&& self.cubes()[slot].holds(pair.1, self.config().loose_padding)
        } by {
            assert(self.entry_ok(slot, k, Set::empty()));
        }
    }

    /// Every entity of the index sits in the bucket of the leaf that it is
    /// mapped to.
    pub proof fn lemma_entity_slot(&self, e: u64)
        requires
            self.wf(),
            self.is_built(),
            self@.contains_key(e),
        ensures
            0 <= self.leaf_slot(e) < self.cubes().len(),
            self.children_at(self.leaf_slot(e)) is None,
            has_id(self.bucket_at(self.leaf_slot(e)), e),
            self.leaf_cube(e) == self.cubes()[self.leaf_slot(e)],
    {
        assert(self.entity_leaf@.contains_key(e));
        assert(self.located(e));
        let leaf = self.leaf_of(e);
        assert(self.node_ok(leaf, Set::empty()));
        let bucket = self.nodes@[leaf].bucket@;
        let k = choose|k: int| 0 <= k < bucket.len() && #[trigger] bucket[k].0 == e;
    }

    /// Every cube of the arena has a half-extent of at least 1, and
    /// the root's centre stays near the range of the coordinates.
    pub proof fn lemma_cubes_fit(&self, slot: int)
        requires
            self.wf(),
            self.is_built(),
            0 <= slot < self.cubes().len(),
        ensures
            self.cubes()[slot].fits(),
            self.cubes()[0].anchored(),
    {
        assert(self.node_ok(slot, Set::empty()));
    }

    /// The padded cube of the root holds every entity of the index.
    pub proof fn lemma_root_holds_all(&self)
        requires
            self.wf(),
            self.is_built(),
        ensures
            self.cubes().len() >= 1,
            forall|e: u64|
                self@.contains_key(e) ==> self.cubes()[0].holds(
                    #[trigger] self@[e],
                    self.config().loose_padding,
                ),
    {
        assert forall|e: u64| self@.contains_key(e) implies self.cubes()[0].holds(
            #[trigger] self@[e],
            self.config().loose_padding,
        ) by {
            self.lemma_leaf_holds(e);
            assert(self.entity_leaf@.contains_key(e));
            assert(self.located(e));
            self.forest@.lemma_under_root(self.leaf_of(e));
            self.lemma_holds_above(0, self.leaf_of(e), self@[e]);
        }
    }

    /// Every entity lies in the padded cube of the leaf that holds it.
    pub proof fn lemma_leaf_holds(&self, e: u64)
        requires
            self.wf(),
            self.is_built(),
            self@.contains_key(e),
        ensures
            self.leaf_cube(e).holds(self@[e], self.config().loose_padding),
    {
        assert(self.entity_leaf@.contains_key(e));
        assert(self.located(e));
        let leaf = self.leaf_of(e);
        assert(self.node_ok(leaf, Set::empty()));
        let bucket = self.nodes@[leaf].bucket@;
        let k = choose|k: int| 0 <= k < bucket.len() && #[trigger] bucket[k].0 == e;
        assert(self.entry_ok(leaf, k, Set::empty()));
    }

    /// Grows the tree until the root's padded cube holds `position`, as an
    /// insertion at `position` does before it hands the entity down: the
    /// root is doubled towards `position` as often as it takes, and the index
    /// stays as it is. A root that holds `position` already, and an octree
    /// that is not built yet, are left untouched.
    pub fn grow_to_hold(&mut self, position: Position)
        requires
            old(self).wf(),
        ensures
            final(self).wf(),
            final(self)@ == old(self)@,
            final(self).config() == old(self).config(),
            final(self).is_built() == old(self).is_built(),
            final(self).cubes().len() >= old(self).cubes().len(),
            old(self).is_built() ==> {
                &&& final(self).cubes()[0].holds(position, old(self).config().loose_padding)
                &&& final(self).cubes()[0] == old(self).cubes()[0].grown_until(
                    position,
                    old(self).config().loose_padding,
                )
            },
            !old(self).is_built() || old(self).cubes()[0].holds(
                position,
                old(self).config().loose_padding,
            ) ==> *final(self) == *old(self),
    {
        if self.built {
            self.ensure_root_contains(position);
        }
    }

    /// The cubes of all nodes of the arena, in arena order.
    pub closed spec fn cubes(&self) -> Seq<AabbCube> {
        Seq::new(self.nodes@.len(), |i: int| self.nodes@[i].bounds)
    }

    /// Lists the cubes of all nodes, for drawing them.
    pub fn node_cubes(&self) -> (cubes: Vec<AabbCube>)
        ensures
            cubes@ == self.cubes(),
    {
        let mut cubes: Vec<AabbCube> = Vec::new();
        let mut i: usize = 0;
        while i < self.nodes.len()
            invariant
                i <= self.nodes@.len(),
                cubes@ == self.cubes().take(i as int),
            decreases self.nodes@.len() - i,
        {
            cubes.push(self.nodes[i].bounds);
            proof {
                assert(cubes@ =~= self.cubes().take(i + 1));
            }
            i += 1;
        }
        proof {
            assert(self.cubes().take(i as int) =~= self.cubes());
        }
        cubes
    }
}

impl Default for Octree {
    fn default() -> (octree: Octree)
        ensures
            octree.wf(),
            octree.config() == OctreeConfig::standard(),
            !octree.is_built(),
            octree@ == Map::<u64, Position>::empty(),
    {
        Octree::new(OctreeConfig::default())
    }
}

impl SpatialLookupAlgorithm for Octree {
    closed spec fn wf(&self) -> bool {
        if self.built {
            self.inv(Set::empty()) && self.tidy()
        } else {
            &&& self.nodes@.len() == 0
            &&& self.model@ == Map::<u64, Position>::empty()
            &&& self.entity_leaf@ == Map::<u64, usize>::empty()
        }
    }

    open spec fn indexed(&self) -> Map<u64, Position> {
        self@
    }

    open spec fn incremental(&self) -> bool {
        true
    }

    open spec fn rebuilds(&self) -> bool {
        !self.is_built()
    }

    proof fn lemma_no_rebuild_means_incremental(&self) {
    }

    /// Builds the tree the first time only. Once built, the tree is kept
    /// current by the single-entity operations, and `prepare` does nothing.
    fn prepare(&mut self, entities: &[EntityPositionPair])
        ensures
            final(self).is_built(),
            final(self).config() == old(self).config(),
            old(self).is_built() ==> *final(self) == *old(self),
            !old(self).is_built() ==> {
                &&& final(self).cubes().len() >= 1
                &&& final(self).cubes()[0] == (if entities@.len() == 0 {
                    unit_cube()
                } else {
                    root_cube(bounding_box(entities@), old(self).config())
                })
                &&& final(self).rooted()
            },
    {
        if self.built {
            return ;
        }
        self.build_from_entities(entities);
    }

    fn entities_in_radius(&self, sample_point: Position, radius: u64) -> (found: Vec<u64>) {
        if !self.built || self.nodes.is_empty() {
            let found: Vec<u64> = Vec::new();
            proof {
                assert(found@.to_set() =~= answers(self.model@, sample_point, radius));
            }
            return found;
        }
        self.search(&sample_point, radius)
    }

    fn supports_incremental(&self) -> (supported: bool) {
        true
    }

    /// Before the tree is built, the entity becomes its whole content.
    /// Afterwards nodes are only added.
    fn insert_entity(&mut self, entity: u64, position: Position)
        ensures
            final(self).is_built(),
            final(self).config() == old(self).config(),
            final(self).cubes().len() >= old(self).cubes().len(),
            final(self).cubes()[0] == (if old(self).is_built() {
                old(self).cubes()[0].grown_until(position, old(self).config().loose_padding)
            } else {
                root_cube(Aabb::point(position), old(self).config())
            }),
            old(self).stays_in_leaf(entity, position) ==> final(self).moved_in_leaf(
                *old(self),
                entity,
                position,
            ),
            !old(self).stays_in_leaf(entity, position) ==> final(self).leaf_slot(entity)
                == final(self).descend(0, position),
    {
        if !self.built {
            // not prepared yet: make a root round this entity
            let one = [(entity, position)];
            proof {
                lemma_entries_map_push(Seq::empty(), (entity, position));
                assert(one@ =~= Seq::<EntityPositionPair>::empty().push((entity, position)));
            }
            self.build_from_entities(one.as_slice());
            return ;
        }
        if self.entity_leaf.contains_key(&entity) {
            self.update_internal(entity, position);
        } else {
            self.insert_internal(entity, position);
        }
    }

    /// Before the tree is built there is nothing to remove. No node is
    /// merged or taken away.
    fn remove_entity(&mut self, entity: u64)
        ensures
            final(self).is_built() == old(self).is_built(),
            final(self).config() == old(self).config(),
            final(self).cubes() == old(self).cubes(),
            !old(self)@.contains_key(entity) ==> *final(self) == *old(self),
            old(self)@.contains_key(entity) ==> final(self).taken_from_leaf(*old(self), entity),
    {
        if !self.built {
            proof {
                assert(self.model@.remove(entity) =~= self.model@);
            }
            return ;
        }
        self.remove_internal(entity);
    }

    /// Before the tree is built, the entity becomes its whole content.
    /// An entity whose new position lies in the padded cube of its leaf
    /// stays in that leaf, and the arena stays as it is.
    fn update_entity(&mut self, entity: u64, position: Position)
        ensures
            final(self).is_built(),
            final(self).config() == old(self).config(),
            final(self).cubes().len() >= old(self).cubes().len(),
            final(self).cubes()[0] == (if old(self).is_built() {
                old(self).cubes()[0].grown_until(position, old(self).config().loose_padding)
            } else {
                root_cube(Aabb::point(position), old(self).config())
            }),
            old(self).stays_in_leaf(entity, position) ==> final(self).moved_in_leaf(
                *old(self),
                entity,
                position,
            ),
            !old(self).stays_in_leaf(entity, position) ==> final(self).leaf_slot(entity)
                == final(self).descend(0, position),
    {
        if !self.built {
            let one = [(entity, position)];
            proof {
                lemma_entries_map_push(Seq::empty(), (entity, position));
                assert(one@ =~= Seq::<EntityPositionPair>::empty().push((entity, position)));
            }
            self.build_from_entities(one.as_slice());
            return ;
        }
        self.update_internal(entity, position);
    }
}

} // verus!

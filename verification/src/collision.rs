//! Collision meshes: scaled triangles, the bounding volume hierarchy built
//! over them, and the navigation-graph nodes taken from walkable triangles.
use vstd::prelude::*;

use crate::psx_structs::{CollVertexPSX, NavGraphNode};

verus! {

broadcast use vstd::seq_lib::group_to_multiset_ensures;

/// Largest magnitude of a scaled coordinate: `32768 * 512`.
pub open spec fn coord_bound() -> int {
    16777216
}

/// Integer division rounding toward zero, as `/` does on Rust's signed integers.
pub open spec fn tdiv(a: int, b: int) -> int {
    if a >= 0 {
        a / b
    } else {
        -((-a) / b)
    }
}

/// An integer 3D vector.
#[derive(Clone, Copy, Debug, PartialEq, Eq, Structural)]
pub struct IVec3 {
    pub x: i32,
    pub y: i32,
    pub z: i32,
}

pub open spec fn min_i32(a: i32, b: i32) -> i32 {
    if a <= b {
        a
    } else {
        b
    }
}

pub open spec fn max_i32(a: i32, b: i32) -> i32 {
    if a >= b {
        a
    } else {
        b
    }
}

/// Component-wise minimum.
pub open spec fn vmin(a: IVec3, b: IVec3) -> IVec3 {
    IVec3 { x: min_i32(a.x, b.x), y: min_i32(a.y, b.y), z: min_i32(a.z, b.z) }
}

/// Component-wise maximum.
pub open spec fn vmax(a: IVec3, b: IVec3) -> IVec3 {
    IVec3 { x: max_i32(a.x, b.x), y: max_i32(a.y, b.y), z: max_i32(a.z, b.z) }
}

/// Component-wise `<=`.
pub open spec fn vle(a: IVec3, b: IVec3) -> bool {
    a.x <= b.x && a.y <= b.y && a.z <= b.z
}

/// Every component lies within the range of scaled coordinates.
pub open spec fn in_coord_range(v: IVec3) -> bool {
    -coord_bound() <= v.x <= coord_bound() && -coord_bound() <= v.y <= coord_bound()
        && -coord_bound() <= v.z <= coord_bound()
}

impl IVec3 {
    /// Component-wise minimum.
    pub fn min(self, rhs: IVec3) -> (res: IVec3)
        ensures
            res == vmin(self, rhs),
    {
        IVec3 {
            x: if self.x <= rhs.x {
                self.x
            } else {
                rhs.x
            },
            y: if self.y <= rhs.y {
                self.y
            } else {
                rhs.y
            },
            z: if self.z <= rhs.z {
                self.z
            } else {
                rhs.z
            },
        }
    }

    /// Component-wise maximum.
    pub fn max(self, rhs: IVec3) -> (res: IVec3)
        ensures
            res == vmax(self, rhs),
    {
        IVec3 {
            x: if self.x >= rhs.x {
                self.x
            } else {
                rhs.x
            },
            y: if self.y >= rhs.y {
                self.y
            } else {
                rhs.y
            },
            z: if self.z >= rhs.z {
                self.z
            } else {
                rhs.z
            },
        }
    }
}

/// A collision triangle: three scaled vertices, a fixed-point normal
/// (`4096` is `1.0`) and a terrain id.
#[derive(Clone, Copy)]
pub struct CollTrianglePSX {
    pub v0: IVec3,
    pub v1: IVec3,
    pub v2: IVec3,
    pub normal: IVec3,
    // Will be exported separately
    pub terrain_id: u8,
}

/// An axis-aligned bounding box.
#[derive(Clone, Copy)]
pub struct Aabb {
    pub min: IVec3,
    pub max: IVec3,
}

/// A node of the bounding volume hierarchy.
#[derive(Clone, Copy)]
pub struct BvhNode {
    /// Axis aligned bounding box around all primitives inside this node
    pub bounds: Aabb,
    /// If this is a leaf, the index of the first primitive (in the index
    /// array); otherwise the index of the first of two child nodes
    pub left_first: u16,
    /// If this value is not 0, this is a leaf node
    pub primitive_count: u16,
}

/// The axis along which a node's primitives are split.
#[derive(Clone, Copy)]
pub enum Axis {
    X,
    Y,
    Z,
}

/// A bounding volume hierarchy over collision triangles.
pub struct CollBvh {
    pub primitives: Vec<CollTrianglePSX>,
    pub indices: Vec<u16>,
    pub nodes: Vec<BvhNode>,
    // Intermediates, won't get stored in the output file
    pub centers: Vec<IVec3>,
    pub node_pointer: usize,
}

/// The smallest corner of the box around a triangle.
pub open spec fn tri_min(t: CollTrianglePSX) -> IVec3 {
    vmin(t.v0, vmin(t.v1, t.v2))
}

/// The largest corner of the box around a triangle.
pub open spec fn tri_max(t: CollTrianglePSX) -> IVec3 {
    vmax(t.v0, vmax(t.v1, t.v2))
}

/// The box holds the triangle.
pub open spec fn aabb_contains(b: Aabb, t: CollTrianglePSX) -> bool {
    vle(b.min, tri_min(t)) && vle(tri_max(t), b.max)
}

/// The box that holds nothing: minimum at the largest value, maximum at the smallest.
pub open spec fn empty_aabb() -> Aabb {
    Aabb {
        min: IVec3 { x: i32::MAX, y: i32::MAX, z: i32::MAX },
        max: IVec3 { x: i32::MIN, y: i32::MIN, z: i32::MIN },
    }
}

/// The bounding box of the triangles `prims[idx[p]]` for `lo <= p < hi`,
/// grown from the empty box in index order.
pub open spec fn range_bounds(prims: Seq<CollTrianglePSX>, idx: Seq<u16>, lo: int, hi: int) -> Aabb
    decreases hi - lo,
{
    if hi <= lo {
        empty_aabb()
    } else {
        let b = range_bounds(prims, idx, lo, hi - 1);
        let t = prims[idx[hi - 1] as int];
        Aabb { min: vmin(b.min, tri_min(t)), max: vmax(b.max, tri_max(t)) }
    }
}

/// All vertices of the triangle lie within the range of scaled coordinates.
pub open spec fn tri_bounded(t: CollTrianglePSX) -> bool {
    in_coord_range(t.v0) && in_coord_range(t.v1) && in_coord_range(t.v2)
}

pub open spec fn prims_bounded(prims: Seq<CollTrianglePSX>) -> bool {
    forall|i: int| 0 <= i < prims.len() ==> #[trigger] tri_bounded(prims[i])
}

/// Every index names one of `n` primitives.
pub open spec fn idx_valid(idx: Seq<u16>, n: int) -> bool {
    forall|p: int| 0 <= p < idx.len() ==> #[trigger] idx[p] < n
}

/// The box holds every triangle named at positions `lo..hi` of the index array.
pub open spec fn contains_range(
    b: Aabb,
    prims: Seq<CollTrianglePSX>,
    idx: Seq<u16>,
    lo: int,
    hi: int,
) -> bool {
    forall|p: int| lo <= p < hi ==> #[trigger] aabb_contains(b, prims[idx[p] as int])
}

/// Each face of the box touches a triangle named at positions `lo..hi` of
/// the index array (when there is one): with `contains_range`, the box is the
/// exact componentwise minimum and maximum of those triangles.
pub open spec fn box_attained(
    b: Aabb,
    prims: Seq<CollTrianglePSX>,
    idx: Seq<u16>,
    lo: int,
    hi: int,
) -> bool {
    lo < hi ==> {
        &&& exists|p: int| lo <= p < hi && tri_min(prims[#[trigger] idx[p] as int]).x == b.min.x
        &&& exists|p: int| lo <= p < hi && tri_min(prims[#[trigger] idx[p] as int]).y == b.min.y
        &&& exists|p: int| lo <= p < hi && tri_min(prims[#[trigger] idx[p] as int]).z == b.min.z
        &&& exists|p: int| lo <= p < hi && tri_max(prims[#[trigger] idx[p] as int]).x == b.max.x
        &&& exists|p: int| lo <= p < hi && tri_max(prims[#[trigger] idx[p] as int]).y == b.max.y
        &&& exists|p: int| lo <= p < hi && tri_max(prims[#[trigger] idx[p] as int]).z == b.max.z
    }
}

/// Some position in `lo..hi` of `a` holds `v`.
pub open spec fn held_in(a: Seq<u16>, lo: int, hi: int, v: u16) -> bool {
    exists|q: int| lo <= q < hi && a[q] == v
}

/// `b` differs from `a` only at positions `lo..hi`, and each value there is
/// one that `a` held somewhere in `lo..hi`.
pub open spec fn perm_within(a: Seq<u16>, b: Seq<u16>, lo: int, hi: int) -> bool {
    &&& a.len() == b.len()
    &&& forall|p: int| 0 <= p < a.len() && !(lo <= p < hi) ==> #[trigger] b[p] == a[p]
    &&& forall|p: int| lo <= p < hi ==> held_in(a, lo, hi, #[trigger] b[p])
}

/// Node `k` is well formed with respect to the primitive ranges `r`:
/// its box holds every triangle of its range; a leaf names its range; an inner
/// node points to a pair of children (at an even index, after itself) that
/// split its range in two non-empty halves.
pub open spec fn node_ok(
    nodes: Seq<BvhNode>,
    prims: Seq<CollTrianglePSX>,
    idx: Seq<u16>,
    r: Seq<(int, int)>,
    k: int,
) -> bool {
    let n = nodes[k];
    let lo = r[k].0;
    let hi = r[k].1;
    &&& 0 <= lo <= hi <= idx.len()
    &&& contains_range(n.bounds, prims, idx, lo, hi)
    &&& box_attained(n.bounds, prims, idx, lo, hi)
    &&& if n.primitive_count > 0 {
        n.left_first == lo && n.primitive_count == hi - lo
    } else if lo == hi {
        n.left_first == lo
    } else {
        let c = n.left_first as int;
        &&& k < c
        &&& c + 1 < nodes.len()
        &&& c % 2 == 0
        &&& r[c].0 == lo
        &&& r[c + 1].1 == hi
        &&& r[c].1 == r[c + 1].0
        &&& lo < r[c].1 < hi
    }
}

/// The hierarchy is well formed: `r` gives each node its range of the index
/// array; the root covers every primitive; every node but the padding node at
/// index 1 is well formed; nodes come in pairs; and the index array is a
/// permutation of `0..indices.len()`.
pub open spec fn bvh_valid(bvh: CollBvh, r: Seq<(int, int)>) -> bool {
    let m = bvh.indices.len();
    &&& bvh.nodes.len() == r.len()
    &&& r.len() >= 2
    &&& r.len() % 2 == 0
    &&& r[0] == (0int, m as int)
    &&& forall|k: int|
        0 <= k < r.len() && k != 1 ==> #[trigger] node_ok(
            bvh.nodes@,
            bvh.primitives@,
            bvh.indices@,
            r,
            k,
        )
    &&& idx_valid(bvh.indices@, bvh.primitives.len() as int)
    &&& bvh.indices@.to_multiset() == Seq::new(m as nat, |i: int| i as u16).to_multiset()
}

/// The box is exactly the componentwise minimum and maximum of the
/// triangles named at positions `lo..hi` of the index array.
pub open spec fn exact_box(
    b: Aabb,
    prims: Seq<CollTrianglePSX>,
    idx: Seq<u16>,
    lo: int,
    hi: int,
) -> bool {
    contains_range(b, prims, idx, lo, hi) && box_attained(b, prims, idx, lo, hi)
}

/// The ranges, in order, tile `lo..hi`: each is non-empty and starts where
/// the one before ended, the first at `lo` and the last ending at `hi`.
pub open spec fn tiles(rs: Seq<(int, int)>, lo: int, hi: int) -> bool
    decreases rs.len(),
{
    if rs.len() == 0 {
        lo == hi
    } else {
        rs[0].0 == lo && rs[0].0 < rs[0].1 && tiles(rs.drop_first(), rs[0].1, hi)
    }
}

/// The primitive ranges of the leaves under node `k`, left to right (an
/// inner node has its children at `left_first` and `left_first + 1`).
pub open spec fn leaf_ranges(nodes: Seq<BvhNode>, k: int) -> Seq<(int, int)>
    decreases nodes.len() - k,
{
    if k < 0 || k >= nodes.len() {
        seq![]
    } else {
        let n = nodes[k];
        if n.primitive_count > 0 {
            seq![(n.left_first as int, n.left_first + n.primitive_count)]
        } else {
            let c = n.left_first as int;
            if k < c && c + 1 < nodes.len() {
                leaf_ranges(nodes, c) + leaf_ranges(nodes, c + 1)
            } else {
                seq![]
            }
        }
    }
}

proof fn lemma_tiles_concat(a: Seq<(int, int)>, b: Seq<(int, int)>, lo: int, mid: int, hi: int)
    requires
        tiles(a, lo, mid),
        tiles(b, mid, hi),
    ensures
        tiles(a + b, lo, hi),
    decreases a.len(),
{
    if a.len() == 0 {
        assert(a + b =~= b);
    } else {
        lemma_tiles_concat(a.drop_first(), b, a[0].1, mid, hi);
        assert((a + b).drop_first() =~= a.drop_first() + b);
    }
}

proof fn lemma_leaf_tiles(bvh: CollBvh, r: Seq<(int, int)>, k: int)
    requires
        bvh_valid(bvh, r),
        0 <= k < bvh.nodes.len(),
        k != 1,
        k == 0 || r[k].0 < r[k].1,
    ensures
        tiles(leaf_ranges(bvh.nodes@, k), r[k].0, r[k].1),
    decreases bvh.nodes.len() - k,
{
    let nodes = bvh.nodes@;
    assert(node_ok(nodes, bvh.primitives@, bvh.indices@, r, k));
    let n = nodes[k];
    if n.primitive_count > 0 {
        let rs = leaf_ranges(nodes, k);
        assert(rs =~= seq![(r[k].0, r[k].1)]);
        assert(rs.drop_first() =~= seq![]);
        assert(tiles(rs.drop_first(), r[k].1, r[k].1));
    } else if r[k].0 == r[k].1 {
        assert(leaf_ranges(nodes, k) =~= seq![]);
    } else {
        let c = n.left_first as int;
        assert(node_ok(nodes, bvh.primitives@, bvh.indices@, r, c));
        assert(node_ok(nodes, bvh.primitives@, bvh.indices@, r, c + 1));
        lemma_leaf_tiles(bvh, r, c);
        lemma_leaf_tiles(bvh, r, c + 1);
        lemma_tiles_concat(leaf_ranges(nodes, c), leaf_ranges(nodes, c + 1), r[k].0, r[c].1, r[k].1);
        assert(leaf_ranges(nodes, k) == leaf_ranges(nodes, c) + leaf_ranges(nodes, c + 1));
    }
}

/// In a well-formed hierarchy every node but the padding node has as box
/// exactly the componentwise minimum and maximum of the triangles of its
/// range, and the ranges of the leaves under each node tile that node's
/// range; under the root they tile the whole index array, so every
/// primitive position lies in exactly one leaf.
pub proof fn lemma_hierarchy_boxes_and_leaves(bvh: CollBvh, r: Seq<(int, int)>)
    requires
        bvh_valid(bvh, r),
    ensures
        forall|k: int|
            0 <= k < bvh.nodes.len() && k != 1 ==> exact_box(
                #[trigger] bvh.nodes@[k].bounds,
                bvh.primitives@,
                bvh.indices@,
                r[k].0,
                r[k].1,
            ),
        forall|k: int|
            0 <= k < bvh.nodes.len() && k != 1 && r[k].0 < r[k].1 ==> tiles(
                #[trigger] leaf_ranges(bvh.nodes@, k),
                r[k].0,
                r[k].1,
            ),
        tiles(leaf_ranges(bvh.nodes@, 0), 0, bvh.indices.len() as int),
{
    assert forall|k: int| 0 <= k < bvh.nodes.len() && k != 1 implies exact_box(
        #[trigger] bvh.nodes@[k].bounds,
        bvh.primitives@,
        bvh.indices@,
        r[k].0,
        r[k].1,
    ) by {
        assert(node_ok(bvh.nodes@, bvh.primitives@, bvh.indices@, r, k));
    }
    assert forall|k: int| 0 <= k < bvh.nodes.len() && k != 1 && r[k].0 < r[k].1 implies tiles(
        #[trigger] leaf_ranges(bvh.nodes@, k),
        r[k].0,
        r[k].1,
    ) by {
        lemma_leaf_tiles(bvh, r, k);
    }
    lemma_leaf_tiles(bvh, r, 0);
}

/// A collision vertex in the scaled (and negated) fixed-point units.
pub open spec fn scaled_spec(v: CollVertexPSX) -> IVec3 {
    IVec3 {
        x: (v.pos_x * -512) as i32,
        y: (v.pos_y * -512) as i32,
        z: (v.pos_z * -512) as i32,
    }
}

/// Triangle `t` of a vertex list taken three at a time, with its normal.
pub open spec fn scaled_triangle(
    vertices: Seq<CollVertexPSX>,
    normals: Seq<IVec3>,
    t: int,
) -> CollTrianglePSX {
    CollTrianglePSX {
        v0: scaled_spec(vertices[3 * t]),
        v1: scaled_spec(vertices[3 * t + 1]),
        v2: scaled_spec(vertices[3 * t + 2]),
        normal: normals[t],
        terrain_id: 0,
    }
}

/// The centre of a triangle: the mean of its vertices, rounded toward zero.
pub open spec fn triangle_center(t: CollTrianglePSX) -> IVec3 {
    IVec3 {
        x: tdiv(t.v0.x + t.v1.x + t.v2.x, 3) as i32,
        y: tdiv(t.v0.y + t.v1.y + t.v2.y, 3) as i32,
        z: tdiv(t.v0.z + t.v1.z + t.v2.z, 3) as i32,
    }
}

/// The coordinate of `v` along `axis`.
pub open spec fn axis_of(v: IVec3, axis: Axis) -> int {
    match axis {
        Axis::X => v.x as int,
        Axis::Y => v.y as int,
        Axis::Z => v.z as int,
    }
}

/// The centre of a triangle's box along one axis, rounded toward zero.
pub open spec fn center_on_axis(t: CollTrianglePSX, axis: Axis) -> int {
    tdiv(axis_of(tri_min(t), axis) + axis_of(tri_max(t), axis), 2)
}

/// The sum of the coordinates along `axis` of the vertices of the triangles
/// named at positions `lo..hi` of the index array.
pub open spec fn coord_sum(
    prims: Seq<CollTrianglePSX>,
    idx: Seq<u16>,
    axis: Axis,
    lo: int,
    hi: int,
) -> int
    decreases hi - lo,
{
    if hi <= lo {
        0
    } else {
        let t = prims[idx[hi - 1] as int];
        coord_sum(prims, idx, axis, lo, hi - 1) + axis_of(t.v0, axis) + axis_of(t.v1, axis)
            + axis_of(t.v2, axis)
    }
}

/// The split of a node with box `b` over positions `lo..hi`: along the axis
/// on which the box is strictly longest, at the mean vertex coordinate
/// (rounded toward zero); along x at 0 if no axis is strictly longest.
pub open spec fn split_choice(
    b: Aabb,
    prims: Seq<CollTrianglePSX>,
    idx: Seq<u16>,
    lo: int,
    hi: int,
) -> (Axis, int) {
    let n3 = (hi - lo) * 3;
    let sx = b.max.x - b.min.x;
    let sy = b.max.y - b.min.y;
    let sz = b.max.z - b.min.z;
    let c1 = if sx > sy && sx > sz {
        (Axis::X, tdiv(coord_sum(prims, idx, Axis::X, lo, hi), n3))
    } else {
        (Axis::X, 0)
    };
    let c2 = if sy > sx && sy > sz {
        (Axis::Y, tdiv(coord_sum(prims, idx, Axis::Y, lo, hi), n3))
    } else {
        c1
    };
    if sz > sx && sz > sy {
        (Axis::Z, tdiv(coord_sum(prims, idx, Axis::Z, lo, hi), n3))
    } else {
        c2
    }
}

/// The all-zero box that new nodes start with.
pub open spec fn zero_aabb() -> Aabb {
    Aabb { min: IVec3 { x: 0, y: 0, z: 0 }, max: IVec3 { x: 0, y: 0, z: 0 } }
}

/// A new node over `count` primitives from position `first`.
pub open spec fn fresh_node(first: int, count: int) -> BvhNode {
    BvhNode { bounds: zero_aabb(), left_first: first as u16, primitive_count: count as u16 }
}

/// The node with its box replaced.
pub open spec fn with_bounds(n: BvhNode, b: Aabb) -> BvhNode {
    BvhNode { bounds: b, left_first: n.left_first, primitive_count: n.primitive_count }
}

/// The node with its first index replaced.
pub open spec fn with_left_first(n: BvhNode, first: u16) -> BvhNode {
    BvhNode { bounds: n.bounds, left_first: first, primitive_count: n.primitive_count }
}

/// The node with its primitive count replaced.
pub open spec fn with_count(n: BvhNode, count: u16) -> BvhNode {
    BvhNode { bounds: n.bounds, left_first: n.left_first, primitive_count: count }
}

proof fn lemma_mean_bound(sum: int, n: int)
    requires
        n >= 3,
        -(n * coord_bound()) <= sum <= n * coord_bound(),
    ensures
        -coord_bound() <= tdiv(sum, n) <= coord_bound(),
{
    if sum >= 0 {
        assert(sum / n <= coord_bound()) by (nonlinear_arith)
            requires
                n >= 3,
                0 <= sum <= n * coord_bound(),
        ;
        assert(sum / n >= 0) by (nonlinear_arith)
            requires
                n >= 3,
                0 <= sum,
        ;
    } else {
        assert((-sum) / n <= coord_bound()) by (nonlinear_arith)
            requires
                n >= 3,
                0 <= -sum <= n * coord_bound(),
        ;
        assert((-sum) / n >= 0) by (nonlinear_arith)
            requires
                n >= 3,
                0 <= -sum,
        ;
    }
}

/// The partition position stays within the positions the loop has looked at.
pub proof fn lemma_partition_spec_range(
    prims: Seq<CollTrianglePSX>,
    idx: Seq<u16>,
    axis: Axis,
    pivot: int,
    start: int,
    j: int,
)
    requires
        start <= j,
    ensures
        start <= partition_spec(prims, idx, axis, pivot, start, j).1 <= j,
    decreases j - start,
{
    if j > start {
        lemma_partition_spec_range(prims, idx, axis, pivot, start, j - 1);
    }
}

/// The index array and nodes after subdividing node `k`, which covers
/// positions `first..first + count`: the node gets the box of its
/// primitives; with at least three primitives they are partitioned (see
/// `split_choice` and `partition_spec`), and if both parts are non-empty the
/// node gets two new children, appended to the nodes and subdivided in turn,
/// and becomes an inner node.
pub open spec fn subdivide_spec(
    prims: Seq<CollTrianglePSX>,
    idx: Seq<u16>,
    nodes: Seq<BvhNode>,
    k: int,
    first: int,
    count: int,
) -> (Seq<u16>, Seq<BvhNode>)
    decreases count,
{
    let b = range_bounds(prims, idx, first, first + count);
    let nodes1 = nodes.update(k, with_bounds(nodes[k], b));
    if count < 3 {
        (idx, nodes1)
    } else {
        let (axis, pivot) = split_choice(b, prims, idx, first, first + count);
        let (idx2, s) = partition_spec(prims, idx, axis, pivot, first, first + count);
        if s == first + count || s == first {
            (idx2, nodes1)
        } else {
            proof {
                lemma_partition_spec_range(prims, idx, axis, pivot, first, first + count);
            }
            let c = nodes1.len() as int;
            let nodes2 = nodes1.update(k, with_left_first(nodes1[k], c as u16)).push(
                fresh_node(first, s - first),
            ).push(fresh_node(s, first + count - s));
            let (idx3, nodes3) = subdivide_spec(prims, idx2, nodes2, c, first, s - first);
            let (idx4, nodes4) = subdivide_spec(
                prims,
                idx3,
                nodes3,
                c + 1,
                s,
                first + count - s,
            );
            (idx4, nodes4.update(k, with_count(nodes4[k], 0)))
        }
    }
}

/// The index array and nodes of the hierarchy over `prims`: the identity
/// index array and a root (plus the padding node) over every primitive,
/// with the root subdivided.
pub open spec fn built_hierarchy(prims: Seq<CollTrianglePSX>) -> (Seq<u16>, Seq<BvhNode>) {
    let n = prims.len() as int;
    subdivide_spec(
        prims,
        Seq::new(n as nat, |i: int| i as u16),
        seq![fresh_node(0, n), fresh_node(0, n)],
        0,
        0,
        n,
    )
}

/// The index array and the position `i` after the partition loop has looked
/// at positions `start..j`: a primitive whose box centre along `axis` lies
/// beyond `pivot` is swapped to position `i`, which then advances, unless it
/// already stands there (`j == i`), in which case it stays in place and `i`
/// does not advance.
pub open spec fn partition_spec(
    prims: Seq<CollTrianglePSX>,
    idx: Seq<u16>,
    axis: Axis,
    pivot: int,
    start: int,
    j: int,
) -> (Seq<u16>, int)
    decreases j - start,
{
    if j <= start {
        (idx, start)
    } else {
        let (a, i) = partition_spec(prims, idx, axis, pivot, start, j - 1);
        let k = j - 1;
        if center_on_axis(prims[a[k] as int], axis) > pivot && k != i {
            (a.update(i, a[k]).update(k, a[i]), i + 1)
        } else {
            (a, i)
        }
    }
}

proof fn lemma_perm_refl(a: Seq<u16>, lo: int, hi: int)
    requires
        0 <= lo <= hi <= a.len(),
    ensures
        perm_within(a, a, lo, hi),
{
    assert forall|p: int| lo <= p < hi implies held_in(a, lo, hi, #[trigger] a[p]) by {
        assert(lo <= p < hi && a[p] == a[p]);
    }
}

proof fn lemma_perm_trans(a: Seq<u16>, b: Seq<u16>, c: Seq<u16>, lo: int, hi: int, lo2: int, hi2: int)
    requires
        perm_within(a, b, lo, hi),
        perm_within(b, c, lo2, hi2),
        0 <= lo <= lo2,
        hi2 <= hi <= a.len(),
    ensures
        perm_within(a, c, lo, hi),
{
    assert forall|p: int| lo <= p < hi implies held_in(a, lo, hi, #[trigger] c[p]) by {
        if lo2 <= p < hi2 {
            assert(held_in(b, lo2, hi2, c[p]));
            let q1 = choose|q1: int| lo2 <= q1 < hi2 && b[q1] == c[p];
            assert(held_in(a, lo, hi, b[q1]));
            let q2 = choose|q2: int| lo <= q2 < hi && a[q2] == b[q1];
            assert(lo <= q2 < hi && a[q2] == c[p]);
        } else {
            assert(c[p] == b[p]);
            assert(held_in(a, lo, hi, b[p]));
        }
    }
}

proof fn lemma_swap(a: Seq<u16>, i: int, j: int, lo: int, hi: int)
    requires
        lo <= i < hi,
        lo <= j < hi,
        0 <= lo,
        hi <= a.len(),
    ensures
        perm_within(a, a.update(i, a[j]).update(j, a[i]), lo, hi),
        a.update(i, a[j]).update(j, a[i]).to_multiset() == a.to_multiset(),
{
    let b = a.update(i, a[j]).update(j, a[i]);
    assert forall|p: int| lo <= p < hi implies held_in(a, lo, hi, #[trigger] b[p]) by {
        if p == j {
            assert(lo <= i < hi && a[i] == b[p]);
        } else if p == i {
            assert(lo <= j < hi && a[j] == b[p]);
        } else {
            assert(lo <= p < hi && a[p] == b[p]);
        }
    }
    let s1 = a.update(i, a[j]);
    vstd::seq_lib::to_multiset_update(a, i, a[j]);
    vstd::seq_lib::to_multiset_update(s1, j, a[i]);
    if i == j {
        assert(b =~= a);
    } else {
        assert(s1[j] == a[j]);
        let m = a.to_multiset();
        assert(m.count(a[i]) > 0);
        assert(m.count(a[j]) > 0);
        assert(m.insert(a[j]).remove(a[i]).insert(a[i]).remove(a[j]) =~= m);
    }
}

proof fn lemma_contains_perm(
    b: Aabb,
    prims: Seq<CollTrianglePSX>,
    a: Seq<u16>,
    c: Seq<u16>,
    lo: int,
    hi: int,
)
    requires
        contains_range(b, prims, a, lo, hi),
        perm_within(a, c, lo, hi),
    ensures
        contains_range(b, prims, c, lo, hi),
{
    assert forall|p: int| lo <= p < hi implies #[trigger] aabb_contains(b, prims[c[p] as int]) by {
        assert(held_in(a, lo, hi, c[p]));
        let q = choose|q: int| lo <= q < hi && a[q] == c[p];
        assert(aabb_contains(b, prims[a[q] as int]));
    }
}

proof fn lemma_range_bounds_attained(prims: Seq<CollTrianglePSX>, idx: Seq<u16>, lo: int, hi: int)
    requires
        lo <= hi,
    ensures
        box_attained(range_bounds(prims, idx, lo, hi), prims, idx, lo, hi),
    decreases hi - lo,
{
    if lo < hi {
        lemma_range_bounds_attained(prims, idx, lo, hi - 1);
        let b = range_bounds(prims, idx, lo, hi - 1);
        let t = prims[idx[hi - 1] as int];
        let nb = range_bounds(prims, idx, lo, hi);
        let q = hi - 1;
        assert(nb == Aabb { min: vmin(b.min, tri_min(t)), max: vmax(b.max, tri_max(t)) });
        if lo == hi - 1 {
            assert(b == empty_aabb());
        } else {
            assert(box_attained(b, prims, idx, lo, hi - 1));
        }
        assert(tri_min(prims[idx[q] as int]) == tri_min(t));
        if nb.min.x != tri_min(t).x {
            let p = choose|p: int| lo <= p < hi - 1 && tri_min(prims[#[trigger] idx[p] as int]).x == b.min.x;
        }
        if nb.min.y != tri_min(t).y {
            let p = choose|p: int| lo <= p < hi - 1 && tri_min(prims[#[trigger] idx[p] as int]).y == b.min.y;
        }
        if nb.min.z != tri_min(t).z {
            let p = choose|p: int| lo <= p < hi - 1 && tri_min(prims[#[trigger] idx[p] as int]).z == b.min.z;
        }
        if nb.max.x != tri_max(t).x {
            let p = choose|p: int| lo <= p < hi - 1 && tri_max(prims[#[trigger] idx[p] as int]).x == b.max.x;
        }
        if nb.max.y != tri_max(t).y {
            let p = choose|p: int| lo <= p < hi - 1 && tri_max(prims[#[trigger] idx[p] as int]).y == b.max.y;
        }
        if nb.max.z != tri_max(t).z {
            let p = choose|p: int| lo <= p < hi - 1 && tri_max(prims[#[trigger] idx[p] as int]).z == b.max.z;
        }
    }
}

/// A value at a position of `lo..hi` of `a` is still somewhere in `lo..hi`
/// of `c` when `c` is a rearrangement of `a` that leaves the rest in place.
proof fn lemma_range_keeps(a: Seq<u16>, c: Seq<u16>, lo: int, hi: int, p: int)
    requires
        0 <= lo <= p < hi <= a.len(),
        a.len() == c.len(),
        forall|q: int| 0 <= q < a.len() && !(lo <= q < hi) ==> #[trigger] c[q] == a[q],
        a.to_multiset() == c.to_multiset(),
    ensures
        exists|q: int| lo <= q < hi && c[q] == a[p],
{
    broadcast use vstd::seq_lib::lemma_multiset_commutative;

    let a1 = a.subrange(0, lo);
    let am = a.subrange(lo, hi);
    let a2 = a.subrange(hi, a.len() as int);
    let c1 = c.subrange(0, lo);
    let cm = c.subrange(lo, hi);
    let c2 = c.subrange(hi, c.len() as int);
    assert(a =~= a1 + am + a2);
    assert(c =~= c1 + cm + c2);
    assert(a1 =~= c1);
    assert(a2 =~= c2);
    assert((a1 + am + a2).to_multiset() =~= (a1 + am).to_multiset().add(a2.to_multiset()));
    assert((a1 + am).to_multiset() =~= a1.to_multiset().add(am.to_multiset()));
    assert((c1 + cm + c2).to_multiset() =~= (c1 + cm).to_multiset().add(c2.to_multiset()));
    assert((c1 + cm).to_multiset() =~= c1.to_multiset().add(cm.to_multiset()));
    let v = a[p];
    am.to_multiset_ensures();
    cm.to_multiset_ensures();
    assert(am[p - lo] == v);
    assert(am.contains(v));
    assert(am.to_multiset().count(v) > 0);
    assert(a.to_multiset() == a1.to_multiset().add(am.to_multiset()).add(a2.to_multiset()));
    assert(c.to_multiset() == a1.to_multiset().add(cm.to_multiset()).add(a2.to_multiset()));
    assert(a.to_multiset().count(v) == a1.to_multiset().count(v) + am.to_multiset().count(v)
        + a2.to_multiset().count(v));
    assert(c.to_multiset().count(v) == a1.to_multiset().count(v) + cm.to_multiset().count(v)
        + a2.to_multiset().count(v));
    assert(cm.to_multiset().count(v) == am.to_multiset().count(v));
    assert(cm.contains(v));
    let j = choose|j: int| 0 <= j < cm.len() && cm[j] == v;
    assert(c[lo + j] == v);
}

/// The faces of the box still touch triangles of the range after the range
/// is rearranged.
proof fn lemma_attained_perm(
    b: Aabb,
    prims: Seq<CollTrianglePSX>,
    a: Seq<u16>,
    c: Seq<u16>,
    lo: int,
    hi: int,
)
    requires
        box_attained(b, prims, a, lo, hi),
        0 <= lo <= hi <= a.len(),
        perm_within(a, c, lo, hi),
        a.to_multiset() == c.to_multiset(),
    ensures
        box_attained(b, prims, c, lo, hi),
{
    if lo < hi {
        let p = choose|p: int| lo <= p < hi && tri_min(prims[#[trigger] a[p] as int]).x == b.min.x;
        lemma_range_keeps(a, c, lo, hi, p);
        let q = choose|q: int| lo <= q < hi && c[q] == a[p];
        assert(tri_min(prims[c[q] as int]).x == b.min.x);
        let p = choose|p: int| lo <= p < hi && tri_min(prims[#[trigger] a[p] as int]).y == b.min.y;
        lemma_range_keeps(a, c, lo, hi, p);
        let q = choose|q: int| lo <= q < hi && c[q] == a[p];
        assert(tri_min(prims[c[q] as int]).y == b.min.y);
        let p = choose|p: int| lo <= p < hi && tri_min(prims[#[trigger] a[p] as int]).z == b.min.z;
        lemma_range_keeps(a, c, lo, hi, p);
        let q = choose|q: int| lo <= q < hi && c[q] == a[p];
        assert(tri_min(prims[c[q] as int]).z == b.min.z);
        let p = choose|p: int| lo <= p < hi && tri_max(prims[#[trigger] a[p] as int]).x == b.max.x;
        lemma_range_keeps(a, c, lo, hi, p);
        let q = choose|q: int| lo <= q < hi && c[q] == a[p];
        assert(tri_max(prims[c[q] as int]).x == b.max.x);
        let p = choose|p: int| lo <= p < hi && tri_max(prims[#[trigger] a[p] as int]).y == b.max.y;
        lemma_range_keeps(a, c, lo, hi, p);
        let q = choose|q: int| lo <= q < hi && c[q] == a[p];
        assert(tri_max(prims[c[q] as int]).y == b.max.y);
        let p = choose|p: int| lo <= p < hi && tri_max(prims[#[trigger] a[p] as int]).z == b.max.z;
        lemma_range_keeps(a, c, lo, hi, p);
        let q = choose|q: int| lo <= q < hi && c[q] == a[p];
        assert(tri_max(prims[c[q] as int]).z == b.max.z);
    }
}

/// Node `k` stays well formed when neither it, the ranges up to its children,
/// nor the index positions of its range change.
proof fn lemma_node_ok_frame(
    n1: Seq<BvhNode>,
    prims: Seq<CollTrianglePSX>,
    i1: Seq<u16>,
    r1: Seq<(int, int)>,
    n2: Seq<BvhNode>,
    i2: Seq<u16>,
    r2: Seq<(int, int)>,
    k: int,
)
    requires
        0 <= k < n1.len(),
        node_ok(n1, prims, i1, r1, k),
        n1.len() <= n2.len(),
        r1.len() == n1.len(),
        r1.len() <= r2.len(),
        r2.subrange(0, r1.len() as int) == r1,
        n2[k] == n1[k],
        i1.len() == i2.len(),
        forall|p: int| r1[k].0 <= p < r1[k].1 ==> #[trigger] i2[p] == i1[p],
    ensures
        node_ok(n2, prims, i2, r2, k),
{
    assert(r2[k] == r1[k]);
    let n = n1[k];
    if n.primitive_count == 0 && r1[k].0 != r1[k].1 {
        let c = n.left_first as int;
        assert(r2[c] == r1[c]);
        assert(r2[c + 1] == r1[c + 1]);
    }
    assert forall|p: int| r1[k].0 <= p < r1[k].1 implies #[trigger] aabb_contains(
        n.bounds,
        prims[i2[p] as int],
    ) by {
        assert(i2[p] == i1[p]);
    }
    let lo = r1[k].0;
    let hi = r1[k].1;
    if lo < hi {
        let b = n.bounds;
        let p = choose|p: int| lo <= p < hi && tri_min(prims[#[trigger] i1[p] as int]).x == b.min.x;
        assert(i2[p] == i1[p]);
        let p = choose|p: int| lo <= p < hi && tri_min(prims[#[trigger] i1[p] as int]).y == b.min.y;
        assert(i2[p] == i1[p]);
        let p = choose|p: int| lo <= p < hi && tri_min(prims[#[trigger] i1[p] as int]).z == b.min.z;
        assert(i2[p] == i1[p]);
        let p = choose|p: int| lo <= p < hi && tri_max(prims[#[trigger] i1[p] as int]).x == b.max.x;
        assert(i2[p] == i1[p]);
        let p = choose|p: int| lo <= p < hi && tri_max(prims[#[trigger] i1[p] as int]).y == b.max.y;
        assert(i2[p] == i1[p]);
        let p = choose|p: int| lo <= p < hi && tri_max(prims[#[trigger] i1[p] as int]).z == b.max.z;
        assert(i2[p] == i1[p]);
    }
}

impl CollBvh {
    /// Builds the hierarchy over the triangles `vertices[3t..3t+3]`, each with
    /// the normal `normals[t]`.
    ///
    /// The primitives are the scaled triangles and the centres their rounded
    /// means; the index array and the nodes are those of `built_hierarchy`,
    /// which is well formed over a permutation of the primitive indices (see
    /// `bvh_valid`).
    pub fn construct(vertices: &Vec<CollVertexPSX>, normals: &Vec<IVec3>) -> (bvh: CollBvh)
        requires
            vertices.len() / 3 <= 32767,
            normals.len() == vertices.len() / 3,
        ensures
            bvh.primitives.len() == vertices.len() / 3,
            forall|t: int|
                0 <= t < bvh.primitives.len() ==> #[trigger] bvh.primitives@[t] == scaled_triangle(
                    vertices@,
                    normals@,
                    t,
                ),
            bvh.centers.len() == bvh.primitives.len(),
            forall|t: int|
                0 <= t < bvh.centers.len() ==> #[trigger] bvh.centers@[t] == triangle_center(
                    bvh.primitives@[t],
                ),
            bvh.indices.len() == bvh.primitives.len(),
            bvh.node_pointer == 0,
            (bvh.indices@, bvh.nodes@) == built_hierarchy(bvh.primitives@),
            exists|r: Seq<(int, int)>| bvh_valid(bvh, r),
    {
        let n_tris = vertices.len() / 3;
        let mut primitives: Vec<CollTrianglePSX> = Vec::new();
        let mut centers: Vec<IVec3> = Vec::new();

        // Get primitives and their center points
        let mut t: usize = 0;
        while t < n_tris
            invariant
                n_tris == vertices.len() / 3,
                n_tris <= 32767,
                normals.len() == n_tris,
                t <= n_tris,
                primitives.len() == t,
                centers.len() == t,
                forall|u: int|
                    0 <= u < t ==> #[trigger] primitives@[u] == scaled_triangle(
                        vertices@,
                        normals@,
                        u,
                    ),
                forall|u: int|
                    0 <= u < t ==> #[trigger] centers@[u] == triangle_center(primitives@[u]),
                prims_bounded(primitives@),
            decreases n_tris - t,
        {
            let v0 = scaled_vertex(&vertices[3 * t]);
            let v1 = scaled_vertex(&vertices[3 * t + 1]);
            let v2 = scaled_vertex(&vertices[3 * t + 2]);
            let tri = CollTrianglePSX { v0, v1, v2, normal: normals[t], terrain_id: 0 };
            primitives.push(tri);
            let center = IVec3 {
                x: (v0.x + v1.x + v2.x) / 3,
                y: (v0.y + v1.y + v2.y) / 3,
                z: (v0.z + v1.z + v2.z) / 3,
            };
            centers.push(center);
            proof {
                assert forall|u: int| 0 <= u < primitives.len() implies #[trigger] tri_bounded(
                    primitives@[u],
                ) by {
                    if u < t {
                    } else {
                        assert(primitives@[u] == tri);
                    }
                }
            }
            t += 1;
        }

        // Create index array
        let count: u16 = n_tris as u16;
        let mut indices: Vec<u16> = Vec::new();
        let mut i: u16 = 0;
        while i < count
            invariant
                count == n_tris,
                n_tris <= 32767,
                i <= count,
                indices@ == Seq::new(i as nat, |p: int| p as u16),
            decreases count - i,
        {
            indices.push(i);
            assert(indices@ =~= Seq::new((i + 1) as nat, |p: int| p as u16));
            i += 1;
        }
        let mut bvh = CollBvh {
            primitives,
            indices,
            nodes: Vec::new(),
            centers,
            node_pointer: 0,
        };

        // Create root node
        bvh.nodes.push(
            BvhNode {
                bounds: Aabb {
                    min: IVec3 { x: 0, y: 0, z: 0 },
                    max: IVec3 { x: 0, y: 0, z: 0 },
                },
                left_first: 0,
                primitive_count: count,
            },
        );

        // Create empty dummy node so each pair is aligned to a multiple of 2
        bvh.nodes.push(
            BvhNode {
                bounds: Aabb {
                    min: IVec3 { x: 0, y: 0, z: 0 },
                    max: IVec3 { x: 0, y: 0, z: 0 },
                },
                left_first: 0,
                primitive_count: count,
            },
        );

        proof {
            assert(bvh.nodes@ =~= seq![
                fresh_node(0, n_tris as int),
                fresh_node(0, n_tris as int),
            ]);
        }
        let ghost r0: Seq<(int, int)> = seq![(0int, count as int), (0int, count as int)];
        let ghost idx0 = bvh.indices@;
        proof {
            assert(r0.len() == 2);
        }
        let Ghost(r) = bvh.subdivide(0, 0, Ghost(r0));
        proof {
            assert(r[0] == r0[0]);
            assert forall|k: int| 0 <= k < r.len() && k != 1 implies #[trigger] node_ok(
                bvh.nodes@,
                bvh.primitives@,
                bvh.indices@,
                r,
                k,
            ) by {
                if k >= 2 {
                } else {
                    assert(k == 0);
                }
            }
            assert(bvh_valid(bvh, r));
        }
        bvh
    }

    /// The bounding box of the triangles named at positions
    /// `first..first + count` of the index array.
    fn get_bounds(&self, first: u16, count: u16) -> (result: Aabb)
        requires
            first + count <= self.indices.len(),
            self.indices.len() <= 65535,
            idx_valid(self.indices@, self.primitives.len() as int),
        ensures
            result == range_bounds(self.primitives@, self.indices@, first as int, first + count),
            contains_range(result, self.primitives@, self.indices@, first as int, first + count),
            count > 0 && prims_bounded(self.primitives@) ==> in_coord_range(result.min)
                && in_coord_range(result.max),
    {
        let mut result = Aabb {
            min: IVec3 { x: i32::MAX, y: i32::MAX, z: i32::MAX },
            max: IVec3 { x: i32::MIN, y: i32::MIN, z: i32::MIN },
        };

        let mut i: u16 = 0;
        while i < count
            invariant
                first + count <= self.indices.len(),
                self.indices.len() <= 65535,
                idx_valid(self.indices@, self.primitives.len() as int),
                i <= count,
                result == range_bounds(self.primitives@, self.indices@, first as int, first + i),
                contains_range(result, self.primitives@, self.indices@, first as int, first + i),
                i > 0 && prims_bounded(self.primitives@) ==> in_coord_range(result.min)
                    && in_coord_range(result.max),
            decreases count - i,
        {
            let triangle = self.primitives[self.indices[(first + i) as usize] as usize];
            proof {
                if prims_bounded(self.primitives@) {
                    assert(tri_bounded(self.primitives@[self.indices@[first + i] as int]));
                }
            }
            let ghost old_result = result;
            result.max = result.max.max(triangle.v0.max(triangle.v1.max(triangle.v2)));
            result.min = result.min.min(triangle.v0.min(triangle.v1.min(triangle.v2)));
            proof {
                assert forall|p: int| first <= p < first + i + 1 implies #[trigger] aabb_contains(
                    result,
                    self.primitives@[self.indices@[p] as int],
                ) by {
                    if p < first + i {
                        assert(aabb_contains(
                            old_result,
                            self.primitives@[self.indices@[p] as int],
                        ));
                    }
                }
            }
            i += 1;
        }

        result
    }

    /// Moves the primitives whose box centre along `axis` lies beyond `pivot`
    /// toward the front of positions `start..start + count`, and sets
    /// `split_index` to the end of that front part.
    fn partition(
        primitives: &Vec<CollTrianglePSX>,
        indices: &mut Vec<u16>,
        axis: Axis,
        pivot: i32,
        start: u16,
        count: u16,
        split_index: &mut u16,
    )
        requires
            start + count <= old(indices).len(),
            old(indices).len() <= 65535,
            idx_valid(old(indices)@, primitives.len() as int),
            prims_bounded(primitives@),
        ensures
            start <= *final(split_index) <= start + count,
            perm_within(old(indices)@, final(indices)@, start as int, start + count),
            final(indices)@.to_multiset() == old(indices)@.to_multiset(),
            idx_valid(final(indices)@, primitives.len() as int),
            forall|p: int|
                start <= p < *final(split_index) ==> center_on_axis(
                    primitives@[#[trigger] final(indices)@[p] as int],
                    axis,
                ) > pivot,
            (final(indices)@, *final(split_index) as int) == partition_spec(
                primitives@,
                old(indices)@,
                axis,
                pivot as int,
                start as int,
                start + count,
            ),
    {
        let ghost idx0 = indices@;
        proof {
            lemma_perm_refl(idx0, start as int, start + count);
        }
        let mut i: u16 = start;
        let mut j: u16 = start;
        while j < start + count
            invariant
                start + count <= indices.len(),
                indices.len() <= 65535,
                start <= i <= j <= start + count,
                prims_bounded(primitives@),
                perm_within(idx0, indices@, start as int, start + count),
                indices@.to_multiset() == idx0.to_multiset(),
                idx_valid(indices@, primitives.len() as int),
                forall|p: int|
                    start <= p < i ==> center_on_axis(
                        primitives@[#[trigger] indices@[p] as int],
                        axis,
                    ) > pivot,
                (indices@, i as int) == partition_spec(
                    primitives@,
                    idx0,
                    axis,
                    pivot as int,
                    start as int,
                    j as int,
                ),
            decreases start + count - j,
        {
            // Get min and max of the axis we want
            let prim = primitives[indices[j as usize] as usize];
            proof {
                assert(tri_bounded(primitives@[indices@[j as int] as int]));
            }
            let bmin = prim.v0.min(prim.v1.min(prim.v2));
            let bmax = prim.v0.max(prim.v1.max(prim.v2));

            // Get center
            let center_point: i32 = match axis {
                Axis::X => ((bmin.x as i64 + bmax.x as i64) / 2) as i32,
                Axis::Y => ((bmin.y as i64 + bmax.y as i64) / 2) as i32,
                Axis::Z => ((bmin.z as i64 + bmax.z as i64) / 2) as i32,
            };

            // Swap primitives that are on the wrong sides of the pivot
            if (center_point > pivot) && (j != i) {
                let ghost before = indices@;
                let a = indices[i as usize];
                let b = indices[j as usize];
                indices.set(i as usize, b);
                indices.set(j as usize, a);
                proof {
                    lemma_swap(before, i as int, j as int, start as int, start + count);
                    assert(indices@ == before.update(i as int, before[j as int]).update(
                        j as int,
                        before[i as int],
                    ));
                    lemma_perm_trans(
                        idx0,
                        before,
                        indices@,
                        start as int,
                        start + count,
                        start as int,
                        start + count,
                    );
                    assert(center_on_axis(primitives@[indices@[i as int] as int], axis) > pivot);
                }
                i += 1;
            }
            j += 1;
        }

        *split_index = i;
    }

    /// Computes the node's box and, where its primitives can be split along
    /// the longest axis of that box, turns it into an inner node with two new
    /// children and subdivides those.
    ///
    /// `r` gives the primitive range of every existing node; the returned
    /// ranges extend it with those of the new nodes.
    #[verifier::rlimit(100)]
    #[verifier::spinoff_prover]
    fn subdivide(
        &mut self,
        node_index: usize,
        recursion_depth: usize,
        Ghost(r): Ghost<Seq<(int, int)>>,
    ) -> (r2: Ghost<Seq<(int, int)>>)
        requires
            node_index < old(self).nodes.len(),
            old(self).nodes.len() == r.len(),
            old(self).nodes.len() % 2 == 0,
            r[node_index as int] == (
                old(self).nodes@[node_index as int].left_first as int,
                old(self).nodes@[node_index as int].left_first
                    + old(self).nodes@[node_index as int].primitive_count,
            ),
            old(self).nodes@[node_index as int].left_first
                + old(self).nodes@[node_index as int].primitive_count <= old(self).indices.len(),
            old(self).indices.len() <= 65535,
            idx_valid(old(self).indices@, old(self).primitives.len() as int),
            prims_bounded(old(self).primitives@),
            old(self).nodes.len() + 2 * old(self).nodes@[node_index as int].primitive_count
                <= 65536,
            recursion_depth + old(self).nodes@[node_index as int].primitive_count <= 0x20000,
        ensures
            final(self).primitives@ == old(self).primitives@,
            final(self).centers@ == old(self).centers@,
            final(self).node_pointer == old(self).node_pointer,
            perm_within(
                old(self).indices@,
                final(self).indices@,
                r[node_index as int].0,
                r[node_index as int].1,
            ),
            final(self).indices@.to_multiset() == old(self).indices@.to_multiset(),
            idx_valid(final(self).indices@, final(self).primitives.len() as int),
            final(self).nodes.len() >= old(self).nodes.len(),
            final(self).nodes.len() % 2 == 0,
            final(self).nodes.len() == old(self).nodes.len() || final(self).nodes.len() + 2
                <= old(self).nodes.len() + 2 * old(self).nodes@[node_index as int].primitive_count,
            r2@.len() == final(self).nodes.len(),
            r2@.subrange(0, old(self).nodes.len() as int) == r,
            forall|k: int|
                0 <= k < old(self).nodes.len() && k != node_index ==> #[trigger] final(self).nodes@[k] == old(self).nodes@[k],
            node_ok(
                final(self).nodes@,
                final(self).primitives@,
                final(self).indices@,
                r2@,
                node_index as int,
            ),
            forall|k: int|
                old(self).nodes.len() <= k < final(self).nodes.len() ==> #[trigger] node_ok(
                    final(self).nodes@,
                    final(self).primitives@,
                    final(self).indices@,
                    r2@,
                    k,
                ) && r[node_index as int].0 <= r2@[k].0 && r2@[k].1 <= r[node_index as int].1,
            (final(self).indices@, final(self).nodes@) == subdivide_spec(
                old(self).primitives@,
                old(self).indices@,
                old(self).nodes@,
                node_index as int,
                old(self).nodes@[node_index as int].left_first as int,
                old(self).nodes@[node_index as int].primitive_count as int,
            ),
        decreases old(self).nodes@[node_index as int].primitive_count,
    {
        let ghost old_len = self.nodes.len();
        let ghost idx0 = self.indices@;
        let ghost nodes0 = self.nodes@;
        let lf = self.nodes[node_index].left_first;
        let cnt = self.nodes[node_index].primitive_count;
        let ghost spec = subdivide_spec(
            self.primitives@,
            idx0,
            nodes0,
            node_index as int,
            lf as int,
            cnt as int,
        );

        // Determine AABB for primitives in array
        let bounds = self.get_bounds(lf, cnt);
        self.nodes[node_index].bounds = bounds;
        let ghost nodes_b = self.nodes@;
        proof {
            assert(nodes_b =~= nodes0.update(
                node_index as int,
                with_bounds(nodes0[node_index as int], bounds),
            ));
        }

        if cnt < 3 {
            proof {
                lemma_perm_refl(idx0, lf as int, lf + cnt);
                lemma_range_bounds_attained(self.primitives@, idx0, lf as int, lf + cnt);
                assert(r.subrange(0, old_len as int) =~= r);
                assert(self.nodes.len() == old_len);
            }
            return Ghost(r);
        }
        // Get the average position of all the primitives

        let mut avg_x: i64 = 0;
        let mut avg_y: i64 = 0;
        let mut avg_z: i64 = 0;
        let mut i: u16 = lf;
        while i < lf + cnt
            invariant
                lf + cnt <= self.indices.len(),
                self.indices.len() <= 65535,
                lf <= i <= lf + cnt,
                idx_valid(self.indices@, self.primitives.len() as int),
                prims_bounded(self.primitives@),
                -(i - lf) * 3 * coord_bound() <= avg_x <= (i - lf) * 3 * coord_bound(),
                -(i - lf) * 3 * coord_bound() <= avg_y <= (i - lf) * 3 * coord_bound(),
                -(i - lf) * 3 * coord_bound() <= avg_z <= (i - lf) * 3 * coord_bound(),
                self.indices@ == idx0,
                avg_x == coord_sum(self.primitives@, self.indices@, Axis::X, lf as int, i as int),
                avg_y == coord_sum(self.primitives@, self.indices@, Axis::Y, lf as int, i as int),
                avg_z == coord_sum(self.primitives@, self.indices@, Axis::Z, lf as int, i as int),
            decreases lf + cnt - i,
        {
            let prim = self.primitives[self.indices[i as usize] as usize];
            proof {
                assert(tri_bounded(self.primitives@[self.indices@[i as int] as int]));
            }
            avg_x = avg_x + prim.v0.x as i64 + prim.v1.x as i64 + prim.v2.x as i64;
            avg_y = avg_y + prim.v0.y as i64 + prim.v1.y as i64 + prim.v2.y as i64;
            avg_z = avg_z + prim.v0.z as i64 + prim.v1.z as i64 + prim.v2.z as i64;
            i += 1;
        }
        let ghost sum_x = avg_x as int;
        let ghost sum_y = avg_y as int;
        let ghost sum_z = avg_z as int;
        let divisor: i64 = cnt as i64 * 3;
        avg_x = avg_x / divisor;
        avg_y = avg_y / divisor;
        avg_z = avg_z / divisor;
        proof {
            lemma_mean_bound(sum_x, divisor as int);
            lemma_mean_bound(sum_y, divisor as int);
            lemma_mean_bound(sum_z, divisor as int);
            assert(avg_x == tdiv(sum_x, divisor as int));
            assert(avg_y == tdiv(sum_y, divisor as int));
            assert(avg_z == tdiv(sum_z, divisor as int));
        }

        // Determine split axis - choose biggest axis
        let mut split_axis = Axis::X;
        let mut split_pos: i64 = 0;

        let size_x = bounds.max.x - bounds.min.x;
        let size_y = bounds.max.y - bounds.min.y;
        let size_z = bounds.max.z - bounds.min.z;

        if size_x > size_y && size_x > size_z {
            split_axis = Axis::X;
            split_pos = avg_x;
        }
        if size_y > size_x && size_y > size_z {
            split_axis = Axis::Y;
            split_pos = avg_y;
        }
        if size_z > size_x && size_z > size_y {
            split_axis = Axis::Z;
            split_pos = avg_z;
        }

        proof {
            assert((split_axis, split_pos as int) == split_choice(
                bounds,
                self.primitives@,
                idx0,
                lf as int,
                lf + cnt,
            ));
            assert(-coord_bound() <= split_pos <= coord_bound());
        }

        // Partition the index array, and get the split position
        let mut split_index: u16 = lf;
        Self::partition(
            &self.primitives,
            &mut self.indices,
            split_axis,
            #[verifier::truncate]
            (split_pos as i32),
            lf,
            cnt,
            &mut split_index,
        );
        let ghost idx1 = self.indices@;
        proof {
            lemma_contains_perm(bounds, self.primitives@, idx0, idx1, lf as int, lf + cnt);
            lemma_range_bounds_attained(self.primitives@, idx0, lf as int, lf + cnt);
            lemma_attained_perm(bounds, self.primitives@, idx0, idx1, lf as int, lf + cnt);
        }

        // If splitIndex is at the end of the array, we've reached a dead end, so stop here
        // If splitIndex and the start are the same, we've reached a dead end, so stop here
        if split_index == lf + cnt || split_index == lf {
            proof {
                assert(r.subrange(0, old_len as int) =~= r);
                assert(self.nodes.len() == old_len);
            }
            return Ghost(r);
        }
        // Save the start index of this node

        let start_index = lf;
        let primitive_count = cnt;

        // Create child nodes
        let c = self.nodes.len();
        self.nodes[node_index].left_first = c as u16;

        // Left
        self.nodes.push(
            BvhNode {
                bounds: Aabb {
                    max: IVec3 { x: 0, y: 0, z: 0 },
                    min: IVec3 { x: 0, y: 0, z: 0 },
                },
                left_first: start_index,
                primitive_count: split_index - start_index,
            },
        );

        // Right
        self.nodes.push(
            BvhNode {
                bounds: Aabb {
                    max: IVec3 { x: 0, y: 0, z: 0 },
                    min: IVec3 { x: 0, y: 0, z: 0 },
                },
                left_first: split_index,
                primitive_count: start_index + primitive_count - split_index,
            },
        );
        let ghost r1 = r.push((lf as int, split_index as int)).push(
            (split_index as int, lf + cnt),
        );
        let ghost nodes1 = self.nodes@;
        let ghost len1 = self.nodes.len();

        let Ghost(ra) = self.subdivide(
            self.nodes[node_index].left_first as usize + 0,
            recursion_depth + 1,
            Ghost(r1),
        );
        let ghost nodes2 = self.nodes@;
        let ghost idx2 = self.indices@;
        let ghost len2 = self.nodes.len();
        proof {
            assert(ra[c as int] == r1[c as int]);
            assert(ra.subrange(0, len1 as int)[c + 1] == r1[c + 1]);
            assert(self.nodes@[c + 1] == nodes1[c + 1]);
        }
        let Ghost(rb) = self.subdivide(
            self.nodes[node_index].left_first as usize + 1,
            recursion_depth + 1,
            Ghost(ra),
        );
        let ghost nodes3 = self.nodes@;

        self.nodes[node_index].primitive_count = 0;

        proof {
            let lo = lf as int;
            let hi = lf + cnt;
            let s = split_index as int;
            // ranges
            assert(rb.subrange(0, len2 as int)[c as int] == ra[c as int]);
            assert(rb[c as int] == (lo, s));
            assert(rb.subrange(0, len2 as int)[c + 1] == ra[c + 1]);
            assert(ra.subrange(0, len1 as int)[c + 1] == r1[c + 1]);
            assert(rb[c + 1] == (s, hi));
            assert(rb.subrange(0, len2 as int)[node_index as int] == ra[node_index as int]);
            assert(ra.subrange(0, len1 as int)[node_index as int] == r1[node_index as int]);
            assert(rb[node_index as int] == r[node_index as int]);
            assert(rb.subrange(0, old_len as int) =~= r) by {
                assert forall|k: int| 0 <= k < old_len implies rb[k] == r[k] by {
                    assert(rb.subrange(0, len2 as int)[k] == ra[k]);
                    assert(ra.subrange(0, len1 as int)[k] == r1[k]);
                }
            }
            // index permutations
            lemma_perm_trans(idx0, idx1, idx2, lo, hi, lo, s);
            lemma_perm_trans(idx0, idx2, self.indices@, lo, hi, s, hi);
            // this node
            lemma_contains_perm(bounds, self.primitives@, idx0, self.indices@, lo, hi);
            lemma_range_bounds_attained(self.primitives@, idx0, lo, hi);
            lemma_attained_perm(bounds, self.primitives@, idx0, self.indices@, lo, hi);
            assert(node_ok(self.nodes@, self.primitives@, self.indices@, rb, node_index as int));
            // the new nodes
            assert forall|k: int| old_len <= k < self.nodes.len() implies #[trigger] node_ok(
                self.nodes@,
                self.primitives@,
                self.indices@,
                rb,
                k,
            ) && r[node_index as int].0 <= rb[k].0 && rb[k].1 <= r[node_index as int].1 by {
                if k == c + 1 {
                    assert(node_ok(nodes3, self.primitives@, self.indices@, rb, k));
                    assert(self.nodes@[k] == nodes3[k]);
                    assert(rb.subrange(0, nodes3.len() as int) =~= rb);
                    lemma_node_ok_frame(
                        nodes3,
                        self.primitives@,
                        self.indices@,
                        rb,
                        self.nodes@,
                        self.indices@,
                        rb,
                        k,
                    );
                } else if k < len2 {
                    // made by the first child
                    assert(node_ok(nodes2, self.primitives@, idx2, ra, k));
                    assert(lo <= ra[k].0 && ra[k].1 <= s);
                    assert(rb.subrange(0, len2 as int)[k] == ra[k]);
                    assert forall|p: int| ra[k].0 <= p < ra[k].1 implies #[trigger] self.indices@[p]
                        == idx2[p] by {}
                    assert(nodes3[k] == nodes2[k]);
                    lemma_node_ok_frame(
                        nodes2,
                        self.primitives@,
                        idx2,
                        ra,
                        nodes3,
                        self.indices@,
                        rb,
                        k,
                    );
                    assert(self.nodes@[k] == nodes3[k]);
                    assert(rb.subrange(0, nodes3.len() as int) =~= rb);
                    lemma_node_ok_frame(
                        nodes3,
                        self.primitives@,
                        self.indices@,
                        rb,
                        self.nodes@,
                        self.indices@,
                        rb,
                        k,
                    );
                } else {
                    assert(node_ok(nodes3, self.primitives@, self.indices@, rb, k));
                    assert(self.nodes@[k] == nodes3[k]);
                    assert(rb.subrange(0, nodes3.len() as int) =~= rb);
                    lemma_node_ok_frame(
                        nodes3,
                        self.primitives@,
                        self.indices@,
                        rb,
                        self.nodes@,
                        self.indices@,
                        rb,
                        k,
                    );
                }
            }
            assert(forall|k: int|
                old_len <= k < self.nodes.len() ==> #[trigger] node_ok(
                    self.nodes@,
                    self.primitives@,
                    self.indices@,
                    rb,
                    k,
                ) && r[node_index as int].0 <= rb[k].0 && rb[k].1 <= r[node_index as int].1);
        }
        Ghost(rb)
    }
}

/// The scaled and negated coordinates of a collision vertex.
pub fn scaled_vertex(v: &CollVertexPSX) -> (res: IVec3)
    ensures
        res == scaled_spec(*v),
        in_coord_range(res),
{
    proof {
        assert(-16777216 <= v.pos_x * -512 <= 16777216) by (nonlinear_arith)
            requires
                -32768 <= v.pos_x <= 32767,
        ;
        assert(-16777216 <= v.pos_y * -512 <= 16777216) by (nonlinear_arith)
            requires
                -32768 <= v.pos_y <= 32767,
        ;
        assert(-16777216 <= v.pos_z * -512 <= 16777216) by (nonlinear_arith)
            requires
                -32768 <= v.pos_z <= 32767,
        ;
    }
    IVec3 {
        // Scale from mesh units to the collision fixed-point units (512), negated
        x: v.pos_x as i32 * -512,
        y: v.pos_y as i32 * -512,
        z: v.pos_z as i32 * -512,
    }
}

/// The position of a navigation node for a triangle centre: the centre
/// divided by 4096 (rounded toward zero), truncated to 16 bits.
pub open spec fn nav_position(center: IVec3) -> (i16, i16, i16) {
    (tdiv(center.x as int, 4096) as i16, tdiv(center.y as int, 4096) as i16, tdiv(
        center.z as int,
        4096,
    ) as i16)
}

/// The positions of the navigation nodes: one per walkable primitive (its
/// normal's y component at least 2048, that is a slope of at most 60
/// degrees), in primitive order, placed at that primitive's centre.
pub open spec fn nav_positions(centers: Seq<IVec3>, prims: Seq<CollTrianglePSX>) -> Seq<
    (i16, i16, i16),
>
    decreases prims.len(),
{
    if prims.len() == 0 {
        seq![]
    } else {
        let prev = nav_positions(centers, prims.drop_last());
        if prims.last().normal.y < 2048 {
            prev
        } else {
            prev.push(nav_position(centers[prims.len() - 1]))
        }
    }
}

/// How many of the primitives are walkable (normal y at least 2048).
pub open spec fn walkable_count(prims: Seq<CollTrianglePSX>) -> int
    decreases prims.len(),
{
    if prims.len() == 0 {
        0
    } else {
        walkable_count(prims.drop_last()) + if prims.last().normal.y >= 2048 {
            1int
        } else {
            0int
        }
    }
}

/// Navigation node `i` stands at the centre of the `i`-th walkable primitive:
/// there is one node per walkable primitive, in order, and each coordinate of
/// the node is the same coordinate of that primitive's centre divided by
/// 4096 (rounded toward zero), truncated to 16 bits.
pub proof fn lemma_nav_nodes_at_centres(centers: Seq<IVec3>, prims: Seq<CollTrianglePSX>)
    requires
        centers.len() == prims.len(),
    ensures
        nav_positions(centers, prims).len() == walkable_count(prims),
        forall|t: int|
            0 <= t < prims.len() && #[trigger] prims[t].normal.y >= 2048 ==> {
                let c = centers[t];
                let node = nav_positions(centers, prims)[walkable_count(prims.take(t))];
                &&& node.0 == (if c.x >= 0 {
                    c.x / 4096
                } else {
                    -((-c.x) / 4096)
                }) as i16
                &&& node.1 == (if c.y >= 0 {
                    c.y / 4096
                } else {
                    -((-c.y) / 4096)
                }) as i16
                &&& node.2 == (if c.z >= 0 {
                    c.z / 4096
                } else {
                    -((-c.z) / 4096)
                }) as i16
            },
{
    lemma_nav_nodes_at_centres_prefix(centers, prims);
}

proof fn lemma_walkable_nonneg(prims: Seq<CollTrianglePSX>)
    ensures
        0 <= walkable_count(prims) <= prims.len(),
    decreases prims.len(),
{
    if prims.len() > 0 {
        lemma_walkable_nonneg(prims.drop_last());
    }
}

proof fn lemma_walkable_count_take(prims: Seq<CollTrianglePSX>, t: int)
    requires
        0 <= t < prims.len(),
    ensures
        walkable_count(prims.take(t)) < walkable_count(prims) || prims[t].normal.y < 2048,
    decreases prims.len() - t,
{
    if t < prims.len() - 1 {
        lemma_walkable_count_take(prims.drop_last(), t);
        assert(prims.drop_last().take(t) =~= prims.take(t));
    } else {
        assert(prims.take(t) =~= prims.drop_last());
    }
}

/// Helper for the recursion: the law on a shorter primitive list, with the
/// full centre list.
proof fn lemma_nav_nodes_at_centres_prefix(centers: Seq<IVec3>, prims: Seq<CollTrianglePSX>)
    requires
        prims.len() <= centers.len(),
    ensures
        nav_positions(centers, prims).len() == walkable_count(prims),
        forall|t: int|
            0 <= t < prims.len() && #[trigger] prims[t].normal.y >= 2048 ==> {
                let c = centers[t];
                let node = nav_positions(centers, prims)[walkable_count(prims.take(t))];
                &&& node.0 == (if c.x >= 0 {
                    c.x / 4096
                } else {
                    -((-c.x) / 4096)
                }) as i16
                &&& node.1 == (if c.y >= 0 {
                    c.y / 4096
                } else {
                    -((-c.y) / 4096)
                }) as i16
                &&& node.2 == (if c.z >= 0 {
                    c.z / 4096
                } else {
                    -((-c.z) / 4096)
                }) as i16
            },
    decreases prims.len(),
{
    if prims.len() > 0 {
        let d = prims.drop_last();
        lemma_nav_nodes_at_centres_prefix(centers, d);
        let n = prims.len() - 1;
        assert(prims.take(n) =~= d);
        assert forall|t: int| 0 <= t < prims.len() && #[trigger] prims[t].normal.y >= 2048 implies {
            let c = centers[t];
            let node = nav_positions(centers, prims)[walkable_count(prims.take(t))];
            &&& node.0 == (if c.x >= 0 {
                c.x / 4096
            } else {
                -((-c.x) / 4096)
            }) as i16
            &&& node.1 == (if c.y >= 0 {
                c.y / 4096
            } else {
                -((-c.y) / 4096)
            }) as i16
            &&& node.2 == (if c.z >= 0 {
                c.z / 4096
            } else {
                -((-c.z) / 4096)
            }) as i16
        } by {
            let prev = nav_positions(centers, d);
            if t < n {
                assert(d[t] == prims[t]);
                assert(prims.take(t) =~= d.take(t));
                lemma_walkable_count_take(d, t);
                lemma_walkable_nonneg(prims.take(t));
                let k = walkable_count(prims.take(t));
                assert(k < prev.len());
                assert(prims.last() == prims[n]);
                if prims[n].normal.y < 2048 {
                    assert(nav_positions(centers, prims) == prev);
                } else {
                    assert(nav_positions(centers, prims) == prev.push(nav_position(centers[n])));
                }
                assert(nav_positions(centers, prims)[k] == prev[k]);
            } else {
                assert(walkable_count(prims.take(t)) == prev.len());
                assert(nav_positions(centers, prims) == prev.push(nav_position(centers[n])));
            }
        }
    }
}

/// The navigation nodes of a hierarchy's walkable primitives, without
/// neighbours yet (all four slots 0).
#[verifier::spinoff_prover]
pub fn nav_graph_nodes(bvh: &CollBvh) -> (nodes: Vec<NavGraphNode>)
    requires
        bvh.centers.len() == bvh.primitives.len(),
    ensures
        nodes.len() == nav_positions(bvh.centers@, bvh.primitives@).len(),
        forall|i: int|
            0 <= i < nodes.len() ==> (#[trigger] nodes@[i].pos_x, nodes@[i].pos_y, nodes@[i].pos_z)
                == nav_positions(bvh.centers@, bvh.primitives@)[i] && nodes@[i].neighbors@
                == seq![0u16, 0u16, 0u16, 0u16],
        nodes.len() == walkable_count(bvh.primitives@),
        forall|t: int|
            0 <= t < bvh.primitives.len() && #[trigger] bvh.primitives@[t].normal.y >= 2048 ==> {
                let c = bvh.centers@[t];
                let node = nodes@[walkable_count(bvh.primitives@.take(t))];
                &&& node.pos_x == (if c.x >= 0 {
                    c.x / 4096
                } else {
                    -((-c.x) / 4096)
                }) as i16
                &&& node.pos_y == (if c.y >= 0 {
                    c.y / 4096
                } else {
                    -((-c.y) / 4096)
                }) as i16
                &&& node.pos_z == (if c.z >= 0 {
                    c.z / 4096
                } else {
                    -((-c.z) / 4096)
                }) as i16
            },
{
    let mut nav_graph_nodes = Vec::<NavGraphNode>::new();
    let mut i: usize = 0;
    while i < bvh.primitives.len()
        invariant
            bvh.centers.len() == bvh.primitives.len(),
            i <= bvh.primitives.len(),
            nav_graph_nodes.len() == nav_positions(bvh.centers@, bvh.primitives@.take(i as int)).len(),
            forall|j: int|
                0 <= j < nav_graph_nodes.len() ==> (
                    #[trigger] nav_graph_nodes@[j].pos_x,
                    nav_graph_nodes@[j].pos_y,
                    nav_graph_nodes@[j].pos_z,
                ) == nav_positions(bvh.centers@, bvh.primitives@.take(i as int))[j]
                    && nav_graph_nodes@[j].neighbors@ == seq![0u16, 0u16, 0u16, 0u16],
        decreases bvh.primitives.len() - i,
    {
        proof {
            assert(bvh.primitives@.take(i + 1).drop_last() =~= bvh.primitives@.take(i as int));
        }
        let center = bvh.centers[i];
        let primitive = bvh.primitives[i];
        if primitive.normal.y >= 2048 {
            #[verifier::truncate]
            let center_x16 = (center.x / 4096) as i16;
            #[verifier::truncate]
            let center_y16 = (center.y / 4096) as i16;
            #[verifier::truncate]
            let center_z16 = (center.z / 4096) as i16;
            let value = NavGraphNode {
                pos_x: center_x16,
                pos_y: center_y16,
                pos_z: center_z16,
                neighbors: [0, 0, 0, 0],  // filled in by the neighbour search
            };
            let ghost before = nav_graph_nodes@;
            nav_graph_nodes.push(value);
            proof {
                assert(value.neighbors@ =~= seq![0u16, 0u16, 0u16, 0u16]);
                let pt = bvh.primitives@.take(i + 1);
                assert(pt.last() == primitive);
                assert(nav_positions(bvh.centers@, pt) == nav_positions(
                    bvh.centers@,
                    bvh.primitives@.take(i as int),
                ).push(nav_position(center)));
                assert((value.pos_x, value.pos_y, value.pos_z) == nav_position(center));
                assert forall|j: int| 0 <= j < nav_graph_nodes.len() implies (
                    #[trigger] nav_graph_nodes@[j].pos_x,
                    nav_graph_nodes@[j].pos_y,
                    nav_graph_nodes@[j].pos_z,
                ) == nav_positions(bvh.centers@, pt)[j] && nav_graph_nodes@[j].neighbors@ == seq![
                    0u16,
                    0u16,
                    0u16,
                    0u16,
                ] by {
                    if j < before.len() {
                        assert(nav_graph_nodes@[j] == before[j]);
                    }
                }
            }
        } else {
            proof {
                let pt = bvh.primitives@.take(i + 1);
                assert(pt.last() == primitive);
                assert(nav_positions(bvh.centers@, pt) == nav_positions(
                    bvh.centers@,
                    bvh.primitives@.take(i as int),
                ));
            }
        }
        i += 1;
    }
    proof {
        assert(bvh.primitives@.take(bvh.primitives.len() as int) =~= bvh.primitives@);
        lemma_nav_nodes_at_centres(bvh.centers@, bvh.primitives@);
        assert forall|t: int|
            0 <= t < bvh.primitives.len() && #[trigger] bvh.primitives@[t].normal.y >= 2048 implies {
                let c = bvh.centers@[t];
                let node = nav_graph_nodes@[walkable_count(bvh.primitives@.take(t))];
                &&& node.pos_x == (if c.x >= 0 {
                    c.x / 4096
                } else {
                    -((-c.x) / 4096)
                }) as i16
                &&& node.pos_y == (if c.y >= 0 {
                    c.y / 4096
                } else {
                    -((-c.y) / 4096)
                }) as i16
                &&& node.pos_z == (if c.z >= 0 {
                    c.z / 4096
                } else {
                    -((-c.z) / 4096)
                }) as i16
            } by {
            lemma_walkable_count_take(bvh.primitives@, t);
            lemma_walkable_nonneg(bvh.primitives@.take(t));
            let k = walkable_count(bvh.primitives@.take(t));
            assert((nav_graph_nodes@[k].pos_x, nav_graph_nodes@[k].pos_y, nav_graph_nodes@[k].pos_z)
                == nav_positions(bvh.centers@, bvh.primitives@)[k]);
        }
    }
    nav_graph_nodes
}

/// The collision triangles of a list of faces: each face of three vertices,
/// in the order 0, 2, 1; faces of other sizes are left out.
pub open spec fn collision_triangles_spec(faces: Seq<Vec<CollVertexPSX>>) -> Seq<CollVertexPSX>
    decreases faces.len(),
{
    if faces.len() == 0 {
        seq![]
    } else {
        let prev = collision_triangles_spec(faces.drop_last());
        let f = faces.last()@;
        if f.len() == 3 {
            prev + seq![f[0], f[2], f[1]]
        } else {
            prev
        }
    }
}

/// Collects the triangles of a collision mesh from its faces.
pub fn collision_triangles(faces: &Vec<Vec<CollVertexPSX>>) -> (triangles: Vec<CollVertexPSX>)
    ensures
        triangles@ == collision_triangles_spec(faces@),
{
    let mut triangles = Vec::<CollVertexPSX>::new();
    let mut i: usize = 0;
    while i < faces.len()
        invariant
            i <= faces.len(),
            triangles@ == collision_triangles_spec(faces@.take(i as int)),
        decreases faces.len() - i,
    {
        proof {
            assert(faces@.take(i + 1).drop_last() =~= faces@.take(i as int));
        }
        let face = &faces[i];
        if face.len() == 3 {
            triangles.push(face[0]);
            triangles.push(face[2]);
            triangles.push(face[1]);
        }
        i += 1;
    }
    proof {
        assert(faces@.take(faces.len() as int) =~= faces@);
    }
    triangles
}

} // verus!

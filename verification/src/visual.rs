//! Visual meshes: assembling triangles and quads from faces, regrouping them
//! into meshes (whole, or split into a grid of regions), and building the
//! textures they use.
use vstd::prelude::*;

use crate::collision::tdiv;
use crate::grid_counts::lemma_even_split_is_best;
use crate::bytes::zeros;
use crate::psx_structs::{max_pos, min_pos, MeshPSX, TextureCellPSX, VertexPSX};
use crate::quantize::{
    clear, pixels_to_colors, quantize, transparent_first_indices, transparent_first_palette, Rgba,
};
use crate::MeshGridEntry;

verus! {

/// The integer square root: the largest `r` with `r * r <= n`.
pub open spec fn isqrt(n: int) -> int
    decreases n,
{
    if n <= 0 {
        0
    } else {
        let r = isqrt(n - 1);
        if (r + 1) * (r + 1) <= n {
            r + 1
        } else {
            r
        }
    }
}

proof fn lemma_isqrt(n: int)
    requires
        n >= 0,
    ensures
        isqrt(n) >= 0,
        isqrt(n) * isqrt(n) <= n < (isqrt(n) + 1) * (isqrt(n) + 1),
    decreases n,
{
    if n > 0 {
        lemma_isqrt(n - 1);
        let r = isqrt(n - 1);
        assert((r + 1) * (r + 1) + 1 <= (r + 2) * (r + 2)) by (nonlinear_arith)
            requires
                r >= 0,
        ;
    }
}

proof fn lemma_isqrt_unique(n: int, s: int)
    requires
        n >= 0,
        s >= 0,
        s * s <= n < (s + 1) * (s + 1),
    ensures
        s == isqrt(n),
{
    lemma_isqrt(n);
    let t = isqrt(n);
    if s < t {
        assert((s + 1) * (s + 1) <= t * t) by (nonlinear_arith)
            requires
                0 <= s < t,
        ;
    } else if t < s {
        assert((t + 1) * (t + 1) <= s * s) by (nonlinear_arith)
            requires
                0 <= t < s,
        ;
    }
}

/// The integer square root of `n`, by bisection.
pub fn integer_sqrt(n: u32) -> (r: u32)
    requires
        n <= i32::MAX,
    ensures
        r == isqrt(n as int),
        r * r <= n < (r + 1) * (r + 1),
{
    let mut lo: u64 = 0;
    let mut hi: u64 = 46341;
    assert(46341 * 46341 > i32::MAX) by (nonlinear_arith);
    while hi - lo > 1
        invariant
            lo < hi <= 46341,
            lo * lo <= n,
            n < hi * hi,
        decreases hi - lo,
    {
        let mid = lo + (hi - lo) / 2;
        assert(mid * mid <= 46341 * 46341) by (nonlinear_arith)
            requires
                mid <= 46341,
        ;
        if mid * mid <= n as u64 {
            lo = mid;
        } else {
            hi = mid;
        }
    }
    proof {
        lemma_isqrt_unique(n as int, lo as int);
        assert(hi == lo + 1);
    }
    lo as u32
}

/// The squared length of the diagonal of a face's bounding box.
pub open spec fn extent_sq(face: Seq<VertexPSX>) -> int {
    let dx = max_pos(face, 0) - min_pos(face, 0);
    let dy = max_pos(face, 1) - min_pos(face, 1);
    let dz = max_pos(face, 2) - min_pos(face, 2);
    dx * dx + dy * dy + dz * dz
}

/// The size class of a face: the length of its bounding box diagonal divided
/// by 16, rounded down, at most 255 (bigger number means bigger primitive).
pub open spec fn size_id(face: Seq<VertexPSX>) -> u8 {
    let s = isqrt(extent_sq(face)) / 16;
    if s > 255 {
        255
    } else {
        s as u8
    }
}

pub(crate) proof fn lemma_extent_nonneg(face: Seq<VertexPSX>, axis: int)
    requires
        face.len() > 0,
    ensures
        min_pos(face, axis) <= max_pos(face, axis),
    decreases face.len(),
{
    if face.len() > 1 {
        lemma_extent_nonneg(face.drop_last(), axis);
    }
}

/// The size class of a face (see `size_id`).
fn polygon_size_id(face: &Vec<VertexPSX>) -> (id: u8)
    requires
        face.len() > 0,
        extent_sq(face@) <= i32::MAX,
    ensures
        id == size_id(face@),
{
    // Find the size of the face's bounding box
    let mut x_min: i16 = 32767;
    let mut y_min: i16 = 32767;
    let mut z_min: i16 = 32767;
    let mut x_max: i16 = -32768;
    let mut y_max: i16 = -32768;
    let mut z_max: i16 = -32768;
    let mut k: usize = 0;
    while k < face.len()
        invariant
            k <= face.len(),
            x_min == min_pos(face@.take(k as int), 0),
            x_max == max_pos(face@.take(k as int), 0),
            y_min == min_pos(face@.take(k as int), 1),
            y_max == max_pos(face@.take(k as int), 1),
            z_min == min_pos(face@.take(k as int), 2),
            z_max == max_pos(face@.take(k as int), 2),
        decreases face.len() - k,
    {
        let v = face[k];
        assert(face@.take(k + 1).drop_last() =~= face@.take(k as int));
        if v.pos_x < x_min {
            x_min = v.pos_x;
        }
        if v.pos_y < y_min {
            y_min = v.pos_y;
        }
        if v.pos_z < z_min {
            z_min = v.pos_z;
        }
        if v.pos_x > x_max {
            x_max = v.pos_x;
        }
        if v.pos_y > y_max {
            y_max = v.pos_y;
        }
        if v.pos_z > z_max {
            z_max = v.pos_z;
        }
        k += 1;
    }
    assert(face@.take(face.len() as int) =~= face@);
    proof {
        lemma_extent_nonneg(face@, 0);
        lemma_extent_nonneg(face@, 1);
        lemma_extent_nonneg(face@, 2);
    }
    let dx = x_max as i32 - x_min as i32;
    let dy = y_max as i32 - y_min as i32;
    let dz = z_max as i32 - z_min as i32;
    assert(0 <= dx * dx && 0 <= dy * dy && 0 <= dz * dz) by (nonlinear_arith);
    let sq = dx * dx + dy * dy + dz * dz;
    let s = integer_sqrt(sq as u32) / 16;
    if s > 255 {
        255
    } else {
        s as u8
    }
}

/// A face with the size class written into the texture id of vertex `k`.
pub open spec fn with_size_id(face: Seq<VertexPSX>, k: int) -> Seq<VertexPSX> {
    face.update(k, VertexPSX { texture_id: size_id(face), ..face[k] })
}

/// The vertices a triangle face contributes: 0, 2, 1, the size class stored
/// in vertex 2.
pub open spec fn triangle_out(face: Seq<VertexPSX>) -> Seq<VertexPSX> {
    let f = with_size_id(face, 2);
    seq![f[0], f[2], f[1]]
}

/// The vertices a quad face contributes: 0, 3, 1, 2, the size class stored
/// in vertex 3.
pub open spec fn quad_out(face: Seq<VertexPSX>) -> Seq<VertexPSX> {
    let f = with_size_id(face, 3);
    seq![f[0], f[3], f[1], f[2]]
}

/// The triangle vertices of a list of faces (faces of other sizes add none).
pub open spec fn faces_triangles(faces: Seq<Vec<VertexPSX>>) -> Seq<VertexPSX>
    decreases faces.len(),
{
    if faces.len() == 0 {
        seq![]
    } else if faces.last()@.len() == 3 {
        faces_triangles(faces.drop_last()) + triangle_out(faces.last()@)
    } else {
        faces_triangles(faces.drop_last())
    }
}

/// The quad vertices of a list of faces (faces of other sizes add none).
pub open spec fn faces_quads(faces: Seq<Vec<VertexPSX>>) -> Seq<VertexPSX>
    decreases faces.len(),
{
    if faces.len() == 0 {
        seq![]
    } else if faces.last()@.len() == 4 {
        faces_quads(faces.drop_last()) + quad_out(faces.last()@)
    } else {
        faces_quads(faces.drop_last())
    }
}

/// Every triangle and quad face is small enough for its size class to be
/// computed in 32 bits.
pub open spec fn faces_sized(faces: Seq<Vec<VertexPSX>>) -> bool {
    forall|i: int|
        0 <= i < faces.len() && (faces[i]@.len() == 3 || faces[i]@.len() == 4)
            ==> #[trigger] extent_sq(faces[i]@) <= i32::MAX
}

/// Appends the triangles and quads of a mesh's faces (see `triangle_out` and
/// `quad_out`); faces with other vertex counts are skipped.
pub fn assemble_polygons(
    faces: &Vec<Vec<VertexPSX>>,
    triangles: &mut Vec<VertexPSX>,
    quads: &mut Vec<VertexPSX>,
)
    requires
        faces_sized(faces@),
    ensures
        final(triangles)@ == old(triangles)@ + faces_triangles(faces@),
        final(quads)@ == old(quads)@ + faces_quads(faces@),
{
    let ghost t0 = triangles@;
    let ghost q0 = quads@;
    let mut i: usize = 0;
    while i < faces.len()
        invariant
            i <= faces.len(),
            faces_sized(faces@),
            triangles@ == t0 + faces_triangles(faces@.take(i as int)),
            quads@ == q0 + faces_quads(faces@.take(i as int)),
        decreases faces.len() - i,
    {
        proof {
            assert(faces@.take(i + 1).drop_last() =~= faces@.take(i as int));
        }
        let face = &faces[i];
        if face.len() == 3 {
            assert(extent_sq(faces@[i as int]@) <= i32::MAX);
            let id = polygon_size_id(face);
            let mut v2 = face[2];
            v2.texture_id = id;
            triangles.push(face[0]);
            triangles.push(v2);
            triangles.push(face[1]);
            assert(triangles@ =~= t0 + faces_triangles(faces@.take(i + 1)));
        } else if face.len() == 4 {
            assert(extent_sq(faces@[i as int]@) <= i32::MAX);
            let id = polygon_size_id(face);
            let mut v3 = face[3];
            v3.texture_id = id;
            quads.push(face[0]);
            quads.push(v3);
            quads.push(face[1]);
            quads.push(face[2]);
            assert(quads@ =~= q0 + faces_quads(faces@.take(i + 1)));
        }
        i += 1;
    }
    assert(faces@.take(faces.len() as int) =~= faces@);
}

/// A mesh holding the polygons of an entry: its triangle vertices followed by
/// its quad vertices.
pub fn mesh_from_entry(name: String, entry: &MeshGridEntry) -> (mesh: MeshPSX)
    ensures
        mesh.verts@ == entry.triangles@ + entry.quads@,
        mesh.n_triangles == entry.triangles.len() / 3,
        mesh.n_quads == entry.quads.len() / 4,
        mesh.name@ == name@,
{
    let n_triangles = entry.triangles.len() / 3;
    let n_quads = entry.quads.len() / 4;
    let mut combined_vector = entry.triangles.clone();
    let mut k: usize = 0;
    while k < entry.quads.len()
        invariant
            k <= entry.quads.len(),
            combined_vector@ == entry.triangles@ + entry.quads@.take(k as int),
        decreases entry.quads.len() - k,
    {
        combined_vector.push(entry.quads[k]);
        assert(entry.quads@.take(k + 1) =~= entry.quads@.take(k as int).push(entry.quads@[k as int]));
        k += 1;
    }
    assert(entry.quads@.take(entry.quads.len() as int) =~= entry.quads@);
    MeshPSX { verts: combined_vector, n_triangles, n_quads, name }
}

/// The grid lines along one axis for `splits` equal parts of
/// `min..=min + size`: below everything, just below `min`, `min` plus
/// `size * x / splits` rounded up for `x` in `1..=splits`, and above
/// everything.
pub open spec fn grid_coords(min: i16, size: i16, splits: i16) -> Seq<i16> {
    Seq::new(
        (splits + 3) as nat,
        |i: int|
            if i == 0 {
                i16::MIN
            } else if i == 1 {
                (min - 1) as i16
            } else if i <= splits + 1 {
                (min + (size * (i - 1) + splits - 1) / (splits as int)) as i16
            } else {
                i16::MAX
            },
    )
}

/// The grid lines along one axis for a bounding box split into 1 to 5 equal
/// parts (see `grid_coords`): the part boundaries rounded up, computed
/// exactly in integers.
pub fn grid_coordinates(min: i16, size: i16, splits: i16) -> (coords: Vec<i16>)
    requires
        1 <= splits <= 5,
        0 <= size,
        min > i16::MIN,
        min + size <= i16::MAX,
    ensures
        coords@ == grid_coords(min, size, splits),
{
    let mut coords = vec![i16::MIN];
    let mut x: i16 = 0;
    while x < splits + 1
        invariant
            1 <= splits <= 5,
            0 <= size,
            min > i16::MIN,
            min + size <= i16::MAX,
            0 <= x <= splits + 1,
            coords.len() == x + 1,
            coords@[0] == i16::MIN,
            forall|i: int|
                1 <= i <= x ==> #[trigger] coords@[i] == (min + (size * (i - 1) + splits - 1)
                    / (splits as int)) as i16,
        decreases splits + 1 - x,
    {
        assert(0 <= size * x <= size * splits) by (nonlinear_arith)
            requires
                0 <= size,
                0 <= x <= splits,
        ;
        assert(size * splits <= 32767 * 5) by (nonlinear_arith)
            requires
                0 <= size <= 32767,
                1 <= splits <= 5,
        ;
        let prod: i32 = size as i32 * x as i32;
        assert((size * x + splits - 1) / (splits as int) <= size) by (nonlinear_arith)
            requires
                0 <= size,
                0 <= x <= splits,
                1 <= splits,
        ;
        let offset: i32 = (prod + splits as i32 - 1) / splits as i32;
        assert(offset == (size * x + splits - 1) / (splits as int));
        coords.push((min as i32 + offset) as i16);
        x += 1;
    }
    assert((splits - 1) / (splits as int) == 0) by (nonlinear_arith)
        requires
            1 <= splits,
    ;
    assert(coords@[1] == min);
    coords.set(1, coords[1] - 1);
    coords.push(i16::MAX);
    assert(coords@ =~= grid_coords(min, size, splits));
    coords
}

pub(crate) proof fn lemma_grid_coords_sorted(min: i16, size: i16, splits: i16)
    requires
        1 <= splits <= 5,
        0 <= size,
        min > i16::MIN,
        min + size <= i16::MAX,
    ensures
        forall|i: int, j: int|
            #![trigger grid_coords(min, size, splits)[i], grid_coords(min, size, splits)[j]]
            0 <= i <= j < splits + 3 ==> grid_coords(min, size, splits)[i] <= grid_coords(
                min,
                size,
                splits,
            )[j],
{
    let c = grid_coords(min, size, splits);
    assert forall|i: int| 2 <= i <= splits + 1 implies min <= #[trigger] c[i] <= min + size by {
        assert(0 <= (size * (i - 1) + splits - 1) / (splits as int) <= size) by (nonlinear_arith)
            requires
                0 <= size,
                1 <= i - 1 <= splits,
        ;
    }
    assert forall|i: int| 0 <= i < splits + 2 implies #[trigger] c[i] <= c[i + 1] by {
        if i == 1 {
            assert(min <= c[2]);
        } else if 2 <= i <= splits {
            let q1 = (size * (i - 1) + splits - 1) / (splits as int);
            let q2 = (size * i + splits - 1) / (splits as int);
            assert(q1 <= q2) by (nonlinear_arith)
                requires
                    0 <= size,
                    1 <= splits,
                    1 <= i,
                    q1 == (size * (i - 1) + splits - 1) / (splits as int),
                    q2 == (size * i + splits - 1) / (splits as int),
            ;
            assert(0 <= q1 <= size && 0 <= q2 <= size) by (nonlinear_arith)
                requires
                    0 <= size,
                    1 <= splits,
                    1 <= i <= splits,
                    q1 == (size * (i - 1) + splits - 1) / (splits as int),
                    q2 == (size * i + splits - 1) / (splits as int),
            ;
            assert(c[i] == min + q1);
            assert(c[i + 1] == min + q2);
        } else if i == splits + 1 {
            assert(c[i] <= min + size);
        }
    }
    assert forall|i: int, j: int| #![trigger c[i], c[j]] 0 <= i <= j < splits + 3 implies c[i] <= c[j] by {
        lemma_sorted_step(c, i, j);
    }
}

proof fn lemma_sorted_step(c: Seq<i16>, i: int, j: int)
    requires
        0 <= i <= j < c.len(),
        forall|k: int| 0 <= k < c.len() - 1 ==> #[trigger] c[k] <= c[k + 1],
    ensures
        c[i] <= c[j],
    decreases j - i,
{
    if i < j {
        lemma_sorted_step(c, i, j - 1);
        assert(c[j - 1] <= c[j]);
    }
}

pub(crate) proof fn lemma_one_interval(c: Seq<i16>, v: int)
    requires
        c.len() >= 2,
        forall|i: int, j: int| #![trigger c[i], c[j]] 0 <= i <= j < c.len() ==> c[i] <= c[j],
        c[0] < v <= c[c.len() - 1],
    ensures
        exists|i: int| 0 <= i < c.len() - 1 && c[i] < v <= #[trigger] c[i + 1],
        forall|i: int, j: int|
            #![trigger c[i], c[j]]
            0 <= i < c.len() - 1 && 0 <= j < c.len() - 1 && c[i] < v <= c[i + 1] && c[j] < v
                <= c[j + 1] ==> i == j,
    decreases c.len(),
{
    if c.len() > 2 && v <= c[c.len() - 2] {
        lemma_one_interval(c.drop_last(), v);
        let i = choose|i: int|
            0 <= i < c.drop_last().len() - 1 && c.drop_last()[i] < v <= #[trigger] c.drop_last()[i
                + 1];
        assert(c[i] < v <= c[i + 1]);
    } else {
        assert(c[c.len() - 2] < v <= c[c.len() - 1]);
    }
    assert forall|i: int, j: int|
        #![trigger c[i], c[j]]
        0 <= i < c.len() - 1 && 0 <= j < c.len() - 1 && c[i] < v <= c[i + 1] && c[j] < v <= c[j
            + 1] implies i == j by {
        if i < j {
            assert(c[i + 1] <= c[j]);
        } else if j < i {
            assert(c[j + 1] <= c[i]);
        }
    }
}

/// Along each axis the grid lines are in order and run from the lowest to the
/// highest 16-bit value, so every coordinate above `i16::MIN` falls in exactly
/// one interval `(c[i], c[i + 1]]`: a polygon whose centre is above
/// `i16::MIN` on every axis lies in exactly one cell of the grid.
pub proof fn lemma_grid_intervals(min: i16, size: i16, splits: i16, v: int)
    requires
        1 <= splits <= 5,
        0 <= size,
        min > i16::MIN,
        min + size <= i16::MAX,
        i16::MIN < v <= i16::MAX,
    ensures
        ({
            let c = grid_coords(min, size, splits);
            &&& exists|i: int| 0 <= i < splits + 2 && c[i] < v <= #[trigger] c[i + 1]
            &&& forall|i: int, j: int|
                #![trigger c[i], c[j]]
                0 <= i < splits + 2 && 0 <= j < splits + 2 && c[i] < v <= c[i + 1] && c[j] < v
                    <= c[j + 1] ==> i == j
        }),
{
    lemma_grid_coords_sorted(min, size, splits);
    lemma_one_interval(grid_coords(min, size, splits), v);
}

/// A cell of the grid: the ranges `(x0, x1]`, `(y0, y1]`, `(z0, z1]`.
#[derive(Clone, Copy)]
pub struct CellBox {
    pub x0: i16,
    pub x1: i16,
    pub y0: i16,
    pub y1: i16,
    pub z0: i16,
    pub z1: i16,
}

pub open spec fn in_cell(b: CellBox, x: int, y: int, z: int) -> bool {
    b.x0 < x <= b.x1 && b.y0 < y <= b.y1 && b.z0 < z <= b.z1
}

/// The centre of triangle `t` (vertices `3t..3t + 3`), rounded toward zero.
pub open spec fn tri_center(vs: Seq<VertexPSX>, t: int) -> (int, int, int) {
    (
        tdiv(vs[3 * t].pos_x + vs[3 * t + 1].pos_x + vs[3 * t + 2].pos_x, 3),
        tdiv(vs[3 * t].pos_y + vs[3 * t + 1].pos_y + vs[3 * t + 2].pos_y, 3),
        tdiv(vs[3 * t].pos_z + vs[3 * t + 1].pos_z + vs[3 * t + 2].pos_z, 3),
    )
}

/// The centre of quad `q` (vertices `4q..4q + 4`), rounded toward zero.
pub open spec fn quad_center(vs: Seq<VertexPSX>, q: int) -> (int, int, int) {
    (
        tdiv(vs[4 * q].pos_x + vs[4 * q + 1].pos_x + vs[4 * q + 2].pos_x + vs[4 * q + 3].pos_x, 4),
        tdiv(vs[4 * q].pos_y + vs[4 * q + 1].pos_y + vs[4 * q + 2].pos_y + vs[4 * q + 3].pos_y, 4),
        tdiv(vs[4 * q].pos_z + vs[4 * q + 1].pos_z + vs[4 * q + 2].pos_z + vs[4 * q + 3].pos_z, 4),
    )
}

/// The vertices of the first `n` triangles whose centre lies in the cell.
pub open spec fn select_tris(vs: Seq<VertexPSX>, n: int, b: CellBox) -> Seq<VertexPSX>
    decreases n,
{
    if n <= 0 {
        seq![]
    } else {
        let c = tri_center(vs, n - 1);
        select_tris(vs, n - 1, b) + if in_cell(b, c.0, c.1, c.2) {
            vs.subrange(3 * (n - 1), 3 * n)
        } else {
            seq![]
        }
    }
}

/// The vertices of the first `n` quads whose centre lies in the cell.
pub open spec fn select_quads(vs: Seq<VertexPSX>, n: int, b: CellBox) -> Seq<VertexPSX>
    decreases n,
{
    if n <= 0 {
        seq![]
    } else {
        let c = quad_center(vs, n - 1);
        select_quads(vs, n - 1, b) + if in_cell(b, c.0, c.1, c.2) {
            vs.subrange(4 * (n - 1), 4 * n)
        } else {
            seq![]
        }
    }
}

/// The triangles and quads of a mesh whose centres lie in the cell.
fn select_polygons(mesh: &MeshGridEntry, b: CellBox) -> (res: (Vec<VertexPSX>, Vec<VertexPSX>))
    requires
        mesh.triangles.len() % 3 == 0,
        mesh.quads.len() % 4 == 0,
    ensures
        res.0@ == select_tris(mesh.triangles@, mesh.triangles.len() as int / 3, b),
        res.1@ == select_quads(mesh.quads@, mesh.quads.len() as int / 4, b),
{
    let mut tris = Vec::<VertexPSX>::new();
    let mut quads = Vec::<VertexPSX>::new();
    let ghost ts = mesh.triangles@;
    let ghost qs = mesh.quads@;

    let n_tris = mesh.triangles.len() / 3;
    let mut t: usize = 0;
    while t < n_tris
        invariant
            ts == mesh.triangles@,
            mesh.triangles.len() % 3 == 0,
            n_tris == mesh.triangles.len() / 3,
            t <= n_tris,
            tris@ == select_tris(ts, t as int, b),
        decreases n_tris - t,
    {
        let o = 3 * t;
        let v0 = mesh.triangles[o];
        let v1 = mesh.triangles[o + 1];
        let v2 = mesh.triangles[o + 2];
        // Calculate center
        let center_x = ((v0.pos_x as i32 + v1.pos_x as i32 + v2.pos_x as i32) / 3) as i16;
        let center_y = ((v0.pos_y as i32 + v1.pos_y as i32 + v2.pos_y as i32) / 3) as i16;
        let center_z = ((v0.pos_z as i32 + v1.pos_z as i32 + v2.pos_z as i32) / 3) as i16;

        // If it's in the bounding box
        if center_x > b.x0 && center_x <= b.x1 && center_y > b.y0 && center_y <= b.y1 && center_z
            > b.z0 && center_z <= b.z1 {
            tris.push(v0);
            tris.push(v1);
            tris.push(v2);
            assert(tris@ =~= select_tris(ts, t + 1, b));
        } else {
            assert(tris@ =~= select_tris(ts, t + 1, b));
        }
        t += 1;
    }

    let n_quads = mesh.quads.len() / 4;
    let mut q: usize = 0;
    while q < n_quads
        invariant
            qs == mesh.quads@,
            mesh.quads.len() % 4 == 0,
            n_quads == mesh.quads.len() / 4,
            q <= n_quads,
            quads@ == select_quads(qs, q as int, b),
        decreases n_quads - q,
    {
        let o = 4 * q;
        let v0 = mesh.quads[o];
        let v1 = mesh.quads[o + 1];
        let v2 = mesh.quads[o + 2];
        let v3 = mesh.quads[o + 3];
        // Calculate center
        let center_x = ((v0.pos_x as i32 + v1.pos_x as i32 + v2.pos_x as i32 + v3.pos_x as i32)
            / 4) as i16;
        let center_y = ((v0.pos_y as i32 + v1.pos_y as i32 + v2.pos_y as i32 + v3.pos_y as i32)
            / 4) as i16;
        let center_z = ((v0.pos_z as i32 + v1.pos_z as i32 + v2.pos_z as i32 + v3.pos_z as i32)
            / 4) as i16;

        // If it's in the bounding box
        if center_x > b.x0 && center_x <= b.x1 && center_y > b.y0 && center_y <= b.y1 && center_z
            > b.z0 && center_z <= b.z1 {
            quads.push(v0);
            quads.push(v1);
            quads.push(v2);
            quads.push(v3);
            assert(quads@ =~= select_quads(qs, q + 1, b));
        } else {
            assert(quads@ =~= select_quads(qs, q + 1, b));
        }
        q += 1;
    }
    (tris, quads)
}

/// The decimal digit `d`.
pub open spec fn digit_char(d: int) -> char {
    (48 + d) as char
}

/// The decimal digits of `n`.
pub open spec fn decimal_nat(n: nat) -> Seq<char>
    decreases n,
{
    if n < 10 {
        seq![digit_char(n as int)]
    } else {
        decimal_nat(n / 10) + seq![digit_char((n % 10) as int)]
    }
}

/// `x` written in decimal, with a leading `-` when negative.
pub open spec fn decimal(x: int) -> Seq<char> {
    if x < 0 {
        seq!['-'] + decimal_nat((-x) as nat)
    } else {
        decimal_nat(x as nat)
    }
}

/// The name of a grid cell: the mesh name and the cell's lower corner,
/// `name (x, y, z)`.
pub open spec fn cell_name_spec(name: Seq<char>, x: i16, y: i16, z: i16) -> Seq<char> {
    name + seq![' ', '('] + decimal(x as int) + seq![',', ' '] + decimal(y as int) + seq![
        ',',
        ' ',
    ] + decimal(z as int) + seq![')']
}

/// The one-character string of the decimal digit `d`.
fn digit_str(d: u32) -> (r: &'static str)
    requires
        d < 10,
    ensures
        r@ == seq![digit_char(d as int)],
{
    proof {
        reveal_strlit("0");
        reveal_strlit("1");
        reveal_strlit("2");
        reveal_strlit("3");
        reveal_strlit("4");
        reveal_strlit("5");
        reveal_strlit("6");
        reveal_strlit("7");
        reveal_strlit("8");
        reveal_strlit("9");
    }
    let r = if d == 0 {
        "0"
    } else if d == 1 {
        "1"
    } else if d == 2 {
        "2"
    } else if d == 3 {
        "3"
    } else if d == 4 {
        "4"
    } else if d == 5 {
        "5"
    } else if d == 6 {
        "6"
    } else if d == 7 {
        "7"
    } else if d == 8 {
        "8"
    } else {
        "9"
    };
    assert(r@ =~= seq![digit_char(d as int)]);
    r
}

/// Appends the decimal digits of `n`.
fn push_decimal_nat(s: &mut String, n: u32)
    ensures
        final(s)@ == old(s)@ + decimal_nat(n as nat),
    decreases n,
{
    if n >= 10 {
        push_decimal_nat(s, n / 10);
    }
    s.append(digit_str(n % 10));
    proof {
        if n < 10 {
            assert(n % 10 == n);
        }
        assert(s@ =~= old(s)@ + decimal_nat(n as nat));
    }
}

/// Appends `x` in decimal, with a leading `-` when negative.
fn push_decimal(s: &mut String, x: i16)
    ensures
        final(s)@ == old(s)@ + decimal(x as int),
{
    if x < 0 {
        proof {
            reveal_strlit("-");
        }
        s.append("-");
        let m: u32 = (-(x as i32)) as u32;
        push_decimal_nat(s, m);
        assert(s@ =~= old(s)@ + decimal(x as int));
    } else {
        push_decimal_nat(s, x as u32);
    }
}

/// The name of a grid cell: `name (x, y, z)`.
fn cell_name(name: &String, x: i16, y: i16, z: i16) -> (res: String)
    ensures
        res@ == cell_name_spec(name@, x, y, z),
{
    proof {
        reveal_strlit(" (");
        reveal_strlit(", ");
        reveal_strlit(")");
    }
    let mut s = name.clone();
    s.append(" (");
    push_decimal(&mut s, x);
    s.append(", ");
    push_decimal(&mut s, y);
    s.append(", ");
    push_decimal(&mut s, z);
    s.append(")");
    assert(s@ =~= cell_name_spec(name@, x, y, z));
    s
}

/// The parts of a mesh that the contracts speak of: vertices, counts, name.
pub open spec fn mesh_view(m: MeshPSX) -> (Seq<VertexPSX>, int, int, Seq<char>) {
    (m.verts@, m.n_triangles as int, m.n_quads as int, m.name@)
}

pub open spec fn mesh_views(ms: Seq<MeshPSX>) -> Seq<(Seq<VertexPSX>, int, int, Seq<char>)> {
    Seq::new(ms.len(), |i: int| mesh_view(ms[i]))
}

/// The mesh made of the polygons whose centres lie in a cell, named after
/// the cell's lower corner; none if the cell holds no polygon.
pub open spec fn cell_views(
    name: Seq<char>,
    tris: Seq<VertexPSX>,
    quads: Seq<VertexPSX>,
    b: CellBox,
) -> Seq<(Seq<VertexPSX>, int, int, Seq<char>)> {
    let ts = select_tris(tris, tris.len() as int / 3, b);
    let qs = select_quads(quads, quads.len() as int / 4, b);
    if ts.len() == 0 && qs.len() == 0 {
        seq![]
    } else {
        seq![(ts + qs, ts.len() as int / 3, qs.len() as int / 4, cell_name_spec(name, b.x0, b.y0, b.z0))]
    }
}

/// The cell `(x, y, z)` of the grid with lines `cx`, `cy`, `cz`.
pub open spec fn cell_box(cx: Seq<i16>, cy: Seq<i16>, cz: Seq<i16>, x: int, y: int, z: int) -> CellBox {
    CellBox { x0: cx[x], x1: cx[x + 1], y0: cy[y], y1: cy[y + 1], z0: cz[z], z1: cz[z + 1] }
}

/// The meshes of the first `nx` cells of row `(y, z)`.
pub open spec fn row_views(
    name: Seq<char>,
    tris: Seq<VertexPSX>,
    quads: Seq<VertexPSX>,
    cx: Seq<i16>,
    cy: Seq<i16>,
    cz: Seq<i16>,
    y: int,
    z: int,
    nx: int,
) -> Seq<(Seq<VertexPSX>, int, int, Seq<char>)>
    decreases nx,
{
    if nx <= 0 {
        seq![]
    } else {
        row_views(name, tris, quads, cx, cy, cz, y, z, nx - 1) + cell_views(
            name,
            tris,
            quads,
            cell_box(cx, cy, cz, nx - 1, y, z),
        )
    }
}

/// The meshes of the first `ny` rows of layer `z`.
pub open spec fn layer_views(
    name: Seq<char>,
    tris: Seq<VertexPSX>,
    quads: Seq<VertexPSX>,
    cx: Seq<i16>,
    cy: Seq<i16>,
    cz: Seq<i16>,
    z: int,
    ny: int,
) -> Seq<(Seq<VertexPSX>, int, int, Seq<char>)>
    decreases ny,
{
    if ny <= 0 {
        seq![]
    } else {
        layer_views(name, tris, quads, cx, cy, cz, z, ny - 1) + row_views(
            name,
            tris,
            quads,
            cx,
            cy,
            cz,
            ny - 1,
            z,
            cx.len() - 1,
        )
    }
}

/// The meshes of the first `nz` layers of the grid, one per non-empty cell,
/// cells taken by z, then y, then x.
pub open spec fn grid_views(
    name: Seq<char>,
    tris: Seq<VertexPSX>,
    quads: Seq<VertexPSX>,
    cx: Seq<i16>,
    cy: Seq<i16>,
    cz: Seq<i16>,
    nz: int,
) -> Seq<(Seq<VertexPSX>, int, int, Seq<char>)>
    decreases nz,
{
    if nz <= 0 {
        seq![]
    } else {
        grid_views(name, tris, quads, cx, cy, cz, nz - 1) + layer_views(
            name,
            tris,
            quads,
            cx,
            cy,
            cz,
            nz - 1,
            cy.len() - 1,
        )
    }
}

/// Appends the mesh of one cell, if it holds any polygon.
fn add_cell(
    name: &String,
    mesh: &MeshGridEntry,
    b: CellBox,
    meshes_to_add: &mut Vec<MeshPSX>,
)
    requires
        mesh.triangles.len() % 3 == 0,
        mesh.quads.len() % 4 == 0,
    ensures
        mesh_views(final(meshes_to_add)@) == mesh_views(old(meshes_to_add)@) + cell_views(
            name@,
            mesh.triangles@,
            mesh.quads@,
            b,
        ),
{
    // Find all polygons whose center is inside that bounding box
    let (tris, quads) = select_polygons(mesh, b);

    // Filter out empty meshes
    if tris.len() == 0 && quads.len() == 0 {
        assert(mesh_views(meshes_to_add@) =~= mesh_views(old(meshes_to_add)@) + cell_views(
            name@,
            mesh.triangles@,
            mesh.quads@,
            b,
        ));
        return ;
    }
    // Create a mesh
    let entry = MeshGridEntry { triangles: tris, quads };
    let cell_mesh = mesh_from_entry(cell_name(name, b.x0, b.y0, b.z0), &entry);
    meshes_to_add.push(cell_mesh);
    assert(mesh_views(meshes_to_add@) =~= mesh_views(old(meshes_to_add)@) + cell_views(
        name@,
        mesh.triangles@,
        mesh.quads@,
        b,
    ));
}

/// Splits a mesh along the grid with lines `coords_x`, `coords_y` and
/// `coords_z` (the cells are `(coords[i], coords[i + 1]]` on each axis),
/// appending one mesh per non-empty cell, cells taken by z, then y, then x,
/// each named after its lower corner.
///
/// For a split of a bounding box into equal parts the lines are the lowest
/// 16-bit value, the box's minimum less one, the rounded-up part boundaries
/// and the highest 16-bit value; `grid_coordinates` computes them for 1 to 5
/// parts.
#[verifier::spinoff_prover]
pub fn split_equal_based_on_aabb(
    name: &String,
    coords_z: &Vec<i16>,
    coords_y: &Vec<i16>,
    coords_x: &Vec<i16>,
    mesh: &MeshGridEntry,
    meshes_to_add: &mut Vec<MeshPSX>,
)
    requires
        coords_x.len() >= 1,
        coords_y.len() >= 1,
        coords_z.len() >= 1,
        mesh.triangles.len() % 3 == 0,
        mesh.quads.len() % 4 == 0,
    ensures
        mesh_views(final(meshes_to_add)@) == mesh_views(old(meshes_to_add)@) + grid_views(
            name@,
            mesh.triangles@,
            mesh.quads@,
            coords_x@,
            coords_y@,
            coords_z@,
            coords_z.len() - 1,
        ),
        final(meshes_to_add).len() <= old(meshes_to_add).len() + (coords_z.len() - 1) * ((
        coords_y.len() - 1) * (coords_x.len() - 1)),
{
    let ghost v0 = mesh_views(meshes_to_add@);
    let ghost n = name@;
    let ghost ts = mesh.triangles@;
    let ghost qs = mesh.quads@;

    let mut z: usize = 0;
    while z < coords_z.len() - 1
        invariant
            coords_x.len() >= 1,
            coords_y.len() >= 1,
            coords_z.len() >= 1,
            n == name@,
            ts == mesh.triangles@,
            qs == mesh.quads@,
            mesh.triangles.len() % 3 == 0,
            mesh.quads.len() % 4 == 0,
            z <= coords_z.len() - 1,
            mesh_views(meshes_to_add@) == v0 + grid_views(
                n,
                ts,
                qs,
                coords_x@,
                coords_y@,
                coords_z@,
                z as int,
            ),
        decreases coords_z.len() - 1 - z,
    {
        let mut y: usize = 0;
        while y < coords_y.len() - 1
            invariant
            coords_x.len() >= 1,
                coords_y.len() >= 1,
                coords_z.len() >= 1,
                n == name@,
                ts == mesh.triangles@,
                qs == mesh.quads@,
                mesh.triangles.len() % 3 == 0,
                mesh.quads.len() % 4 == 0,
                z < coords_z.len() - 1,
                y <= coords_y.len() - 1,
                mesh_views(meshes_to_add@) == v0 + grid_views(
                    n,
                    ts,
                    qs,
                    coords_x@,
                    coords_y@,
                    coords_z@,
                    z as int,
                ) + layer_views(n, ts, qs, coords_x@, coords_y@, coords_z@, z as int, y as int),
            decreases coords_y.len() - 1 - y,
        {
            let mut x: usize = 0;
            while x < coords_x.len() - 1
                invariant
            coords_x.len() >= 1,
                    coords_y.len() >= 1,
                    coords_z.len() >= 1,
                    n == name@,
                    ts == mesh.triangles@,
                    qs == mesh.quads@,
                    mesh.triangles.len() % 3 == 0,
                    mesh.quads.len() % 4 == 0,
                    z < coords_z.len() - 1,
                    y < coords_y.len() - 1,
                    x <= coords_x.len() - 1,
                    mesh_views(meshes_to_add@) == v0 + grid_views(
                        n,
                        ts,
                        qs,
                        coords_x@,
                        coords_y@,
                        coords_z@,
                        z as int,
                    ) + layer_views(n, ts, qs, coords_x@, coords_y@, coords_z@, z as int, y as int)
                        + row_views(
                        n,
                        ts,
                        qs,
                        coords_x@,
                        coords_y@,
                        coords_z@,
                        y as int,
                        z as int,
                        x as int,
                    ),
                decreases coords_x.len() - 1 - x,
            {
                let b = CellBox {
                    x0: coords_x[x],
                    x1: coords_x[x + 1],
                    y0: coords_y[y],
                    y1: coords_y[y + 1],
                    z0: coords_z[z],
                    z1: coords_z[z + 1],
                };
                let ghost before = mesh_views(meshes_to_add@);
                add_cell(name, mesh, b, meshes_to_add);
                proof {
                    assert(b == cell_box(
                        coords_x@,
                        coords_y@,
                        coords_z@,
                        x as int,
                        y as int,
                        z as int,
                    ));
                    let g = grid_views(n, ts, qs, coords_x@, coords_y@, coords_z@, z as int);
                    let l = layer_views(
                        n,
                        ts,
                        qs,
                        coords_x@,
                        coords_y@,
                        coords_z@,
                        z as int,
                        y as int,
                    );
                    let r = row_views(
                        n,
                        ts,
                        qs,
                        coords_x@,
                        coords_y@,
                        coords_z@,
                        y as int,
                        z as int,
                        x as int,
                    );
                    let c = cell_views(n, ts, qs, b);
                    assert(v0 + g + l + r + c =~= v0 + g + l + (r + c));
                }
                x += 1;
            }
            proof {
                let g = grid_views(n, ts, qs, coords_x@, coords_y@, coords_z@, z as int);
                let l = layer_views(n, ts, qs, coords_x@, coords_y@, coords_z@, z as int, y as int);
                let r = row_views(
                    n,
                    ts,
                    qs,
                    coords_x@,
                    coords_y@,
                    coords_z@,
                    y as int,
                    z as int,
                    coords_x.len() - 1,
                );
                assert(v0 + g + l + r =~= v0 + g + (l + r));
            }
            y += 1;
        }
        proof {
            let g = grid_views(n, ts, qs, coords_x@, coords_y@, coords_z@, z as int);
            let l = layer_views(
                n,
                ts,
                qs,
                coords_x@,
                coords_y@,
                coords_z@,
                z as int,
                coords_y.len() - 1,
            );
            assert(v0 + g + l =~= v0 + (g + l));
        }
        z += 1;
    }
    proof {
        lemma_grid_views(
            n,
            ts,
            qs,
            coords_x@,
            coords_y@,
            coords_z@,
            coords_z.len() - 1,
        );
        assert(mesh_views(meshes_to_add@).len() == meshes_to_add.len());
        assert(v0.len() == old(meshes_to_add).len());
    }
}

/// The absolute value.
pub open spec fn abs(x: int) -> int {
    if x < 0 {
        -x
    } else {
        x
    }
}

/// The penalty added per mesh for unequal split counts along the axes.
pub open spec fn split_penalty(sx: int, sy: int, sz: int) -> int {
    abs(sx - sy) * 20 / (sx + sy + sz) + abs(sy - sz) * 20 / (sx + sy + sz) + abs(sz - sx) * 20 / (
    sx + sy + sz)
}

/// How far a split is from the target of 80 polygons per mesh: for each
/// mesh, the distance of its polygon count from 80 plus the penalty.
pub open spec fn split_error(vs: Seq<(Seq<VertexPSX>, int, int, Seq<char>)>, penalty: int) -> int
    decreases vs.len(),
{
    if vs.len() == 0 {
        0
    } else {
        split_error(vs.drop_last(), penalty) + abs(vs.last().2 + vs.last().1 - 80) + penalty
    }
}

/// The meshes of the split of a mesh into `sx` x `sy` x `sz` parts of its
/// bounding box (see `split_equal_based_on_aabb`).
pub open spec fn candidate_split(
    name: Seq<char>,
    ts: Seq<VertexPSX>,
    qs: Seq<VertexPSX>,
    sx: int,
    sy: int,
    sz: int,
) -> Seq<(Seq<VertexPSX>, int, int, Seq<char>)> {
    let all = ts + qs;
    grid_views(
        name,
        ts,
        qs,
        grid_coords(min_pos(all, 0), (max_pos(all, 0) - min_pos(all, 0)) as i16, sx as i16),
        grid_coords(min_pos(all, 1), (max_pos(all, 1) - min_pos(all, 1)) as i16, sy as i16),
        grid_coords(min_pos(all, 2), (max_pos(all, 2) - min_pos(all, 2)) as i16, sz as i16),
        sz + 2,
    )
}

/// Keeps the candidate if it is not empty and has a smaller error than the
/// best so far.
pub open spec fn keep_better(
    best: (Seq<(Seq<VertexPSX>, int, int, Seq<char>)>, int),
    candidate: Seq<(Seq<VertexPSX>, int, int, Seq<char>)>,
    error: int,
) -> (Seq<(Seq<VertexPSX>, int, int, Seq<char>)>, int) {
    if error < best.1 && candidate.len() > 0 {
        (candidate, error)
    } else {
        best
    }
}

/// The best split after trying `sz` in `1..=nz` for the given `sx`, `sy`.
pub open spec fn best_over_z(
    name: Seq<char>,
    ts: Seq<VertexPSX>,
    qs: Seq<VertexPSX>,
    best: (Seq<(Seq<VertexPSX>, int, int, Seq<char>)>, int),
    sx: int,
    sy: int,
    nz: int,
) -> (Seq<(Seq<VertexPSX>, int, int, Seq<char>)>, int)
    decreases nz,
{
    if nz <= 0 {
        best
    } else {
        let prev = best_over_z(name, ts, qs, best, sx, sy, nz - 1);
        let c = candidate_split(name, ts, qs, sx, sy, nz);
        keep_better(prev, c, split_error(c, split_penalty(sx, sy, nz)))
    }
}

/// The best split after trying `sy` in `1..=ny` (and every `sz`) for `sx`.
pub open spec fn best_over_y(
    name: Seq<char>,
    ts: Seq<VertexPSX>,
    qs: Seq<VertexPSX>,
    best: (Seq<(Seq<VertexPSX>, int, int, Seq<char>)>, int),
    sx: int,
    ny: int,
) -> (Seq<(Seq<VertexPSX>, int, int, Seq<char>)>, int)
    decreases ny,
{
    if ny <= 0 {
        best
    } else {
        best_over_z(name, ts, qs, best_over_y(name, ts, qs, best, sx, ny - 1), sx, ny, 5)
    }
}

/// The best split after trying `sx` in `1..=nx` (and every `sy`, `sz`).
pub open spec fn best_over_x(
    name: Seq<char>,
    ts: Seq<VertexPSX>,
    qs: Seq<VertexPSX>,
    best: (Seq<(Seq<VertexPSX>, int, int, Seq<char>)>, int),
    nx: int,
) -> (Seq<(Seq<VertexPSX>, int, int, Seq<char>)>, int)
    decreases nx,
{
    if nx <= 0 {
        best
    } else {
        best_over_y(name, ts, qs, best_over_x(name, ts, qs, best, nx - 1), nx, 5)
    }
}

/// The meshes a mesh is split into: itself when it has fewer than 80
/// triangle and quad vertices; otherwise the non-empty split of its bounding
/// box into 1 to 5 parts per axis whose error (see `split_error`) is
/// smallest, the first one found on ties.
pub open spec fn even_split(name: Seq<char>, ts: Seq<VertexPSX>, qs: Seq<VertexPSX>) -> Seq<
    (Seq<VertexPSX>, int, int, Seq<char>),
> {
    if ts.len() + qs.len() < 80 {
        seq![(ts + qs, ts.len() as int / 3, qs.len() as int / 4, name)]
    } else {
        best_over_x(name, ts, qs, (seq![], i64::MAX as int), 5).0
    }
}

/// Every mesh has at most as many triangles and quads as the source mesh.
pub open spec fn views_bounded(
    vs: Seq<(Seq<VertexPSX>, int, int, Seq<char>)>,
    n_tris: int,
    n_quads: int,
) -> bool {
    forall|i: int| 0 <= i < vs.len() ==> 0 <= #[trigger] vs[i].1 <= n_tris && 0 <= vs[i].2 <= n_quads
}

proof fn lemma_select_tris_len(vs: Seq<VertexPSX>, n: int, b: CellBox)
    requires
        0 <= n,
        3 * n <= vs.len(),
    ensures
        select_tris(vs, n, b).len() <= 3 * n,
    decreases n,
{
    if n > 0 {
        lemma_select_tris_len(vs, n - 1, b);
    }
}

proof fn lemma_select_quads_len(vs: Seq<VertexPSX>, n: int, b: CellBox)
    requires
        0 <= n,
        4 * n <= vs.len(),
    ensures
        select_quads(vs, n, b).len() <= 4 * n,
    decreases n,
{
    if n > 0 {
        lemma_select_quads_len(vs, n - 1, b);
    }
}

proof fn lemma_bounded_concat(
    a: Seq<(Seq<VertexPSX>, int, int, Seq<char>)>,
    b: Seq<(Seq<VertexPSX>, int, int, Seq<char>)>,
    n_tris: int,
    n_quads: int,
)
    requires
        views_bounded(a, n_tris, n_quads),
        views_bounded(b, n_tris, n_quads),
    ensures
        views_bounded(a + b, n_tris, n_quads),
{
    assert forall|i: int| 0 <= i < (a + b).len() implies 0 <= #[trigger] (a + b)[i].1 <= n_tris
        && 0 <= (a + b)[i].2 <= n_quads by {
        if i < a.len() {
            assert((a + b)[i] == a[i]);
        } else {
            assert((a + b)[i] == b[i - a.len()]);
        }
    }
}

proof fn lemma_row_views(
    name: Seq<char>,
    tris: Seq<VertexPSX>,
    quads: Seq<VertexPSX>,
    cx: Seq<i16>,
    cy: Seq<i16>,
    cz: Seq<i16>,
    y: int,
    z: int,
    nx: int,
)
    requires
        nx >= 0,
    ensures
        row_views(name, tris, quads, cx, cy, cz, y, z, nx).len() <= nx,
        views_bounded(
            row_views(name, tris, quads, cx, cy, cz, y, z, nx),
            tris.len() as int / 3,
            quads.len() as int / 4,
        ),
    decreases nx,
{
    if nx > 0 {
        lemma_row_views(name, tris, quads, cx, cy, cz, y, z, nx - 1);
        let b = cell_box(cx, cy, cz, nx - 1, y, z);
        lemma_select_tris_len(tris, tris.len() as int / 3, b);
        lemma_select_quads_len(quads, quads.len() as int / 4, b);
        lemma_bounded_concat(
            row_views(name, tris, quads, cx, cy, cz, y, z, nx - 1),
            cell_views(name, tris, quads, b),
            tris.len() as int / 3,
            quads.len() as int / 4,
        );
    }
}

proof fn lemma_layer_views(
    name: Seq<char>,
    tris: Seq<VertexPSX>,
    quads: Seq<VertexPSX>,
    cx: Seq<i16>,
    cy: Seq<i16>,
    cz: Seq<i16>,
    z: int,
    ny: int,
)
    requires
        ny >= 0,
        cx.len() >= 1,
    ensures
        layer_views(name, tris, quads, cx, cy, cz, z, ny).len() <= ny * (cx.len() - 1),
        views_bounded(
            layer_views(name, tris, quads, cx, cy, cz, z, ny),
            tris.len() as int / 3,
            quads.len() as int / 4,
        ),
    decreases ny,
{
    if ny > 0 {
        lemma_layer_views(name, tris, quads, cx, cy, cz, z, ny - 1);
        lemma_row_views(name, tris, quads, cx, cy, cz, ny - 1, z, cx.len() - 1);
        lemma_bounded_concat(
            layer_views(name, tris, quads, cx, cy, cz, z, ny - 1),
            row_views(name, tris, quads, cx, cy, cz, ny - 1, z, cx.len() - 1),
            tris.len() as int / 3,
            quads.len() as int / 4,
        );
        assert((ny - 1) * (cx.len() - 1) + (cx.len() - 1) == ny * (cx.len() - 1)) by (
        nonlinear_arith);
    }
}

pub(crate) proof fn lemma_grid_views(
    name: Seq<char>,
    tris: Seq<VertexPSX>,
    quads: Seq<VertexPSX>,
    cx: Seq<i16>,
    cy: Seq<i16>,
    cz: Seq<i16>,
    nz: int,
)
    requires
        nz >= 0,
        cx.len() >= 1,
        cy.len() >= 1,
    ensures
        grid_views(name, tris, quads, cx, cy, cz, nz).len() <= nz * ((cy.len() - 1) * (cx.len()
            - 1)),
        views_bounded(
            grid_views(name, tris, quads, cx, cy, cz, nz),
            tris.len() as int / 3,
            quads.len() as int / 4,
        ),
    decreases nz,
{
    if nz > 0 {
        lemma_grid_views(name, tris, quads, cx, cy, cz, nz - 1);
        lemma_layer_views(name, tris, quads, cx, cy, cz, nz - 1, cy.len() - 1);
        lemma_bounded_concat(
            grid_views(name, tris, quads, cx, cy, cz, nz - 1),
            layer_views(name, tris, quads, cx, cy, cz, nz - 1, cy.len() - 1),
            tris.len() as int / 3,
            quads.len() as int / 4,
        );
        assert((nz - 1) * ((cy.len() - 1) * (cx.len() - 1)) + (cy.len() - 1) * (cx.len() - 1)
            == nz * ((cy.len() - 1) * (cx.len() - 1))) by (nonlinear_arith);
    }
}

/// The bounding box of a mesh's vertices fits the grid computations: along
/// each axis it spans at most 32767 and stays above -32768.
pub open spec fn splittable(ts: Seq<VertexPSX>, qs: Seq<VertexPSX>) -> bool {
    let all = ts + qs;
    forall|a: int|
        0 <= a < 3 ==> #[trigger] min_pos(all, a) > i16::MIN && max_pos(all, a) - min_pos(all, a)
            <= i16::MAX
}

/// The error of a candidate split, as an `i64`.
fn candidate_error(
    meshes: &Vec<MeshPSX>,
    sx: i16,
    sy: i16,
    sz: i16,
    Ghost(n_tris): Ghost<int>,
    Ghost(n_quads): Ghost<int>,
) -> (error: i64)
    requires
        1 <= sx <= 5,
        1 <= sy <= 5,
        1 <= sz <= 5,
        meshes.len() <= 343,
        0 <= n_tris + n_quads <= 0x1_0000_0000,
        views_bounded(mesh_views(meshes@), n_tris, n_quads),
    ensures
        error == split_error(mesh_views(meshes@), split_penalty(sx as int, sy as int, sz as int)),
{
    let ghost vs = mesh_views(meshes@);
    let ghost pen = split_penalty(sx as int, sy as int, sz as int);
    let sum = (sx + sy + sz) as i64;
    let dxy = if sx >= sy {
        sx - sy
    } else {
        sy - sx
    } as i64;
    let dyz = if sy >= sz {
        sy - sz
    } else {
        sz - sy
    } as i64;
    let dzx = if sz >= sx {
        sz - sx
    } else {
        sx - sz
    } as i64;
    assert(0 <= dxy * 20 / (sum as int) <= 26) by (nonlinear_arith)
        requires
            0 <= dxy <= 4,
            3 <= sum <= 15,
    ;
    assert(0 <= dyz * 20 / (sum as int) <= 26) by (nonlinear_arith)
        requires
            0 <= dyz <= 4,
            3 <= sum <= 15,
    ;
    assert(0 <= dzx * 20 / (sum as int) <= 26) by (nonlinear_arith)
        requires
            0 <= dzx <= 4,
            3 <= sum <= 15,
    ;
    let penalty: i64 = dxy * 20 / sum + dyz * 20 / sum + dzx * 20 / sum;
    assert(penalty == pen);
    let mut error: i64 = 0;
    let mut i: usize = 0;
    while i < meshes.len()
        invariant
            vs == mesh_views(meshes@),
            meshes.len() <= 343,
            0 <= n_tris + n_quads <= 0x1_0000_0000,
            views_bounded(vs, n_tris, n_quads),
            0 <= penalty <= 80,
            penalty == pen,
            i <= meshes.len(),
            error == split_error(vs.take(i as int), pen),
            0 <= error <= i * 4294967496,
        decreases meshes.len() - i,
    {
        proof {
            assert(vs.take(i + 1).drop_last() =~= vs.take(i as int));
            assert(vs[i as int].1 == meshes@[i as int].n_triangles);
            assert(vs[i as int].2 == meshes@[i as int].n_quads);
            assert(0 <= vs[i as int].1 <= n_tris && 0 <= vs[i as int].2 <= n_quads);
            assert(meshes@[i as int].n_quads + meshes@[i as int].n_triangles <= 0x1_0000_0000);
            assert(error + 0x1_0000_0000 + 200 <= (i + 1) * 4294967496);
        }
        let mesh = &meshes[i];
        let count = mesh.n_quads as i64 + mesh.n_triangles as i64 - 80;
        let deviation = if count < 0 {
            -count
        } else {
            count
        };
        error += deviation;
        error += penalty;
        i += 1;
    }
    assert(vs.take(meshes.len() as int) =~= vs);
    error
}

/// Splits a mesh into meshes of about 80 polygons each: meshes with fewer
/// than 80 triangle and quad vertices stay whole; others are split along a
/// grid over their bounding box, trying 1 to 5 parts per axis and keeping the
/// split with the smallest error (see `even_split`).
#[verifier::spinoff_prover]
pub fn split_mesh_evenly(name: String, mesh: &MeshGridEntry) -> (meshes: Vec<MeshPSX>)
    requires
        mesh.triangles.len() % 3 == 0,
        mesh.quads.len() % 4 == 0,
        mesh.triangles.len() + mesh.quads.len() <= 0xFFFF_FFFF,
        mesh.triangles.len() + mesh.quads.len() >= 80 ==> splittable(mesh.triangles@, mesh.quads@),
    ensures
        mesh_views(meshes@) == even_split(name@, mesh.triangles@, mesh.quads@),
        mesh.triangles.len() + mesh.quads.len() >= 80 ==> meshes.len() > 0 && exists|
            a: int,
            b: int,
            c: int,
        |
            #![trigger candidate_split(name@, mesh.triangles@, mesh.quads@, a, b, c)]
            1 <= a <= 5 && 1 <= b <= 5 && 1 <= c <= 5 && mesh_views(meshes@) == candidate_split(
                name@,
                mesh.triangles@,
                mesh.quads@,
                a,
                b,
                c,
            ) && forall|x: int, y: int, z: int|
                1 <= x <= 5 && 1 <= y <= 5 && 1 <= z <= 5 && #[trigger] candidate_split(
                    name@,
                    mesh.triangles@,
                    mesh.quads@,
                    x,
                    y,
                    z,
                ).len() > 0 ==> split_error(
                    candidate_split(name@, mesh.triangles@, mesh.quads@, a, b, c),
                    split_penalty(a, b, c),
                ) <= split_error(
                    candidate_split(name@, mesh.triangles@, mesh.quads@, x, y, z),
                    split_penalty(x, y, z),
                ),
{
    let target_polygon_count_per_mesh: usize = 80;
    let ghost ts = mesh.triangles@;
    let ghost qs = mesh.quads@;
    let ghost n = name@;

    // Don't split if the mesh has fewer than 80 triangle and quad vertex entries
    if mesh.triangles.len() + mesh.quads.len() < target_polygon_count_per_mesh {
        let whole = mesh_from_entry(name, mesh);
        let meshes = vec![whole];
        assert(mesh_views(meshes@) =~= even_split(n, ts, qs));
        return meshes;
    }
    let ghost all = ts + qs;

    // Get bounding box
    let mut min_x: i16 = i16::MAX;
    let mut min_y: i16 = i16::MAX;
    let mut min_z: i16 = i16::MAX;
    let mut max_x: i16 = i16::MIN;
    let mut max_y: i16 = i16::MIN;
    let mut max_z: i16 = i16::MIN;
    let mut k: usize = 0;
    let total = mesh.triangles.len() + mesh.quads.len();
    while k < total
        invariant
            all == ts + qs,
            ts == mesh.triangles@,
            qs == mesh.quads@,
            total == all.len(),
            k <= total,
            min_x == min_pos(all.take(k as int), 0),
            max_x == max_pos(all.take(k as int), 0),
            min_y == min_pos(all.take(k as int), 1),
            max_y == max_pos(all.take(k as int), 1),
            min_z == min_pos(all.take(k as int), 2),
            max_z == max_pos(all.take(k as int), 2),
        decreases total - k,
    {
        let vertex = if k < mesh.triangles.len() {
            mesh.triangles[k]
        } else {
            mesh.quads[k - mesh.triangles.len()]
        };
        assert(vertex == all[k as int]);
        assert(all.take(k + 1).drop_last() =~= all.take(k as int));
        if vertex.pos_x < min_x {
            min_x = vertex.pos_x;
        }
        if vertex.pos_y < min_y {
            min_y = vertex.pos_y;
        }
        if vertex.pos_z < min_z {
            min_z = vertex.pos_z;
        }
        if vertex.pos_x > max_x {
            max_x = vertex.pos_x;
        }
        if vertex.pos_y > max_y {
            max_y = vertex.pos_y;
        }
        if vertex.pos_z > max_z {
            max_z = vertex.pos_z;
        }
        k += 1;
    }
    proof {
        assert(all.take(total as int) =~= all);
        assert(min_pos(all, 0) > i16::MIN && max_pos(all, 0) - min_pos(all, 0) <= i16::MAX);
        assert(min_pos(all, 1) > i16::MIN && max_pos(all, 1) - min_pos(all, 1) <= i16::MAX);
        assert(min_pos(all, 2) > i16::MIN && max_pos(all, 2) - min_pos(all, 2) <= i16::MAX);
        lemma_extent_nonneg(all, 0);
        lemma_extent_nonneg(all, 1);
        lemma_extent_nonneg(all, 2);
    }

    // Calculate size
    let size_x = max_x - min_x;
    let size_y = max_y - min_y;
    let size_z = max_z - min_z;

    // Figure out the best split count - a bit expensive, since we brute force it, but that's fine for lower poly meshes like on PS1
    let mut current_best: Vec<MeshPSX> = Vec::new();
    let mut current_best_error: i64 = i64::MAX;
    let ghost init: (Seq<(Seq<VertexPSX>, int, int, Seq<char>)>, int) = (seq![], i64::MAX as int);
    assert(mesh_views(current_best@) =~= seq![]);
    let mut splits_x: i16 = 1;
    while splits_x < 6
        invariant
            ts == mesh.triangles@,
            qs == mesh.quads@,
            n == name@,
            all == ts + qs,
            mesh.triangles.len() % 3 == 0,
            mesh.quads.len() % 4 == 0,
            ts.len() + qs.len() <= 0x1_0000_0000,
            min_x == min_pos(all, 0),
            min_y == min_pos(all, 1),
            min_z == min_pos(all, 2),
            size_x == max_pos(all, 0) - min_pos(all, 0),
            size_y == max_pos(all, 1) - min_pos(all, 1),
            size_z == max_pos(all, 2) - min_pos(all, 2),
            min_x > i16::MIN,
            min_y > i16::MIN,
            min_z > i16::MIN,
            0 <= size_x,
            0 <= size_y,
            0 <= size_z,
            1 <= splits_x <= 6,
            (mesh_views(current_best@), current_best_error as int) == best_over_x(
                n,
                ts,
                qs,
                init,
                splits_x - 1,
            ),
        decreases 6 - splits_x,
    {
        let mut splits_y: i16 = 1;
        while splits_y < 6
            invariant
                ts == mesh.triangles@,
                qs == mesh.quads@,
                n == name@,
                all == ts + qs,
                mesh.triangles.len() % 3 == 0,
                mesh.quads.len() % 4 == 0,
                ts.len() + qs.len() <= 0x1_0000_0000,
                min_x == min_pos(all, 0),
                min_y == min_pos(all, 1),
                min_z == min_pos(all, 2),
                size_x == max_pos(all, 0) - min_pos(all, 0),
                size_y == max_pos(all, 1) - min_pos(all, 1),
                size_z == max_pos(all, 2) - min_pos(all, 2),
                min_x > i16::MIN,
                min_y > i16::MIN,
                min_z > i16::MIN,
                0 <= size_x,
                0 <= size_y,
                0 <= size_z,
                1 <= splits_x <= 5,
                1 <= splits_y <= 6,
                (mesh_views(current_best@), current_best_error as int) == best_over_y(
                    n,
                    ts,
                    qs,
                    best_over_x(n, ts, qs, init, splits_x - 1),
                    splits_x as int,
                    splits_y - 1,
                ),
            decreases 6 - splits_y,
        {
            let mut splits_z: i16 = 1;
            while splits_z < 6
                invariant
                    ts == mesh.triangles@,
                    qs == mesh.quads@,
                    n == name@,
                    all == ts + qs,
                    mesh.triangles.len() % 3 == 0,
                    mesh.quads.len() % 4 == 0,
                    ts.len() + qs.len() <= 0x1_0000_0000,
                    min_x == min_pos(all, 0),
                    min_y == min_pos(all, 1),
                    min_z == min_pos(all, 2),
                    size_x == max_pos(all, 0) - min_pos(all, 0),
                    size_y == max_pos(all, 1) - min_pos(all, 1),
                    size_z == max_pos(all, 2) - min_pos(all, 2),
                    min_x > i16::MIN,
                    min_y > i16::MIN,
                    min_z > i16::MIN,
                    0 <= size_x,
                    0 <= size_y,
                    0 <= size_z,
                    1 <= splits_x <= 5,
                    1 <= splits_y <= 5,
                    1 <= splits_z <= 6,
                    (mesh_views(current_best@), current_best_error as int) == best_over_z(
                        n,
                        ts,
                        qs,
                        best_over_y(
                            n,
                            ts,
                            qs,
                            best_over_x(n, ts, qs, init, splits_x - 1),
                            splits_x as int,
                            splits_y - 1,
                        ),
                        splits_x as int,
                        splits_y as int,
                        splits_z - 1,
                    ),
                decreases 6 - splits_z,
            {
                let mut meshes_to_add: Vec<MeshPSX> = Vec::new();
                let coords_x = grid_coordinates(min_x, size_x, splits_x);
                let coords_y = grid_coordinates(min_y, size_y, splits_y);
                let coords_z = grid_coordinates(min_z, size_z, splits_z);
                split_equal_based_on_aabb(
                    &name,
                    &coords_z,
                    &coords_y,
                    &coords_x,
                    mesh,
                    &mut meshes_to_add,
                );
                let ghost cand = candidate_split(
                    n,
                    ts,
                    qs,
                    splits_x as int,
                    splits_y as int,
                    splits_z as int,
                );
                proof {
                    assert(mesh_views(Seq::<MeshPSX>::empty()) =~= seq![]);
                    assert(mesh_views(meshes_to_add@) =~= cand);
                    lemma_grid_views(
                        n,
                        ts,
                        qs,
                        grid_coords(min_x, size_x, splits_x),
                        grid_coords(min_y, size_y, splits_y),
                        grid_coords(min_z, size_z, splits_z),
                        splits_z + 2,
                    );
                    assert((splits_z + 2) * ((splits_y + 2) * (splits_x + 2)) <= 343) by (
                    nonlinear_arith)
                        requires
                            1 <= splits_x <= 5,
                            1 <= splits_y <= 5,
                            1 <= splits_z <= 5,
                    ;
                }

                // Calculate score. How big is the deviation from the target we want?
                let error = candidate_error(
                    &meshes_to_add,
                    splits_x,
                    splits_y,
                    splits_z,
                    Ghost(ts.len() as int / 3),
                    Ghost(qs.len() as int / 4),
                );

                // Is it better than before? Store the result
                if error < current_best_error && meshes_to_add.len() > 0 {
                    current_best = meshes_to_add;
                    current_best_error = error;
                }
                splits_z += 1;
            }
            splits_y += 1;
        }
        splits_x += 1;
    }
    proof {
        lemma_even_split_is_best(n, ts, qs);
        assert(mesh_views(current_best@).len() == current_best@.len());
    }
    current_best
}

/// Byte `k` of pixel `p` of an image with `depth` (3 or 4) bytes per pixel.
pub open spec fn pixel_byte(data: Seq<u8>, depth: int, p: int, k: int) -> int {
    if depth == 4 {
        data[4 * p + k] as int
    } else {
        data[3 * p + k] as int
    }
}

/// The sum of byte `k` over the first `n` pixels.
pub open spec fn channel_sum(data: Seq<u8>, depth: int, k: int, n: int) -> int
    decreases n,
{
    if n <= 0 {
        0
    } else {
        channel_sum(data, depth, k, n - 1) + pixel_byte(data, depth, n - 1, k)
    }
}

/// The alpha of the first `n` pixels, counted twice (255 without an alpha channel).
pub open spec fn alpha_sum(data: Seq<u8>, depth: int, n: int) -> int
    decreases n,
{
    if n <= 0 {
        0
    } else {
        alpha_sum(data, depth, n - 1) + 2 * (if depth == 4 {
            data[4 * (n - 1) + 3] as int
        } else {
            255
        })
    }
}

/// The channel averages of a texture, taken over a 64x64 cell: red, green,
/// blue and (doubled) alpha sums divided by 4096.
pub open spec fn channel_averages(data: Seq<u8>, depth: int) -> (u32, u32, u32, u32) {
    let n = data.len() as int / depth;
    (
        (channel_sum(data, depth, 0, n) / 4096) as u32,
        (channel_sum(data, depth, 1, n) / 4096) as u32,
        (channel_sum(data, depth, 2, n) / 4096) as u32,
        (alpha_sum(data, depth, n) / 4096) as u32,
    )
}

/// The packed average colour: red, blue << 8, green << 16, alpha << 24.
pub open spec fn packed_average(avg: (u32, u32, u32, u32)) -> u32 {
    avg.0 | (avg.2 << 8u32) | (avg.1 << 16u32) | (avg.3 << 24u32)
}

/// The colour the palette fades toward: the averages, truncated to 8 bits.
pub open spec fn fade_target(avg: (u32, u32, u32, u32)) -> Rgba {
    Rgba { r: avg.0 as u8, g: avg.1 as u8, b: avg.2 as u8, a: avg.3 as u8 }
}

/// One 5-bit channel at fade level `f` of 15: the mix of `f` parts of the
/// target and `15 - f` parts of the colour, scaled to 5 bits.
pub open spec fn fade_channel(f: u16, target: u8, c: u8) -> u16 {
    let m = ((f * (target as u16) + (15 - f) * (c as u16)) / 15) as u16;
    let v = m >> 3u16;
    if v > 31 {
        31
    } else {
        v
    }
}

fn fade_channel_value(f: u16, target: u8, c: u8) -> (v: u16)
    requires
        f < 16,
    ensures
        v == fade_channel(f, target, c),
{
    assert(f * target <= 15 * 255) by (nonlinear_arith)
        requires
            f <= 15,
            target <= 255,
    ;
    assert((15 - f) * c <= 15 * 255) by (nonlinear_arith)
        requires
            f <= 15,
            c <= 255,
    ;
    let v = (((f * target as u16) + ((15 - f) * c as u16)) / 15) >> 3;
    if v > 31 {
        31
    } else {
        v
    }
}

/// A palette colour at fade level `f`, in 15-bit form; transparent colours are 0.
pub open spec fn fade_color(c: Rgba, target: Rgba, f: u16) -> u16 {
    if c.a == 0 {
        0
    } else {
        (if c.a as u16 > 1 {
            1u16
        } else {
            c.a as u16
        }) << 15u16 | fade_channel(f, target.b, c.b) << 10u16 | fade_channel(f, target.g, c.g)
            << 5u16 | fade_channel(f, target.r, c.r) << 0u16
    }
}

/// The palette at fade levels `0..nf`, one full palette per level.
pub open spec fn fade_palette(p: Seq<Rgba>, target: Rgba, nf: int) -> Seq<u16>
    decreases nf,
{
    if nf <= 0 {
        seq![]
    } else {
        fade_palette(p, target, nf - 1) + Seq::new(
            p.len(),
            |j: int| fade_color(p[j], target, (nf - 1) as u16),
        )
    }
}

proof fn lemma_fade_palette_index(p: Seq<Rgba>, target: Rgba, nf: int, l: int, j: int)
    requires
        0 <= nf,
    ensures
        fade_palette(p, target, nf).len() == nf * p.len(),
        0 <= l < nf && 0 <= j < p.len() ==> fade_palette(p, target, nf)[l * p.len() + j]
            == fade_color(p[j], target, l as u16),
    decreases nf,
{
    if nf > 0 {
        lemma_fade_palette_index(p, target, nf - 1, l, j);
        let n = p.len() as int;
        let prev = fade_palette(p, target, nf - 1);
        let last = Seq::new(p.len(), |j2: int| fade_color(p[j2], target, (nf - 1) as u16));
        assert(fade_palette(p, target, nf) == prev + last);
        assert(prev.len() == (nf - 1) * n);
        assert((nf - 1) * n + n == nf * n) by (nonlinear_arith);
        if 0 <= l < nf && 0 <= j < n {
            if l < nf - 1 {
                assert(l * n + j < (nf - 1) * n) by (nonlinear_arith)
                    requires
                        0 <= l < nf - 1,
                        0 <= j < n,
                ;
                assert((prev + last)[l * n + j] == prev[l * n + j]);
                assert(prev[l * n + j] == fade_color(p[j], target, l as u16));
            } else {
                assert(l * n == (nf - 1) * n);
                assert(l * n + j - prev.len() == j);
                assert((prev + last)[l * n + j] == last[j]);
                assert(last[j] == fade_color(p[j], target, l as u16));
            }
        }
    } else {
        assert(nf * p.len() == 0) by (nonlinear_arith)
            requires
                nf == 0,
        ;
    }
}

/// At the last of 16 fade levels every opaque colour has become the target
/// colour: the high bit set, then the target's blue, green and red reduced
/// to 5 bits each.
pub proof fn lemma_fade_top_level(p: Seq<Rgba>, target: Rgba, j: int)
    requires
        0 <= j < p.len(),
        p[j].a > 0,
    ensures
        fade_palette(p, target, 16).len() == 16 * p.len(),
        fade_palette(p, target, 16)[15 * p.len() + j] == (0x8000u16 | ((target.b as u16) >> 3u16)
            << 10u16 | ((target.g as u16) >> 3u16) << 5u16 | ((target.r as u16) >> 3u16)),
{
    lemma_fade_palette_index(p, target, 16, 15, j);
    lemma_fade_channel_top(target.b, p[j].b);
    lemma_fade_channel_top(target.g, p[j].g);
    lemma_fade_channel_top(target.r, p[j].r);
    let x = (target.b as u16) >> 3u16;
    let y = (target.g as u16) >> 3u16;
    let z = (target.r as u16) >> 3u16;
    assert((1u16 << 15u16 | x << 10u16 | y << 5u16 | z << 0u16) == (0x8000u16 | x << 10u16 | y
        << 5u16 | z)) by (bit_vector);
    assert(p[j].a as u16 > 1 || p[j].a as u16 == 1);
}

/// At the first fade level every opaque colour is itself: the high bit set,
/// then its blue, green and red reduced to 5 bits each.
pub proof fn lemma_fade_bottom_level(p: Seq<Rgba>, target: Rgba, j: int)
    requires
        0 <= j < p.len(),
        p[j].a > 0,
    ensures
        fade_palette(p, target, 16).len() == 16 * p.len(),
        fade_palette(p, target, 16)[j] == (0x8000u16 | ((p[j].b as u16) >> 3u16) << 10u16 | ((
        p[j].g as u16) >> 3u16) << 5u16 | ((p[j].r as u16) >> 3u16)),
{
    lemma_fade_palette_index(p, target, 16, 0, j);
    assert(0 * p.len() + j == j);
    lemma_fade_channel_bottom(target.b, p[j].b);
    lemma_fade_channel_bottom(target.g, p[j].g);
    lemma_fade_channel_bottom(target.r, p[j].r);
    let x = (p[j].b as u16) >> 3u16;
    let y = (p[j].g as u16) >> 3u16;
    let z = (p[j].r as u16) >> 3u16;
    assert((1u16 << 15u16 | x << 10u16 | y << 5u16 | z << 0u16) == (0x8000u16 | x << 10u16 | y
        << 5u16 | z)) by (bit_vector);
    assert(p[j].a as u16 > 1 || p[j].a as u16 == 1);
}

/// At fade level 0 a channel is the colour's own, reduced to 5 bits.
proof fn lemma_fade_channel_bottom(target: u8, c: u8)
    ensures
        fade_channel(0, target, c) == (c as u16) >> 3u16,
{
    let t = c as u16;
    assert(((0 * (target as u16) + (15 - 0) * t) / 15) == t);
    assert(t <= 255 ==> t >> 3u16 <= 31) by (bit_vector);
}

/// At fade level 15 a channel is the target's, reduced to 5 bits.
proof fn lemma_fade_channel_top(target: u8, c: u8)
    ensures
        fade_channel(15, target, c) == (target as u16) >> 3u16,
{
    let t = target as u16;
    assert(((15 * t + (15 - 15) * (c as u16)) / 15) == t);
    assert(t <= 255 ==> t >> 3u16 <= 31) by (bit_vector);
}

proof fn lemma_fade_color_transparency(c: Rgba, target: Rgba, f: u16)
    ensures
        c.a > 0 ==> fade_color(c, target, f) >= 0x8000,
        c.a == 0 ==> fade_color(c, target, f) == 0,
{
    if c.a > 0 {
        let x = fade_channel(f, target.b, c.b);
        let y = fade_channel(f, target.g, c.g);
        let z = fade_channel(f, target.r, c.r);
        assert((1u16 << 15u16 | x << 10u16 | y << 5u16 | z << 0u16) >= 0x8000u16) by (bit_vector);
    }
}

/// In a palette faded over 16 levels, transparent colours are 0 at every
/// level and the others have the high bit set; so when the palette keeps a
/// transparent colour first if it has any (as `quantize` does), the first
/// entry of every level is 0 whenever any entry is.
pub proof fn lemma_fade_palette_transparent_first(p: Seq<Rgba>, target: Rgba)
    requires
        p.len() >= 1,
        (exists|i: int| 0 <= i < p.len() && #[trigger] p[i].a == 0) ==> p[0].a == 0,
    ensures
        fade_palette(p, target, 16).len() == 16 * p.len(),
        forall|l: int, j: int|
            0 <= l < 16 && 0 <= j < p.len() ==> (#[trigger] fade_palette(p, target, 16)[l * p.len()
                + j] == 0 <==> p[j].a == 0),
        (exists|k: int| 0 <= k < 16 * p.len() && #[trigger] fade_palette(p, target, 16)[k] == 0)
            ==> forall|l: int| 0 <= l < 16 ==> #[trigger] fade_palette(p, target, 16)[l * p.len()]
            == 0,
{
    let n = p.len() as int;
    let fp = fade_palette(p, target, 16);
    lemma_fade_palette_index(p, target, 16, 0, 0);
    assert forall|l: int, j: int| 0 <= l < 16 && 0 <= j < n implies (#[trigger] fp[l * n + j] == 0
        <==> p[j].a == 0) by {
        lemma_fade_palette_index(p, target, 16, l, j);
        lemma_fade_color_transparency(p[j], target, l as u16);
    }
    if exists|k: int| 0 <= k < 16 * n && #[trigger] fp[k] == 0 {
        let k = choose|k: int| 0 <= k < 16 * n && #[trigger] fp[k] == 0;
        let l0 = k / n;
        let j0 = k % n;
        assert(k == l0 * n + j0 && 0 <= l0 < 16 && 0 <= j0 < n) by (nonlinear_arith)
            requires
                n >= 1,
                0 <= k < 16 * n,
                l0 == k / n,
                j0 == k % n,
        ;
        assert(fp[l0 * n + j0] == 0);
        assert(p[j0].a == 0);
        assert forall|l: int| 0 <= l < 16 implies #[trigger] fp[l * n] == 0 by {
            assert(fp[l * n + 0] == 0 <==> p[0].a == 0);
            assert(l * n + 0 == l * n);
        }
    }
}

/// One byte per pixel for the first `n` of a cell's pixels; positions past
/// the data get four zero bytes.
pub open spec fn pack8(idx: Seq<u8>, n: int) -> Seq<u8>
    decreases n,
{
    if n <= 0 {
        seq![]
    } else {
        pack8(idx, n - 1) + if n - 1 < idx.len() {
            seq![idx[n - 1]]
        } else {
            zeros(4)
        }
    }
}

/// Two pixels per byte (the first in the low nibble) for the first `m` pairs
/// of a cell's pixels; pairs past the data get four zero bytes.
pub open spec fn pack4(idx: Seq<u8>, m: int) -> Seq<u8>
    decreases m,
{
    if m <= 0 {
        seq![]
    } else {
        pack4(idx, m - 1) + if 2 * (m - 1) + 1 < idx.len() {
            seq![(idx[2 * (m - 1) + 1] << 4u8) | idx[2 * (m - 1)]]
        } else {
            zeros(4)
        }
    }
}

/// The pixel data of a texture cell: one index per byte for texture pages,
/// two per byte otherwise, over `pixels` pixels.
pub open spec fn packed_indices(idx: Seq<u8>, pixels: int, page: bool) -> Seq<u8> {
    if page {
        pack8(idx, pixels)
    } else {
        pack4(idx, (pixels + 1) / 2)
    }
}

/// The texture cell for a quantized texture: its pixel indices packed (see
/// `packed_indices`), its palette at 16 fade levels toward `target`, the
/// packed average colour, and the 64x64 size of a cell.
#[verifier::spinoff_prover]
pub fn texture_cell_from_quantized(
    palette: &Vec<Rgba>,
    indexed_data: &Vec<u8>,
    avg_color: u32,
    target: Rgba,
    width: usize,
    height: usize,
    using_texture_page: bool,
) -> (cell: TextureCellPSX)
    requires
        width * height + 1 <= usize::MAX,
    ensures
        cell.texture_data@ == packed_indices(
            indexed_data@,
            width * height,
            using_texture_page,
        ),
        cell.palette@ == fade_palette(palette@, target, 16),
        cell.palette@.len() == 16 * palette@.len(),
        forall|j: int|
            0 <= j < palette@.len() && #[trigger] palette@[j].a > 0 ==> cell.palette@[j] == (0x8000u16
                | ((palette@[j].b as u16) >> 3u16) << 10u16 | ((palette@[j].g as u16) >> 3u16)
                << 5u16 | ((palette@[j].r as u16) >> 3u16)) && cell.palette@[15 * palette@.len()
                + j] == (0x8000u16 | ((target.b as u16) >> 3u16) << 10u16 | ((target.g as u16)
                >> 3u16) << 5u16 | ((target.r as u16) >> 3u16)),
        cell.texture_width == 64,
        cell.texture_height == 64,
        cell.avg_color == avg_color,
{
    let mut tex_palette: Vec<u16> = Vec::new();
    let mut fade_level: u16 = 0;
    while fade_level < 16
        invariant
            fade_level <= 16,
            tex_palette@ == fade_palette(palette@, target, fade_level as int),
        decreases 16 - fade_level,
    {
        let ghost before = tex_palette@;
        let mut j: usize = 0;
        while j < palette.len()
            invariant
                fade_level < 16,
                j <= palette.len(),
                tex_palette@ == before + Seq::new(
                    j as nat,
                    |k: int| fade_color(palette@[k], target, fade_level),
                ),
            decreases palette.len() - j,
        {
            let color = palette[j];
            let color_b = fade_channel_value(fade_level, target.b, color.b);
            let color_g = fade_channel_value(fade_level, target.g, color.g);
            let color_r = fade_channel_value(fade_level, target.r, color.r);
            let alpha_bit: u16 = if color.a as u16 > 1 {
                1
            } else {
                color.a as u16
            };
            let mut color16: u16 = alpha_bit << 15 | color_b << 10 | color_g << 5 | color_r << 0;
            if color.a == 0 {
                color16 = 0;
            }
            tex_palette.push(color16);
            assert(Seq::new((j + 1) as nat, |k: int| fade_color(palette@[k], target, fade_level))
                =~= Seq::new(j as nat, |k: int| fade_color(palette@[k], target, fade_level)).push(
                color16,
            ));
            j += 1;
        }
        assert(Seq::new(palette.len() as nat, |k: int| fade_color(palette@[k], target, fade_level))
            =~= Seq::new(
            palette@.len(),
            |k: int| fade_color(palette@[k], target, ((fade_level + 1) - 1) as u16),
        ));
        fade_level += 1;
    }
    proof {
        lemma_fade_palette_index(palette@, target, 16, 0, 0);
        assert forall|j: int|
            0 <= j < palette@.len() && #[trigger] palette@[j].a > 0 implies tex_palette@[j] == (0x8000u16
                | ((palette@[j].b as u16) >> 3u16) << 10u16 | ((palette@[j].g as u16) >> 3u16)
                << 5u16 | ((palette@[j].r as u16) >> 3u16)) && tex_palette@[15 * palette@.len()
                + j] == (0x8000u16 | ((target.b as u16) >> 3u16) << 10u16 | ((target.g as u16)
                >> 3u16) << 5u16 | ((target.r as u16) >> 3u16)) by {
            lemma_fade_bottom_level(palette@, target, j);
            lemma_fade_top_level(palette@, target, j);
        }
    }

    let mut texture_data: Vec<u8> = Vec::new();
    let n_pixels = width * height;
    if using_texture_page {
        let mut i: usize = 0;
        while i < n_pixels
            invariant
                i <= n_pixels,
                texture_data@ == pack8(indexed_data@, i as int),
            decreases n_pixels - i,
        {
            if i < indexed_data.len() {
                texture_data.push(indexed_data[i]);
            } else {
                texture_data.push(0);
                texture_data.push(0);
                texture_data.push(0);
                texture_data.push(0);
            }
            assert(texture_data@ =~= pack8(indexed_data@, i + 1));
            i += 1;
        }
    } else {
        // Convert indices to 4 bit
        let mut i: usize = 0;
        while i < n_pixels
            invariant
                n_pixels + 1 <= usize::MAX,
                i % 2 == 0,
                i <= n_pixels + 1,
                texture_data@ == pack4(indexed_data@, i as int / 2),
            decreases n_pixels + 1 - i,
        {
            if (i + 1) < indexed_data.len() {
                texture_data.push((indexed_data[i + 1] << 4) | (indexed_data[i + 0]));
            } else {
                texture_data.push(0);
                texture_data.push(0);
                texture_data.push(0);
                texture_data.push(0);
            }
            assert(texture_data@ =~= pack4(indexed_data@, (i + 2) as int / 2));
            i += 2;
        }
        assert(i as int / 2 == (n_pixels + 1) / 2);
    }
    TextureCellPSX {
        texture_data,
        palette: tex_palette,
        texture_width: 64,
        texture_height: 64,
        avg_color,
    }
}

/// The channel sums of a texture's pixels fit in 32 bits.
pub open spec fn sums_fit(data: Seq<u8>, depth: int) -> bool {
    let n = data.len() as int / depth;
    &&& channel_sum(data, depth, 0, n) <= u32::MAX
    &&& channel_sum(data, depth, 1, n) <= u32::MAX
    &&& channel_sum(data, depth, 2, n) <= u32::MAX
    &&& alpha_sum(data, depth, n) <= u32::MAX
}

proof fn lemma_sums_grow(data: Seq<u8>, depth: int, p: int, n: int)
    requires
        0 <= p <= n,
    ensures
        0 <= channel_sum(data, depth, 0, p) <= channel_sum(data, depth, 0, n),
        0 <= channel_sum(data, depth, 1, p) <= channel_sum(data, depth, 1, n),
        0 <= channel_sum(data, depth, 2, p) <= channel_sum(data, depth, 2, n),
        0 <= alpha_sum(data, depth, p) <= alpha_sum(data, depth, n),
    decreases n,
{
    if p < n {
        lemma_sums_grow(data, depth, p, n - 1);
    } else if n > 0 {
        lemma_sums_grow(data, depth, n - 1, n - 1);
    }
}

/// The channel averages of a texture (see `channel_averages`).
fn texture_averages(data: &Vec<u8>, depth: usize) -> (avg: (u32, u32, u32, u32))
    requires
        depth == 3 || depth == 4,
        data.len() % depth == 0,
        sums_fit(data@, depth as int),
    ensures
        avg == channel_averages(data@, depth as int),
{
    let n = data.len() / depth;
    let mut avg_r: u32 = 0;
    let mut avg_g: u32 = 0;
    let mut avg_b: u32 = 0;
    let mut avg_a: u32 = 0;
    let mut p: usize = 0;
    let mut o: usize = 0;
    while p < n
        invariant
            depth == 3 || depth == 4,
            data.len() % depth == 0,
            n == data.len() / depth,
            sums_fit(data@, depth as int),
            p <= n,
            o == (if depth == 4 {
                4 * p
            } else {
                3 * p
            }),
            avg_r == channel_sum(data@, depth as int, 0, p as int),
            avg_g == channel_sum(data@, depth as int, 1, p as int),
            avg_b == channel_sum(data@, depth as int, 2, p as int),
            avg_a == alpha_sum(data@, depth as int, p as int),
        decreases n - p,
    {
        proof {
            lemma_sums_grow(data@, depth as int, p + 1, n as int);
            lemma_sums_grow(data@, depth as int, p as int, p + 1);
            if depth == 4 {
                assert(o + 4 <= data.len());
            } else {
                assert(o + 3 <= data.len());
            }
        }
        avg_r += data[o] as u32;
        avg_g += data[o + 1] as u32;
        avg_b += data[o + 2] as u32;
        if depth == 4 {
            avg_a += data[o + 3] as u32;
            avg_a += data[o + 3] as u32;
            o = o + 4;
        } else {
            avg_a += 255;
            avg_a += 255;
            o = o + 3;
        }
        p += 1;
    }
    (avg_r / (64 * 64), avg_g / (64 * 64), avg_b / (64 * 64), avg_a / (64 * 64))
}

/// The texture cell for a texture image of `width` x `height` pixels with 3
/// (RGB) or 4 (RGBA) bytes per pixel: 16 colours (256 for texture pages)
/// with a transparent entry first if any pixel is transparent, faded toward
/// the average colour over 16 levels, and the pixels' palette indices packed.
#[verifier::spinoff_prover]
pub fn texture_cell_from_pixels(
    data: &Vec<u8>,
    depth: usize,
    width: usize,
    height: usize,
    using_texture_page: bool,
) -> (cell: TextureCellPSX)
    requires
        depth == 3 || depth == 4,
        data.len() % depth == 0,
        sums_fit(data@, depth as int),
        width > 0 || data.len() == 0,
        width * height + 1 <= usize::MAX,
    ensures
        cell.avg_color == packed_average(channel_averages(data@, depth as int)),
        cell.avg_color == ((channel_sum(data@, depth as int, 0, data@.len() as int / depth as int)
            / 4096) as u32 | ((channel_sum(data@, depth as int, 2, data@.len() as int / depth as int)
            / 4096) as u32) << 8u32 | ((channel_sum(
            data@,
            depth as int,
            1,
            data@.len() as int / depth as int,
        ) / 4096) as u32) << 16u32 | ((alpha_sum(data@, depth as int, data@.len() as int / depth as int)
            / 4096) as u32) << 24u32),
        cell.texture_width == 64,
        cell.texture_height == 64,
        exists|p: Seq<Rgba>, r: Seq<u8>|
            #![trigger transparent_first_palette(p), transparent_first_indices(p, r)]
            {
                let q = transparent_first_palette(p);
                let idx = transparent_first_indices(p, r);
                &&& p.len() == (if using_texture_page {
                    256int
                } else {
                    16int
                })
                &&& r.len() == data.len() / depth
                &&& forall|i: int| 0 <= i < r.len() ==> #[trigger] r[i] < p.len()
                &&& idx.len() == data.len() / depth
                &&& forall|i: int| 0 <= i < idx.len() ==> #[trigger] idx[i] < q.len()
                &&& cell.texture_data@ == packed_indices(idx, width * height, using_texture_page)
                &&& cell.palette@ == fade_palette(
                    q,
                    fade_target(channel_averages(data@, depth as int)),
                    16,
                )
                &&& forall|i: int| 0 <= i < q.len() && #[trigger] q[i].a == 0 ==> q[i] == clear()
                &&& (exists|i: int| 0 <= i < q.len() && #[trigger] q[i].a == 0) ==> q[0].a == 0
                &&& forall|j: int|
                    0 <= j < q.len() && #[trigger] q[j].a > 0 ==> cell.palette@[j] == (0x8000u16 | ((
                        q[j].b as u16) >> 3u16) << 10u16 | ((q[j].g as u16) >> 3u16) << 5u16 | ((
                        q[j].r as u16) >> 3u16))
                &&& forall|j: int|
                    0 <= j < q.len() && #[trigger] q[j].a > 0 ==> cell.palette@[15 * q.len() + j]
                        == (0x8000u16 | (((channel_sum(
                        data@,
                        depth as int,
                        2,
                        data@.len() as int / depth as int,
                    ) / 4096) as u8 as u16) >> 3u16) << 10u16 | (((channel_sum(
                        data@,
                        depth as int,
                        1,
                        data@.len() as int / depth as int,
                    ) / 4096) as u8 as u16) >> 3u16) << 5u16 | (((channel_sum(
                        data@,
                        depth as int,
                        0,
                        data@.len() as int / depth as int,
                    ) / 4096) as u8 as u16) >> 3u16))
            },
{
    // Calculate average color
    let avg = texture_averages(data, depth);
    let (avg_r, avg_g, avg_b, avg_a) = avg;
    let avg_color = avg_r | avg_b << 8 | avg_g << 16 | avg_a << 24;

    // Quantize it to 16 colours (256 for texture pages)
    let (colors, has_transparent_pixels) = pixels_to_colors(data, depth);
    let n_colors: usize = if using_texture_page {
        256
    } else {
        16
    };
    let (palette, indexed_data) = quantize(&colors, has_transparent_pixels, n_colors, width);

    let color_b = Rgba { r: avg_r as u8, g: avg_g as u8, b: avg_b as u8, a: avg_a as u8 };
    let cell = texture_cell_from_quantized(
        &palette,
        &indexed_data,
        avg_color,
        color_b,
        width,
        height,
        using_texture_page,
    );
    assert(color_b == fade_target(channel_averages(data@, depth as int)));
    proof {
        let (p, r) = choose|p: Seq<Rgba>, r: Seq<u8>|
            {
                &&& p.len() == n_colors
                &&& r.len() == colors.len()
                &&& forall|i: int| 0 <= i < r.len() ==> #[trigger] r[i] < n_colors
                &&& palette@ == transparent_first_palette(p)
                &&& indexed_data@ == transparent_first_indices(p, r)
            };
        assert(transparent_first_palette(p) == palette@);
        assert(transparent_first_indices(p, r) == indexed_data@);
        let n = data@.len() as int / depth as int;
        lemma_sums_grow(data@, depth as int, 0, n);
        assert(color_b.r == (channel_sum(data@, depth as int, 0, n) / 4096) as u8);
        assert(color_b.g == (channel_sum(data@, depth as int, 1, n) / 4096) as u8);
        assert(color_b.b == (channel_sum(data@, depth as int, 2, n) / 4096) as u8);
        assert forall|j: int| 0 <= j < palette@.len() && #[trigger] palette@[j].a > 0 implies cell.palette@[15
            * palette@.len() + j] == (0x8000u16 | ((color_b.b as u16) >> 3u16) << 10u16 | ((
        color_b.g as u16) >> 3u16) << 5u16 | ((color_b.r as u16) >> 3u16)) by {
            lemma_fade_top_level(palette@, color_b, j);
        }
    }
    cell
}

} // verus!

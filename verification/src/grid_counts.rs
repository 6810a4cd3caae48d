//! Counting the polygons of a grid split: splitting a mesh along the grid of
//! its bounding box neither loses nor duplicates a polygon.
use vstd::prelude::*;

use crate::psx_structs::{axis_pos, lemma_min_max_pos, max_pos, min_pos, VertexPSX};
use crate::visual::{
    abs, best_over_x, best_over_y, best_over_z, candidate_split, cell_box, cell_views, even_split,
    grid_coords, grid_views, in_cell, keep_better, layer_views, lemma_grid_views, quad_center,
    row_views, select_quads, select_tris, splittable, split_error, split_penalty, tri_center,
    views_bounded, CellBox,
};

verus! {

/// A mesh as the split sees it: vertices, triangle count, quad count, name.
pub type MeshView = (Seq<VertexPSX>, int, int, Seq<char>);

/// The number of triangles of all the meshes together.
pub open spec fn total_triangles(vs: Seq<MeshView>) -> int
    decreases vs.len(),
{
    if vs.len() == 0 {
        0
    } else {
        total_triangles(vs.drop_last()) + vs.last().1
    }
}

/// The number of quads of all the meshes together.
pub open spec fn total_quads(vs: Seq<MeshView>) -> int
    decreases vs.len(),
{
    if vs.len() == 0 {
        0
    } else {
        total_quads(vs.drop_last()) + vs.last().2
    }
}

proof fn lemma_totals_concat(a: Seq<MeshView>, b: Seq<MeshView>)
    ensures
        total_triangles(a + b) == total_triangles(a) + total_triangles(b),
        total_quads(a + b) == total_quads(a) + total_quads(b),
    decreases b.len(),
{
    if b.len() > 0 {
        assert((a + b).drop_last() =~= a + b.drop_last());
        lemma_totals_concat(a, b.drop_last());
    } else {
        assert(a + b =~= a);
    }
}

/// The sum of `f` over the first `nx` cells of row `(y, z)`.
pub open spec fn row_sum(
    f: spec_fn(CellBox) -> int,
    cx: Seq<i16>,
    cy: Seq<i16>,
    cz: Seq<i16>,
    y: int,
    z: int,
    nx: int,
) -> int
    decreases nx,
{
    if nx <= 0 {
        0
    } else {
        row_sum(f, cx, cy, cz, y, z, nx - 1) + f(cell_box(cx, cy, cz, nx - 1, y, z))
    }
}

/// The sum of `f` over the first `ny` rows of layer `z`.
pub open spec fn layer_sum(
    f: spec_fn(CellBox) -> int,
    cx: Seq<i16>,
    cy: Seq<i16>,
    cz: Seq<i16>,
    z: int,
    ny: int,
) -> int
    decreases ny,
{
    if ny <= 0 {
        0
    } else {
        layer_sum(f, cx, cy, cz, z, ny - 1) + row_sum(f, cx, cy, cz, ny - 1, z, cx.len() - 1)
    }
}

/// The sum of `f` over the first `nz` layers of the grid.
pub open spec fn grid_sum(
    f: spec_fn(CellBox) -> int,
    cx: Seq<i16>,
    cy: Seq<i16>,
    cz: Seq<i16>,
    nz: int,
) -> int
    decreases nz,
{
    if nz <= 0 {
        0
    } else {
        grid_sum(f, cx, cy, cz, nz - 1) + layer_sum(f, cx, cy, cz, nz - 1, cy.len() - 1)
    }
}

/// `f = g + k * h` cell by cell.
pub open spec fn pointwise_sum(
    f: spec_fn(CellBox) -> int,
    g: spec_fn(CellBox) -> int,
    h: spec_fn(CellBox) -> int,
    k: int,
) -> bool {
    forall|b: CellBox| #[trigger] f(b) == g(b) + k * h(b)
}

proof fn lemma_row_linear(
    f: spec_fn(CellBox) -> int,
    g: spec_fn(CellBox) -> int,
    h: spec_fn(CellBox) -> int,
    k: int,
    cx: Seq<i16>,
    cy: Seq<i16>,
    cz: Seq<i16>,
    y: int,
    z: int,
    nx: int,
)
    requires
        pointwise_sum(f, g, h, k),
    ensures
        row_sum(f, cx, cy, cz, y, z, nx) == row_sum(g, cx, cy, cz, y, z, nx) + k * row_sum(
            h,
            cx,
            cy,
            cz,
            y,
            z,
            nx,
        ),
    decreases nx,
{
    if nx > 0 {
        lemma_row_linear(f, g, h, k, cx, cy, cz, y, z, nx - 1);
        let b = cell_box(cx, cy, cz, nx - 1, y, z);
        assert(f(b) == g(b) + k * h(b));
        let r = row_sum(h, cx, cy, cz, y, z, nx - 1);
        assert(k * (r + h(b)) == k * r + k * h(b)) by (nonlinear_arith);
    }
}

proof fn lemma_layer_linear(
    f: spec_fn(CellBox) -> int,
    g: spec_fn(CellBox) -> int,
    h: spec_fn(CellBox) -> int,
    k: int,
    cx: Seq<i16>,
    cy: Seq<i16>,
    cz: Seq<i16>,
    z: int,
    ny: int,
)
    requires
        pointwise_sum(f, g, h, k),
    ensures
        layer_sum(f, cx, cy, cz, z, ny) == layer_sum(g, cx, cy, cz, z, ny) + k * layer_sum(
            h,
            cx,
            cy,
            cz,
            z,
            ny,
        ),
    decreases ny,
{
    if ny > 0 {
        lemma_layer_linear(f, g, h, k, cx, cy, cz, z, ny - 1);
        lemma_row_linear(f, g, h, k, cx, cy, cz, ny - 1, z, cx.len() - 1);
        let a = layer_sum(h, cx, cy, cz, z, ny - 1);
        let r = row_sum(h, cx, cy, cz, ny - 1, z, cx.len() - 1);
        assert(k * (a + r) == k * a + k * r) by (nonlinear_arith);
    }
}

proof fn lemma_grid_linear(
    f: spec_fn(CellBox) -> int,
    g: spec_fn(CellBox) -> int,
    h: spec_fn(CellBox) -> int,
    k: int,
    cx: Seq<i16>,
    cy: Seq<i16>,
    cz: Seq<i16>,
    nz: int,
)
    requires
        pointwise_sum(f, g, h, k),
    ensures
        grid_sum(f, cx, cy, cz, nz) == grid_sum(g, cx, cy, cz, nz) + k * grid_sum(
            h,
            cx,
            cy,
            cz,
            nz,
        ),
    decreases nz,
{
    if nz > 0 {
        lemma_grid_linear(f, g, h, k, cx, cy, cz, nz - 1);
        lemma_layer_linear(f, g, h, k, cx, cy, cz, nz - 1, cy.len() - 1);
        let a = grid_sum(h, cx, cy, cz, nz - 1);
        let r = layer_sum(h, cx, cy, cz, nz - 1, cy.len() - 1);
        assert(k * (a + r) == k * a + k * r) by (nonlinear_arith);
    }
}

/// The number of vertices of the first `n` triangles whose centre lies in a cell.
pub open spec fn tri_counts(ts: Seq<VertexPSX>, n: int) -> spec_fn(CellBox) -> int {
    |b: CellBox| select_tris(ts, n, b).len() as int
}

/// The number of vertices of the first `n` quads whose centre lies in a cell.
pub open spec fn quad_counts(qs: Seq<VertexPSX>, n: int) -> spec_fn(CellBox) -> int {
    |b: CellBox| select_quads(qs, n, b).len() as int
}

/// 1 for the cells holding the point `c`, 0 for the others.
pub open spec fn hits(c: (int, int, int)) -> spec_fn(CellBox) -> int {
    |b: CellBox|
        if in_cell(b, c.0, c.1, c.2) {
            1int
        } else {
            0int
        }
}

proof fn lemma_select_tris_mult(vs: Seq<VertexPSX>, n: int, b: CellBox)
    requires
        0 <= n,
        3 * n <= vs.len(),
    ensures
        select_tris(vs, n, b).len() % 3 == 0,
    decreases n,
{
    if n > 0 {
        lemma_select_tris_mult(vs, n - 1, b);
    }
}

proof fn lemma_select_quads_mult(vs: Seq<VertexPSX>, n: int, b: CellBox)
    requires
        0 <= n,
        4 * n <= vs.len(),
    ensures
        select_quads(vs, n, b).len() % 4 == 0,
    decreases n,
{
    if n > 0 {
        lemma_select_quads_mult(vs, n - 1, b);
    }
}

proof fn lemma_cell_totals(name: Seq<char>, ts: Seq<VertexPSX>, qs: Seq<VertexPSX>, b: CellBox)
    requires
        ts.len() % 3 == 0,
        qs.len() % 4 == 0,
    ensures
        3 * total_triangles(cell_views(name, ts, qs, b)) == tri_counts(ts, ts.len() as int / 3)(b),
        4 * total_quads(cell_views(name, ts, qs, b)) == quad_counts(qs, qs.len() as int / 4)(b),
{
    let sel_t = select_tris(ts, ts.len() as int / 3, b);
    let sel_q = select_quads(qs, qs.len() as int / 4, b);
    lemma_select_tris_mult(ts, ts.len() as int / 3, b);
    lemma_select_quads_mult(qs, qs.len() as int / 4, b);
    let v = cell_views(name, ts, qs, b);
    if v.len() > 0 {
        let e = v.drop_last();
        assert(e.len() == 0);
        assert(total_triangles(e) == 0 && total_quads(e) == 0);
        assert(v.last().1 == sel_t.len() as int / 3);
        assert(total_triangles(v) == sel_t.len() as int / 3);
        assert(total_quads(v) == sel_q.len() as int / 4);
    } else {
        assert(sel_t.len() == 0 && sel_q.len() == 0);
    }
}

proof fn lemma_row_totals(
    name: Seq<char>,
    ts: Seq<VertexPSX>,
    qs: Seq<VertexPSX>,
    cx: Seq<i16>,
    cy: Seq<i16>,
    cz: Seq<i16>,
    y: int,
    z: int,
    nx: int,
)
    requires
        ts.len() % 3 == 0,
        qs.len() % 4 == 0,
    ensures
        3 * total_triangles(row_views(name, ts, qs, cx, cy, cz, y, z, nx)) == row_sum(
            tri_counts(ts, ts.len() as int / 3),
            cx,
            cy,
            cz,
            y,
            z,
            nx,
        ),
        4 * total_quads(row_views(name, ts, qs, cx, cy, cz, y, z, nx)) == row_sum(
            quad_counts(qs, qs.len() as int / 4),
            cx,
            cy,
            cz,
            y,
            z,
            nx,
        ),
    decreases nx,
{
    if nx > 0 {
        lemma_row_totals(name, ts, qs, cx, cy, cz, y, z, nx - 1);
        let b = cell_box(cx, cy, cz, nx - 1, y, z);
        lemma_cell_totals(name, ts, qs, b);
        lemma_totals_concat(
            row_views(name, ts, qs, cx, cy, cz, y, z, nx - 1),
            cell_views(name, ts, qs, b),
        );
    }
}

proof fn lemma_layer_totals(
    name: Seq<char>,
    ts: Seq<VertexPSX>,
    qs: Seq<VertexPSX>,
    cx: Seq<i16>,
    cy: Seq<i16>,
    cz: Seq<i16>,
    z: int,
    ny: int,
)
    requires
        ts.len() % 3 == 0,
        qs.len() % 4 == 0,
    ensures
        3 * total_triangles(layer_views(name, ts, qs, cx, cy, cz, z, ny)) == layer_sum(
            tri_counts(ts, ts.len() as int / 3),
            cx,
            cy,
            cz,
            z,
            ny,
        ),
        4 * total_quads(layer_views(name, ts, qs, cx, cy, cz, z, ny)) == layer_sum(
            quad_counts(qs, qs.len() as int / 4),
            cx,
            cy,
            cz,
            z,
            ny,
        ),
    decreases ny,
{
    if ny > 0 {
        lemma_layer_totals(name, ts, qs, cx, cy, cz, z, ny - 1);
        lemma_row_totals(name, ts, qs, cx, cy, cz, ny - 1, z, cx.len() - 1);
        lemma_totals_concat(
            layer_views(name, ts, qs, cx, cy, cz, z, ny - 1),
            row_views(name, ts, qs, cx, cy, cz, ny - 1, z, cx.len() - 1),
        );
    }
}

proof fn lemma_grid_totals(
    name: Seq<char>,
    ts: Seq<VertexPSX>,
    qs: Seq<VertexPSX>,
    cx: Seq<i16>,
    cy: Seq<i16>,
    cz: Seq<i16>,
    nz: int,
)
    requires
        ts.len() % 3 == 0,
        qs.len() % 4 == 0,
    ensures
        3 * total_triangles(grid_views(name, ts, qs, cx, cy, cz, nz)) == grid_sum(
            tri_counts(ts, ts.len() as int / 3),
            cx,
            cy,
            cz,
            nz,
        ),
        4 * total_quads(grid_views(name, ts, qs, cx, cy, cz, nz)) == grid_sum(
            quad_counts(qs, qs.len() as int / 4),
            cx,
            cy,
            cz,
            nz,
        ),
    decreases nz,
{
    if nz > 0 {
        lemma_grid_totals(name, ts, qs, cx, cy, cz, nz - 1);
        lemma_layer_totals(name, ts, qs, cx, cy, cz, nz - 1, cy.len() - 1);
        lemma_totals_concat(
            grid_views(name, ts, qs, cx, cy, cz, nz - 1),
            layer_views(name, ts, qs, cx, cy, cz, nz - 1, cy.len() - 1),
        );
    }
}

proof fn lemma_tri_counts_step(ts: Seq<VertexPSX>, n: int)
    requires
        1 <= n,
        3 * n <= ts.len(),
    ensures
        pointwise_sum(tri_counts(ts, n), tri_counts(ts, n - 1), hits(tri_center(ts, n - 1)), 3),
{
    let c = tri_center(ts, n - 1);
    assert forall|b: CellBox| #[trigger]
        tri_counts(ts, n)(b) == tri_counts(ts, n - 1)(b) + 3 * hits(c)(b) by {
        assert(ts.subrange(3 * (n - 1), 3 * n).len() == 3);
    }
}

proof fn lemma_quad_counts_step(qs: Seq<VertexPSX>, n: int)
    requires
        1 <= n,
        4 * n <= qs.len(),
    ensures
        pointwise_sum(quad_counts(qs, n), quad_counts(qs, n - 1), hits(quad_center(qs, n - 1)), 4),
{
    let c = quad_center(qs, n - 1);
    assert forall|b: CellBox| #[trigger]
        quad_counts(qs, n)(b) == quad_counts(qs, n - 1)(b) + 4 * hits(c)(b) by {
        assert(qs.subrange(4 * (n - 1), 4 * n).len() == 4);
    }
}

proof fn lemma_zero_sums(f: spec_fn(CellBox) -> int, cx: Seq<i16>, cy: Seq<i16>, cz: Seq<i16>)
    requires
        forall|b: CellBox| #[trigger] f(b) == 0,
    ensures
        forall|y: int, z: int, nx: int| #[trigger] row_sum(f, cx, cy, cz, y, z, nx) == 0,
        forall|z: int, ny: int| #[trigger] layer_sum(f, cx, cy, cz, z, ny) == 0,
        forall|nz: int| #[trigger] grid_sum(f, cx, cy, cz, nz) == 0,
{
    assert forall|y: int, z: int, nx: int| #[trigger] row_sum(f, cx, cy, cz, y, z, nx) == 0 by {
        lemma_row_zero(f, cx, cy, cz, y, z, nx);
    }
    assert forall|z: int, ny: int| #[trigger] layer_sum(f, cx, cy, cz, z, ny) == 0 by {
        lemma_layer_zero(f, cx, cy, cz, z, ny);
    }
    assert forall|nz: int| #[trigger] grid_sum(f, cx, cy, cz, nz) == 0 by {
        lemma_grid_zero(f, cx, cy, cz, nz);
    }
}

proof fn lemma_row_zero(
    f: spec_fn(CellBox) -> int,
    cx: Seq<i16>,
    cy: Seq<i16>,
    cz: Seq<i16>,
    y: int,
    z: int,
    nx: int,
)
    requires
        forall|b: CellBox| #[trigger] f(b) == 0,
    ensures
        row_sum(f, cx, cy, cz, y, z, nx) == 0,
    decreases nx,
{
    if nx > 0 {
        lemma_row_zero(f, cx, cy, cz, y, z, nx - 1);
        assert(f(cell_box(cx, cy, cz, nx - 1, y, z)) == 0);
    }
}

proof fn lemma_layer_zero(
    f: spec_fn(CellBox) -> int,
    cx: Seq<i16>,
    cy: Seq<i16>,
    cz: Seq<i16>,
    z: int,
    ny: int,
)
    requires
        forall|b: CellBox| #[trigger] f(b) == 0,
    ensures
        layer_sum(f, cx, cy, cz, z, ny) == 0,
    decreases ny,
{
    if ny > 0 {
        lemma_layer_zero(f, cx, cy, cz, z, ny - 1);
        lemma_row_zero(f, cx, cy, cz, ny - 1, z, cx.len() - 1);
    }
}

proof fn lemma_grid_zero(f: spec_fn(CellBox) -> int, cx: Seq<i16>, cy: Seq<i16>, cz: Seq<i16>, nz: int)
    requires
        forall|b: CellBox| #[trigger] f(b) == 0,
    ensures
        grid_sum(f, cx, cy, cz, nz) == 0,
    decreases nz,
{
    if nz > 0 {
        lemma_grid_zero(f, cx, cy, cz, nz - 1);
        lemma_layer_zero(f, cx, cy, cz, nz - 1, cy.len() - 1);
    }
}

/// How many of the first `k` intervals `(c[i], c[i + 1]]` hold `v`.
pub open spec fn interval_count(c: Seq<i16>, v: int, k: int) -> int
    decreases k,
{
    if k <= 0 {
        0
    } else {
        interval_count(c, v, k - 1) + if c[k - 1] < v <= c[k] {
            1int
        } else {
            0int
        }
    }
}

proof fn lemma_interval_count_one(c: Seq<i16>, v: int, i: int, k: int)
    requires
        0 <= i < c.len() - 1,
        c[i] < v <= c[i + 1],
        forall|j: int| 0 <= j < c.len() - 1 && c[j] < v <= #[trigger] c[j + 1] ==> j == i,
        0 <= k <= c.len() - 1,
    ensures
        interval_count(c, v, k) == if i < k {
            1int
        } else {
            0int
        },
    decreases k,
{
    if k > 0 {
        lemma_interval_count_one(c, v, i, k - 1);
        let j = k - 1;
        if c[j] < v <= c[j + 1] {
            assert(j == i);
        }
    }
}

/// Grid lines that run, in order, from the lowest to the highest 16-bit
/// value.
pub open spec fn spanning_lines(c: Seq<i16>) -> bool {
    &&& c.len() >= 2
    &&& c[0] == i16::MIN
    &&& c[c.len() - 1] == i16::MAX
    &&& forall|i: int, j: int| #![trigger c[i], c[j]] 0 <= i <= j < c.len() ==> c[i] <= c[j]
}

/// The lines of a bounding box split into 1 to 5 equal parts span the 16-bit
/// range.
proof fn lemma_grid_coords_span(min: i16, size: i16, splits: i16)
    requires
        1 <= splits <= 5,
        0 <= size,
        min > i16::MIN,
        min + size <= i16::MAX,
    ensures
        spanning_lines(grid_coords(min, size, splits)),
        grid_coords(min, size, splits).len() == splits + 3,
{
    crate::visual::lemma_grid_coords_sorted(min, size, splits);
}

/// Along each axis of a grid with spanning lines, a coordinate above
/// `i16::MIN` lies in exactly one interval.
proof fn lemma_axis_count(c: Seq<i16>, v: int)
    requires
        spanning_lines(c),
        i16::MIN < v <= i16::MAX,
    ensures
        interval_count(c, v, c.len() - 1) == 1,
{
    crate::visual::lemma_one_interval(c, v);
    let i = choose|i: int| 0 <= i < c.len() - 1 && c[i] < v <= #[trigger] c[i + 1];
    assert forall|j: int| 0 <= j < c.len() - 1 && c[j] < v <= #[trigger] c[j + 1] implies j == i by {
        assert(c[i] < v <= c[i + 1]);
        assert(c[j] < v <= c[j + 1]);
    }
    lemma_interval_count_one(c, v, i, c.len() - 1);
}

proof fn lemma_row_hits(
    p: (int, int, int),
    cx: Seq<i16>,
    cy: Seq<i16>,
    cz: Seq<i16>,
    y: int,
    z: int,
    nx: int,
)
    ensures
        row_sum(hits(p), cx, cy, cz, y, z, nx) == if cy[y] < p.1 <= cy[y + 1] && cz[z] < p.2
            <= cz[z + 1] {
            interval_count(cx, p.0, nx)
        } else {
            0
        },
    decreases nx,
{
    if nx > 0 {
        lemma_row_hits(p, cx, cy, cz, y, z, nx - 1);
        let b = cell_box(cx, cy, cz, nx - 1, y, z);
        assert(hits(p)(b) == if in_cell(b, p.0, p.1, p.2) {
            1int
        } else {
            0int
        });
    }
}

proof fn lemma_layer_hits(p: (int, int, int), cx: Seq<i16>, cy: Seq<i16>, cz: Seq<i16>, z: int, ny: int)
    requires
        interval_count(cx, p.0, cx.len() - 1) == 1,
    ensures
        layer_sum(hits(p), cx, cy, cz, z, ny) == if cz[z] < p.2 <= cz[z + 1] {
            interval_count(cy, p.1, ny)
        } else {
            0
        },
    decreases ny,
{
    if ny > 0 {
        lemma_layer_hits(p, cx, cy, cz, z, ny - 1);
        lemma_row_hits(p, cx, cy, cz, ny - 1, z, cx.len() - 1);
    }
}

proof fn lemma_grid_hits(p: (int, int, int), cx: Seq<i16>, cy: Seq<i16>, cz: Seq<i16>, nz: int)
    requires
        interval_count(cx, p.0, cx.len() - 1) == 1,
        interval_count(cy, p.1, cy.len() - 1) == 1,
    ensures
        grid_sum(hits(p), cx, cy, cz, nz) == interval_count(cz, p.2, nz),
    decreases nz,
{
    if nz > 0 {
        lemma_grid_hits(p, cx, cy, cz, nz - 1);
        lemma_layer_hits(p, cx, cy, cz, nz - 1, cy.len() - 1);
    }
}

/// The point lies above `i16::MIN` on every axis.
pub open spec fn above_min(c: (int, int, int)) -> bool {
    c.0 > i16::MIN && c.1 > i16::MIN && c.2 > i16::MIN
}

/// The point lies in exactly one interval along each axis of the grid.
pub open spec fn in_one_cell(c: (int, int, int), cx: Seq<i16>, cy: Seq<i16>, cz: Seq<i16>) -> bool {
    &&& interval_count(cx, c.0, cx.len() - 1) == 1
    &&& interval_count(cy, c.1, cy.len() - 1) == 1
    &&& interval_count(cz, c.2, cz.len() - 1) == 1
}

proof fn lemma_tri_sum(ts: Seq<VertexPSX>, n: int, cx: Seq<i16>, cy: Seq<i16>, cz: Seq<i16>)
    requires
        0 <= n,
        3 * n <= ts.len(),
        forall|t: int| 0 <= t < n ==> in_one_cell(#[trigger] tri_center(ts, t), cx, cy, cz),
    ensures
        grid_sum(tri_counts(ts, n), cx, cy, cz, cz.len() - 1) == 3 * n,
    decreases n,
{
    if n == 0 {
        assert forall|b: CellBox| #[trigger] tri_counts(ts, 0)(b) == 0 by {}
        lemma_zero_sums(tri_counts(ts, 0), cx, cy, cz);
    } else {
        lemma_tri_sum(ts, n - 1, cx, cy, cz);
        let p = tri_center(ts, n - 1);
        assert(in_one_cell(p, cx, cy, cz));
        lemma_tri_counts_step(ts, n);
        lemma_grid_linear(tri_counts(ts, n), tri_counts(ts, n - 1), hits(p), 3, cx, cy, cz, cz.len() - 1);
        lemma_grid_hits(p, cx, cy, cz, cz.len() - 1);
    }
}

proof fn lemma_quad_sum(qs: Seq<VertexPSX>, n: int, cx: Seq<i16>, cy: Seq<i16>, cz: Seq<i16>)
    requires
        0 <= n,
        4 * n <= qs.len(),
        forall|q: int| 0 <= q < n ==> in_one_cell(#[trigger] quad_center(qs, q), cx, cy, cz),
    ensures
        grid_sum(quad_counts(qs, n), cx, cy, cz, cz.len() - 1) == 4 * n,
    decreases n,
{
    if n == 0 {
        assert forall|b: CellBox| #[trigger] quad_counts(qs, 0)(b) == 0 by {}
        lemma_zero_sums(quad_counts(qs, 0), cx, cy, cz);
    } else {
        lemma_quad_sum(qs, n - 1, cx, cy, cz);
        let p = quad_center(qs, n - 1);
        assert(in_one_cell(p, cx, cy, cz));
        lemma_quad_counts_step(qs, n);
        lemma_grid_linear(quad_counts(qs, n), quad_counts(qs, n - 1), hits(p), 4, cx, cy, cz, cz.len() - 1);
        lemma_grid_hits(p, cx, cy, cz, cz.len() - 1);
    }
}

/// Splitting a mesh along a grid (see `split_equal_based_on_aabb`) whose
/// lines run, in order, from the lowest to the highest 16-bit value neither
/// loses nor duplicates a polygon, as long as every polygon's centre lies
/// above `i16::MIN` on each axis: each centre lies in exactly one cell, so
/// each polygon goes to exactly one cell's mesh, and the meshes of the cells
/// together hold as many triangles and as many quads as the mesh.
pub proof fn lemma_grid_split_keeps_polygons(
    name: Seq<char>,
    ts: Seq<VertexPSX>,
    qs: Seq<VertexPSX>,
    cx: Seq<i16>,
    cy: Seq<i16>,
    cz: Seq<i16>,
)
    requires
        spanning_lines(cx),
        spanning_lines(cy),
        spanning_lines(cz),
        ts.len() % 3 == 0,
        qs.len() % 4 == 0,
        forall|t: int| 0 <= t < ts.len() / 3 ==> above_min(#[trigger] tri_center(ts, t)),
        forall|q: int| 0 <= q < qs.len() / 4 ==> above_min(#[trigger] quad_center(qs, q)),
    ensures
        total_triangles(grid_views(name, ts, qs, cx, cy, cz, cz.len() - 1)) == ts.len() / 3,
        total_quads(grid_views(name, ts, qs, cx, cy, cz, cz.len() - 1)) == qs.len() / 4,
        forall|t: int|
            0 <= t < ts.len() / 3 ==> grid_sum(
                hits(#[trigger] tri_center(ts, t)),
                cx,
                cy,
                cz,
                cz.len() - 1,
            ) == 1,
        forall|q: int|
            0 <= q < qs.len() / 4 ==> grid_sum(
                hits(#[trigger] quad_center(qs, q)),
                cx,
                cy,
                cz,
                cz.len() - 1,
            ) == 1,
{
    assert forall|t: int| 0 <= t < ts.len() / 3 implies in_one_cell(
        #[trigger] tri_center(ts, t),
        cx,
        cy,
        cz,
    ) by {
        let p = tri_center(ts, t);
        lemma_center_bounds(ts, qs, t, 0);
        lemma_axis_count(cx, p.0);
        lemma_axis_count(cy, p.1);
        lemma_axis_count(cz, p.2);
    }
    assert forall|q: int| 0 <= q < qs.len() / 4 implies in_one_cell(
        #[trigger] quad_center(qs, q),
        cx,
        cy,
        cz,
    ) by {
        let p = quad_center(qs, q);
        lemma_center_bounds(ts, qs, 0, q);
        lemma_axis_count(cx, p.0);
        lemma_axis_count(cy, p.1);
        lemma_axis_count(cz, p.2);
    }
    assert forall|t: int| 0 <= t < ts.len() / 3 implies grid_sum(
        hits(#[trigger] tri_center(ts, t)),
        cx,
        cy,
        cz,
        cz.len() - 1,
    ) == 1 by {
        assert(in_one_cell(tri_center(ts, t), cx, cy, cz));
        lemma_grid_hits(tri_center(ts, t), cx, cy, cz, cz.len() - 1);
    }
    assert forall|q: int| 0 <= q < qs.len() / 4 implies grid_sum(
        hits(#[trigger] quad_center(qs, q)),
        cx,
        cy,
        cz,
        cz.len() - 1,
    ) == 1 by {
        assert(in_one_cell(quad_center(qs, q), cx, cy, cz));
        lemma_grid_hits(quad_center(qs, q), cx, cy, cz, cz.len() - 1);
    }
    lemma_tri_sum(ts, ts.len() as int / 3, cx, cy, cz);
    lemma_quad_sum(qs, qs.len() as int / 4, cx, cy, cz);
    lemma_grid_totals(name, ts, qs, cx, cy, cz, cz.len() - 1);
}

/// Polygon centres are no larger than the largest 16-bit value.
proof fn lemma_center_bounds(ts: Seq<VertexPSX>, qs: Seq<VertexPSX>, t: int, q: int)
    ensures
        0 <= t && 3 * t + 3 <= ts.len() ==> {
            let p = tri_center(ts, t);
            p.0 <= i16::MAX && p.1 <= i16::MAX && p.2 <= i16::MAX
        },
        0 <= q && 4 * q + 4 <= qs.len() ==> {
            let p = quad_center(qs, q);
            p.0 <= i16::MAX && p.1 <= i16::MAX && p.2 <= i16::MAX
        },
{
}

/// The meshes together hold as many triangles and quads as `ts` and `qs`.
pub open spec fn keeps_polygons(vs: Seq<MeshView>, ts: Seq<VertexPSX>, qs: Seq<VertexPSX>) -> bool {
    total_triangles(vs) == ts.len() / 3 && total_quads(vs) == qs.len() / 4
}

proof fn lemma_vertex_above(all: Seq<VertexPSX>, j: int)
    requires
        0 <= j < all.len(),
    ensures
        min_pos(all, 0) <= all[j].pos_x,
        min_pos(all, 1) <= all[j].pos_y,
        min_pos(all, 2) <= all[j].pos_z,
{
    lemma_min_max_pos(all, 0, j);
    lemma_min_max_pos(all, 1, j);
    lemma_min_max_pos(all, 2, j);
}

proof fn lemma_candidate_keeps(
    name: Seq<char>,
    ts: Seq<VertexPSX>,
    qs: Seq<VertexPSX>,
    sx: int,
    sy: int,
    sz: int,
)
    requires
        1 <= sx <= 5,
        1 <= sy <= 5,
        1 <= sz <= 5,
        ts.len() % 3 == 0,
        qs.len() % 4 == 0,
        ts.len() + qs.len() > 0,
        splittable(ts, qs),
    ensures
        keeps_polygons(candidate_split(name, ts, qs, sx, sy, sz), ts, qs),
{
    let all = ts + qs;
    assert forall|a: int| 0 <= a < 3 implies min_pos(all, a) <= max_pos(all, a) by {
        crate::visual::lemma_extent_nonneg(all, a);
    }
    assert(min_pos(all, 0) > i16::MIN && max_pos(all, 0) - min_pos(all, 0) <= i16::MAX);
    assert(min_pos(all, 1) > i16::MIN && max_pos(all, 1) - min_pos(all, 1) <= i16::MAX);
    assert(min_pos(all, 2) > i16::MIN && max_pos(all, 2) - min_pos(all, 2) <= i16::MAX);
    assert forall|t: int| 0 <= t < ts.len() / 3 implies above_min(#[trigger] tri_center(ts, t)) by {
        lemma_vertex_above(all, 3 * t);
        lemma_vertex_above(all, 3 * t + 1);
        lemma_vertex_above(all, 3 * t + 2);
        assert(min_pos(all, 0) <= ts[3 * t].pos_x && min_pos(all, 0) <= ts[3 * t + 1].pos_x
            && min_pos(all, 0) <= ts[3 * t + 2].pos_x);
        assert(min_pos(all, 1) <= ts[3 * t].pos_y && min_pos(all, 1) <= ts[3 * t + 1].pos_y
            && min_pos(all, 1) <= ts[3 * t + 2].pos_y);
        assert(min_pos(all, 2) <= ts[3 * t].pos_z && min_pos(all, 2) <= ts[3 * t + 1].pos_z
            && min_pos(all, 2) <= ts[3 * t + 2].pos_z);
    }
    assert forall|q: int| 0 <= q < qs.len() / 4 implies above_min(#[trigger] quad_center(qs, q)) by {
        lemma_vertex_above(all, ts.len() + 4 * q);
        lemma_vertex_above(all, ts.len() + 4 * q + 1);
        lemma_vertex_above(all, ts.len() + 4 * q + 2);
        lemma_vertex_above(all, ts.len() + 4 * q + 3);
        assert(min_pos(all, 0) <= qs[4 * q].pos_x && min_pos(all, 0) <= qs[4 * q + 1].pos_x
            && min_pos(all, 0) <= qs[4 * q + 2].pos_x && min_pos(all, 0) <= qs[4 * q + 3].pos_x);
        assert(min_pos(all, 1) <= qs[4 * q].pos_y && min_pos(all, 1) <= qs[4 * q + 1].pos_y
            && min_pos(all, 1) <= qs[4 * q + 2].pos_y && min_pos(all, 1) <= qs[4 * q + 3].pos_y);
        assert(min_pos(all, 2) <= qs[4 * q].pos_z && min_pos(all, 2) <= qs[4 * q + 1].pos_z
            && min_pos(all, 2) <= qs[4 * q + 2].pos_z && min_pos(all, 2) <= qs[4 * q + 3].pos_z);
    }
    let cx = grid_coords(min_pos(all, 0), (max_pos(all, 0) - min_pos(all, 0)) as i16, sx as i16);
    let cy = grid_coords(min_pos(all, 1), (max_pos(all, 1) - min_pos(all, 1)) as i16, sy as i16);
    let cz = grid_coords(min_pos(all, 2), (max_pos(all, 2) - min_pos(all, 2)) as i16, sz as i16);
    lemma_grid_coords_span(min_pos(all, 0), (max_pos(all, 0) - min_pos(all, 0)) as i16, sx as i16);
    lemma_grid_coords_span(min_pos(all, 1), (max_pos(all, 1) - min_pos(all, 1)) as i16, sy as i16);
    lemma_grid_coords_span(min_pos(all, 2), (max_pos(all, 2) - min_pos(all, 2)) as i16, sz as i16);
    lemma_grid_split_keeps_polygons(name, ts, qs, cx, cy, cz);
}

/// What every step of the search keeps: a non-empty best split keeps the
/// polygons.
pub open spec fn best_ok(best: (Seq<MeshView>, int), ts: Seq<VertexPSX>, qs: Seq<VertexPSX>) -> bool {
    best.0.len() > 0 ==> keeps_polygons(best.0, ts, qs)
}

proof fn lemma_best_z(
    name: Seq<char>,
    ts: Seq<VertexPSX>,
    qs: Seq<VertexPSX>,
    best: (Seq<MeshView>, int),
    sx: int,
    sy: int,
    nz: int,
)
    requires
        1 <= sx <= 5,
        1 <= sy <= 5,
        nz <= 5,
        ts.len() % 3 == 0,
        qs.len() % 4 == 0,
        ts.len() + qs.len() > 0,
        splittable(ts, qs),
        best_ok(best, ts, qs),
    ensures
        best_ok(best_over_z(name, ts, qs, best, sx, sy, nz), ts, qs),
        best.0.len() > 0 ==> best_over_z(name, ts, qs, best, sx, sy, nz).0.len() > 0,
    decreases nz,
{
    if nz > 0 {
        lemma_best_z(name, ts, qs, best, sx, sy, nz - 1);
        lemma_candidate_keeps(name, ts, qs, sx, sy, nz);
    }
}

proof fn lemma_best_y(
    name: Seq<char>,
    ts: Seq<VertexPSX>,
    qs: Seq<VertexPSX>,
    best: (Seq<MeshView>, int),
    sx: int,
    ny: int,
)
    requires
        1 <= sx <= 5,
        ny <= 5,
        ts.len() % 3 == 0,
        qs.len() % 4 == 0,
        ts.len() + qs.len() > 0,
        splittable(ts, qs),
        best_ok(best, ts, qs),
    ensures
        best_ok(best_over_y(name, ts, qs, best, sx, ny), ts, qs),
        best.0.len() > 0 ==> best_over_y(name, ts, qs, best, sx, ny).0.len() > 0,
    decreases ny,
{
    if ny > 0 {
        lemma_best_y(name, ts, qs, best, sx, ny - 1);
        lemma_best_z(name, ts, qs, best_over_y(name, ts, qs, best, sx, ny - 1), sx, ny, 5);
    }
}

proof fn lemma_best_x(
    name: Seq<char>,
    ts: Seq<VertexPSX>,
    qs: Seq<VertexPSX>,
    best: (Seq<MeshView>, int),
    nx: int,
)
    requires
        nx <= 5,
        ts.len() % 3 == 0,
        qs.len() % 4 == 0,
        ts.len() + qs.len() > 0,
        splittable(ts, qs),
        best_ok(best, ts, qs),
    ensures
        best_ok(best_over_x(name, ts, qs, best, nx), ts, qs),
        best.0.len() > 0 ==> best_over_x(name, ts, qs, best, nx).0.len() > 0,
    decreases nx,
{
    if nx > 0 {
        lemma_best_x(name, ts, qs, best, nx - 1);
        lemma_best_y(name, ts, qs, best_over_x(name, ts, qs, best, nx - 1), nx, 5);
    }
}

proof fn lemma_split_error_bound(vs: Seq<MeshView>, p: int, nt: int, nq: int)
    requires
        p >= 0,
        nt >= 0,
        nq >= 0,
        views_bounded(vs, nt, nq),
    ensures
        0 <= split_error(vs, p) <= vs.len() * (nt + nq + 80 + p),
    decreases vs.len(),
{
    if vs.len() > 0 {
        let d = vs.drop_last();
        assert forall|i: int| 0 <= i < d.len() implies 0 <= #[trigger] d[i].1 <= nt && 0 <= d[i].2
            <= nq by {
            assert(d[i] == vs[i]);
            assert(0 <= vs[i].1 <= nt && 0 <= vs[i].2 <= nq);
        }
        lemma_split_error_bound(d, p, nt, nq);
        let k = nt + nq + 80 + p;
        assert(0 <= vs[vs.len() - 1].1 <= nt && 0 <= vs[vs.len() - 1].2 <= nq);
        assert(abs(vs.last().2 + vs.last().1 - 80) + p <= k);
        assert((vs.len() - 1) * k + k == vs.len() * k) by (nonlinear_arith);
    }
}

/// The first candidate, one part per axis, is kept: it holds every polygon
/// and its error is below `i64::MAX`.
proof fn lemma_first_candidate(name: Seq<char>, ts: Seq<VertexPSX>, qs: Seq<VertexPSX>)
    requires
        ts.len() % 3 == 0,
        qs.len() % 4 == 0,
        ts.len() + qs.len() > 0,
        ts.len() + qs.len() <= 0xFFFF_FFFF,
        splittable(ts, qs),
    ensures
        best_over_z(name, ts, qs, (seq![], i64::MAX as int), 1, 1, 1).0.len() > 0,
{
    let init: (Seq<MeshView>, int) = (seq![], i64::MAX as int);
    assert(best_over_z(name, ts, qs, init, 1, 1, 0) == init);
    let c = candidate_split(name, ts, qs, 1, 1, 1);
    lemma_candidate_keeps(name, ts, qs, 1, 1, 1);
    if c.len() == 0 {
        assert(total_triangles(c) == 0 && total_quads(c) == 0);
    }
    let all = ts + qs;
    let cx = grid_coords(min_pos(all, 0), (max_pos(all, 0) - min_pos(all, 0)) as i16, 1);
    let cy = grid_coords(min_pos(all, 1), (max_pos(all, 1) - min_pos(all, 1)) as i16, 1);
    let cz = grid_coords(min_pos(all, 2), (max_pos(all, 2) - min_pos(all, 2)) as i16, 1);
    lemma_grid_views(name, ts, qs, cx, cy, cz, 3);
    let nt = ts.len() as int / 3;
    let nq = qs.len() as int / 4;
    assert(split_penalty(1, 1, 1) == 0);
    lemma_split_error_bound(c, 0, nt, nq);
    let e = split_error(c, 0);
    assert(e < i64::MAX) by (nonlinear_arith)
        requires
            0 <= e <= c.len() * (nt + nq + 80),
            c.len() <= 27,
            0 <= nt + nq <= 0xFFFF_FFFF,
    ;
}

proof fn lemma_first_kept(name: Seq<char>, ts: Seq<VertexPSX>, qs: Seq<VertexPSX>, nx: int)
    requires
        1 <= nx <= 5,
        ts.len() % 3 == 0,
        qs.len() % 4 == 0,
        ts.len() + qs.len() > 0,
        ts.len() + qs.len() <= 0xFFFF_FFFF,
        splittable(ts, qs),
    ensures
        best_over_x(name, ts, qs, (seq![], i64::MAX as int), nx).0.len() > 0,
    decreases nx,
{
    let init: (Seq<MeshView>, int) = (seq![], i64::MAX as int);
    if nx == 1 {
        lemma_first_candidate(name, ts, qs);
        lemma_nonempty_z(name, ts, qs, init, 1, 1, 5);
        lemma_nonempty_y(name, ts, qs, 5);
    } else {
        lemma_first_kept(name, ts, qs, nx - 1);
        lemma_best_x(name, ts, qs, init, nx - 1);
        lemma_best_y(name, ts, qs, best_over_x(name, ts, qs, init, nx - 1), nx, 5);
    }
}

proof fn lemma_nonempty_z(
    name: Seq<char>,
    ts: Seq<VertexPSX>,
    qs: Seq<VertexPSX>,
    best: (Seq<MeshView>, int),
    sx: int,
    sy: int,
    nz: int,
)
    requires
        1 <= nz,
        best_over_z(name, ts, qs, best, sx, sy, 1).0.len() > 0,
    ensures
        best_over_z(name, ts, qs, best, sx, sy, nz).0.len() > 0,
    decreases nz,
{
    if nz > 1 {
        lemma_nonempty_z(name, ts, qs, best, sx, sy, nz - 1);
    }
}

proof fn lemma_nonempty_y(name: Seq<char>, ts: Seq<VertexPSX>, qs: Seq<VertexPSX>, ny: int)
    requires
        1 <= ny <= 5,
        ts.len() % 3 == 0,
        qs.len() % 4 == 0,
        ts.len() + qs.len() > 0,
        splittable(ts, qs),
        best_over_z(name, ts, qs, (seq![], i64::MAX as int), 1, 1, 5).0.len() > 0,
    ensures
        best_over_y(name, ts, qs, (seq![], i64::MAX as int), 1, ny).0.len() > 0,
    decreases ny,
{
    let init: (Seq<MeshView>, int) = (seq![], i64::MAX as int);
    assert(best_over_y(name, ts, qs, init, 1, 0) == init);
    if ny > 1 {
        lemma_nonempty_y(name, ts, qs, ny - 1);
        lemma_best_y(name, ts, qs, init, 1, ny - 1);
        lemma_best_z(name, ts, qs, best_over_y(name, ts, qs, init, 1, ny - 1), 1, ny, 5);
    }
}

/// Splitting a mesh evenly (see `split_mesh_evenly`) keeps its polygons: the
/// meshes it gives together hold as many triangles and as many quads as the
/// mesh (a large mesh gets one of the grid splits, whose cells take each
/// polygon exactly once, see `lemma_grid_split_keeps_polygons`).
pub proof fn lemma_even_split_keeps_polygons(name: Seq<char>, ts: Seq<VertexPSX>, qs: Seq<VertexPSX>)
    requires
        ts.len() % 3 == 0,
        qs.len() % 4 == 0,
        ts.len() + qs.len() <= 0xFFFF_FFFF,
        ts.len() + qs.len() >= 80 ==> splittable(ts, qs),
    ensures
        keeps_polygons(even_split(name, ts, qs), ts, qs),
{
    if ts.len() + qs.len() < 80 {
        let v = even_split(name, ts, qs);
        let e = v.drop_last();
        assert(e.len() == 0);
        assert(total_triangles(e) == 0 && total_quads(e) == 0);
    } else {
        let init: (Seq<MeshView>, int) = (seq![], i64::MAX as int);
        lemma_best_x(name, ts, qs, init, 5);
        lemma_first_kept(name, ts, qs, 5);
    }
}

/// The position of the split into `x` x `y` x `z` parts in the order the
/// search tries them (`x` slowest, `z` fastest).
pub open spec fn search_pos(x: int, y: int, z: int) -> int {
    25 * (x - 1) + 5 * (y - 1) + (z - 1)
}

/// The error of the split into `x` x `y` x `z` parts.
pub open spec fn candidate_err(name: Seq<char>, ts: Seq<VertexPSX>, qs: Seq<VertexPSX>, x: int, y: int, z: int) -> int {
    split_error(candidate_split(name, ts, qs, x, y, z), split_penalty(x, y, z))
}

/// After the first `l` splits of the search: the best error is at most that
/// of every non-empty split tried, and a non-empty best is one of the splits
/// tried, with its error.
pub open spec fn search_inv(name: Seq<char>, ts: Seq<VertexPSX>, qs: Seq<VertexPSX>, best: (Seq<MeshView>, int), l: int) -> bool {
    &&& forall|x: int, y: int, z: int|
        1 <= x <= 5 && 1 <= y <= 5 && 1 <= z <= 5 && search_pos(x, y, z) < l
            && #[trigger] candidate_split(name, ts, qs, x, y, z).len() > 0 ==> best.1 <= candidate_err(name, ts, qs, x, y, z)
    &&& best.0.len() > 0 ==> exists|x: int, y: int, z: int|
        1 <= x <= 5 && 1 <= y <= 5 && 1 <= z <= 5 && search_pos(x, y, z) < l
            && best.0 == #[trigger] candidate_split(name, ts, qs, x, y, z) && best.1 == candidate_err(name, ts, qs, x, y, z)
}

proof fn lemma_search_step(
    name: Seq<char>,
    ts: Seq<VertexPSX>,
    qs: Seq<VertexPSX>,
    best: (Seq<MeshView>, int),
    sx: int,
    sy: int,
    sz: int,
)
    requires
        1 <= sx <= 5,
        1 <= sy <= 5,
        1 <= sz <= 5,
        search_inv(name, ts, qs, best, search_pos(sx, sy, sz)),
    ensures
        search_inv(
            name,
            ts,
            qs,
            keep_better(best, candidate_split(name, ts, qs, sx, sy, sz), candidate_err(name, ts, qs, sx, sy, sz)),
            search_pos(sx, sy, sz) + 1,
        ),
{
    let k = search_pos(sx, sy, sz);
    let c = candidate_split(name, ts, qs, sx, sy, sz);
    let e = candidate_err(name, ts, qs, sx, sy, sz);
    let nb = keep_better(best, c, e);
    assert forall|x: int, y: int, z: int|
        1 <= x <= 5 && 1 <= y <= 5 && 1 <= z <= 5 && search_pos(x, y, z) < k + 1
            && #[trigger] candidate_split(name, ts, qs, x, y, z).len() > 0 implies nb.1 <= candidate_err(name, ts, qs, x, y, z) by {
        if search_pos(x, y, z) == k {
            assert(x == sx && y == sy && z == sz);
        }
    }
    if nb.0.len() > 0 {
        if e < best.1 && c.len() > 0 {
            assert(nb.0 == candidate_split(name, ts, qs, sx, sy, sz));
        } else {
            let (x, y, z) = choose|x: int, y: int, z: int|
                1 <= x <= 5 && 1 <= y <= 5 && 1 <= z <= 5 && search_pos(x, y, z) < k
                    && best.0 == #[trigger] candidate_split(name, ts, qs, x, y, z) && best.1 == candidate_err(name, ts, qs, x, y, z);
            assert(nb.0 == candidate_split(name, ts, qs, x, y, z));
        }
    }
}

proof fn lemma_search_z(
    name: Seq<char>,
    ts: Seq<VertexPSX>,
    qs: Seq<VertexPSX>,
    best: (Seq<MeshView>, int),
    sx: int,
    sy: int,
    nz: int,
)
    requires
        1 <= sx <= 5,
        1 <= sy <= 5,
        0 <= nz <= 5,
        search_inv(name, ts, qs, best, search_pos(sx, sy, 1)),
    ensures
        search_inv(name, ts, qs, best_over_z(name, ts, qs, best, sx, sy, nz), search_pos(sx, sy, 1) + nz),
    decreases nz,
{
    if nz > 0 {
        lemma_search_z(name, ts, qs, best, sx, sy, nz - 1);
        lemma_search_step(name, ts, qs, best_over_z(name, ts, qs, best, sx, sy, nz - 1), sx, sy, nz);
    }
}

proof fn lemma_search_y(
    name: Seq<char>,
    ts: Seq<VertexPSX>,
    qs: Seq<VertexPSX>,
    best: (Seq<MeshView>, int),
    sx: int,
    ny: int,
)
    requires
        1 <= sx <= 5,
        0 <= ny <= 5,
        search_inv(name, ts, qs, best, search_pos(sx, 1, 1)),
    ensures
        search_inv(name, ts, qs, best_over_y(name, ts, qs, best, sx, ny), search_pos(sx, 1, 1) + 5 * ny),
    decreases ny,
{
    if ny > 0 {
        lemma_search_y(name, ts, qs, best, sx, ny - 1);
        lemma_search_z(name, ts, qs, best_over_y(name, ts, qs, best, sx, ny - 1), sx, ny, 5);
    }
}

proof fn lemma_search_x(
    name: Seq<char>,
    ts: Seq<VertexPSX>,
    qs: Seq<VertexPSX>,
    best: (Seq<MeshView>, int),
    nx: int,
)
    requires
        0 <= nx <= 5,
        search_inv(name, ts, qs, best, 0),
    ensures
        search_inv(name, ts, qs, best_over_x(name, ts, qs, best, nx), 25 * nx),
    decreases nx,
{
    if nx > 0 {
        lemma_search_x(name, ts, qs, best, nx - 1);
        lemma_search_y(name, ts, qs, best_over_x(name, ts, qs, best, nx - 1), nx, 5);
    }
}

/// A large mesh is split into the best of the grid splits it tries: the
/// meshes it gives are those of the split into some `a` x `b` x `c` parts
/// (each 1 to 5), and no non-empty split into 1 to 5 parts per axis has a
/// smaller error (see `split_error`) than that split.
pub proof fn lemma_even_split_is_best(name: Seq<char>, ts: Seq<VertexPSX>, qs: Seq<VertexPSX>)
    requires
        ts.len() % 3 == 0,
        qs.len() % 4 == 0,
        ts.len() + qs.len() <= 0xFFFF_FFFF,
        ts.len() + qs.len() >= 80,
        splittable(ts, qs),
    ensures
        even_split(name, ts, qs).len() > 0,
        exists|a: int, b: int, c: int|
            #![trigger candidate_split(name, ts, qs, a, b, c)]
            1 <= a <= 5 && 1 <= b <= 5 && 1 <= c <= 5 && even_split(name, ts, qs)
                == candidate_split(name, ts, qs, a, b, c) && forall|x: int, y: int, z: int|
                1 <= x <= 5 && 1 <= y <= 5 && 1 <= z <= 5 && #[trigger] candidate_split(
                    name,
                    ts,
                    qs,
                    x,
                    y,
                    z,
                ).len() > 0 ==> split_error(candidate_split(name, ts, qs, a, b, c), split_penalty(a, b, c))
                    <= split_error(candidate_split(name, ts, qs, x, y, z), split_penalty(x, y, z)),
{
    let init: (Seq<MeshView>, int) = (seq![], i64::MAX as int);
    lemma_search_x(name, ts, qs, init, 5);
    lemma_first_kept(name, ts, qs, 5);
    let best = best_over_x(name, ts, qs, init, 5);
    let (a, b, c) = choose|x: int, y: int, z: int|
        1 <= x <= 5 && 1 <= y <= 5 && 1 <= z <= 5 && search_pos(x, y, z) < 125
            && best.0 == #[trigger] candidate_split(name, ts, qs, x, y, z) && best.1 == candidate_err(name, ts, qs, x, y, z);
    assert forall|x: int, y: int, z: int|
        1 <= x <= 5 && 1 <= y <= 5 && 1 <= z <= 5 && #[trigger] candidate_split(name, ts, qs, x, y, z).len() > 0
        implies split_error(candidate_split(name, ts, qs, a, b, c), split_penalty(a, b, c))
            <= split_error(candidate_split(name, ts, qs, x, y, z), split_penalty(x, y, z)) by {
        assert(search_pos(x, y, z) < 125);
    }
}

} // verus!

//! Index-buffer layout of the drawn meshes: the density grid as one quad of
//! four vertices per cell, drawn as two triangles, and each velocity arrow as
//! a shaft and two head strokes over four vertices.

use vstd::prelude::*;
use crate::stepping::{stepped, stepped_range, lemma_stepped_unit_len, lemma_stepped_exact};
use vstd::arithmetic::div_mod::{lemma_fundamental_div_mod, lemma_mod_bound};
use crate::cells::{cell_product, cells_view, cell_grid, lemma_cell_product_len, lemma_cell_product_at};

verus! {

/// A corner of a grid cell's quad, in the order its vertices are emitted.
#[derive(Clone, Copy, Debug, PartialEq, Eq, Structural)]
pub enum Corner {
    TopLeft,
    TopRight,
    BottomRight,
    BottomLeft,
}

/// One vertex of the density mesh: a corner of the cell at `row`, `col`.
#[derive(Clone, Copy, Debug, PartialEq, Eq, Structural)]
pub struct MeshVertex {
    pub row: usize,
    pub col: usize,
    pub corner: Corner,
}

/// The four vertices of the quad of cell `(row, col)`, clockwise from the top
/// left.
pub open spec fn quad(row: int, col: int) -> Seq<(int, int, Corner)> {
    seq![
        (row, col, Corner::TopLeft),
        (row, col, Corner::TopRight),
        (row, col, Corner::BottomRight),
        (row, col, Corner::BottomLeft),
    ]
}

/// The vertices of the quads of `cells`, cell by cell.
pub open spec fn quad_vertices(cells: Seq<(int, int)>) -> Seq<(int, int, Corner)>
    decreases cells.len(),
{
    if cells.len() == 0 {
        Seq::empty()
    } else {
        quad_vertices(cells.drop_last()).add(quad(cells.last().0, cells.last().1))
    }
}

/// The cells of an `n` x `n` grid, row by row.
pub open spec fn square_cells(n: int) -> Seq<(int, int)> {
    cell_product(stepped(0, n, 1), stepped(0, n, 1))
}

/// Converts mesh vertices to integer triples.
pub open spec fn vertices_view(v: Seq<MeshVertex>) -> Seq<(int, int, Corner)> {
    v.map_values(|m: MeshVertex| (m.row as int, m.col as int, m.corner))
}

/// The vertices of the density mesh of an `n` x `n` grid: four per cell, cells
/// row by row.
pub fn grid_vertices(grid_size: usize) -> (out: Vec<MeshVertex>)
    ensures
        vertices_view(out@) == quad_vertices(square_cells(grid_size as int)),
        out@.len() == 4 * (grid_size * grid_size),
        forall|v: int|
            0 <= v < out@.len() ==> (#[trigger] out@[v]).row == (v / 4) / (grid_size as int)
                && out@[v].col == (v / 4) % (grid_size as int) && out@[v].corner
                == corner_of_vertex(v),
{
    let out = quad_mesh(grid_size);
    proof {
        lemma_grid_vertices_exact(grid_size as int);
        assert forall|v: int| 0 <= v < out@.len() implies (#[trigger] out@[v]).row == (v / 4) / (
        grid_size as int) && out@[v].col == (v / 4) % (grid_size as int) && out@[v].corner
            == corner_of_vertex(v) by {
            assert(vertices_view(out@)[v] == quad_vertices(square_cells(grid_size as int))[v]);
        }
    }
    out
}

/// The quads of every cell of an `n` x `n` grid, cell by cell.
fn quad_mesh(grid_size: usize) -> (out: Vec<MeshVertex>)
    ensures
        vertices_view(out@) == quad_vertices(square_cells(grid_size as int)),
{
    let rows = stepped_range(0, grid_size, 1);
    let cols = stepped_range(0, grid_size, 1);
    let cells = cell_grid(&rows, &cols);
    let ghost cv = cells_view(cells@);
    let mut out: Vec<MeshVertex> = Vec::new();
    let mut k: usize = 0;
    while k < cells.len()
        invariant
            k <= cells@.len(),
            cv == cells_view(cells@),
            vertices_view(out@) == quad_vertices(cv.take(k as int)),
        decreases cells@.len() - k,
    {
        let (row, col) = cells[k];
        let ghost before = vertices_view(out@);
        out.push(MeshVertex { row, col, corner: Corner::TopLeft });
        out.push(MeshVertex { row, col, corner: Corner::TopRight });
        out.push(MeshVertex { row, col, corner: Corner::BottomRight });
        out.push(MeshVertex { row, col, corner: Corner::BottomLeft });
        proof {
            assert(cv[k as int] == (row as int, col as int));
            assert(cv.take(k as int + 1).drop_last() =~= cv.take(k as int));
            assert(vertices_view(out@) =~= before.add(quad(row as int, col as int)));
        }
        k = k + 1;
    }
    assert(cv.take(k as int) =~= cv);
    out
}

/// The six indices of the two triangles of the quad whose first vertex is
/// `base`: top-left, top-right, bottom-right, then top-left, bottom-right,
/// bottom-left.
pub open spec fn quad_pattern() -> Seq<int> {
    seq![0, 1, 2, 0, 2, 3]
}

/// The six indices of an arrow whose first vertex is `base`: the shaft from
/// the tail (`base`) to the tip (`base + 1`), then a stroke from the tip to
/// each head vertex (`base + 2`, `base + 3`).
pub open spec fn arrow_pattern() -> Seq<int> {
    seq![0, 1, 1, 2, 1, 3]
}

/// The corner that vertex `v` of the density mesh takes: each cell's four
/// vertices run top-left, top-right, bottom-right, bottom-left.
pub open spec fn corner_of_vertex(v: int) -> Corner {
    if v % 4 == 0 {
        Corner::TopLeft
    } else if v % 4 == 1 {
        Corner::TopRight
    } else if v % 4 == 2 {
        Corner::BottomRight
    } else {
        Corner::BottomLeft
    }
}

/// The density mesh of an `n` x `n` grid has `4 * n * n` vertices; vertex `v`
/// belongs to cell `v / 4`, in row `(v / 4) / n` and column `(v / 4) % n`, and
/// each cell's four vertices are its top-left, top-right, bottom-right and
/// bottom-left corners in that order.
pub proof fn lemma_grid_vertices_exact(n: int)
    requires
        n >= 0,
    ensures
        quad_vertices(square_cells(n)).len() == 4 * (n * n),
        forall|v: int|
            0 <= v < quad_vertices(square_cells(n)).len() ==> #[trigger] quad_vertices(
                square_cells(n),
            )[v] == ((v / 4) / n, (v / 4) % n, if v % 4 == 0 {
                Corner::TopLeft
            } else if v % 4 == 1 {
                Corner::TopRight
            } else if v % 4 == 2 {
                Corner::BottomRight
            } else {
                Corner::BottomLeft
            }),
{
    let rs = stepped(0, n, 1);
    let cells = square_cells(n);
    lemma_stepped_unit_len(0, n);
    lemma_stepped_exact(0, n, 1);
    lemma_cell_product_len(rs, rs);
    lemma_quad_vertices_len(cells);
    assert forall|v: int| 0 <= v < quad_vertices(cells).len() implies #[trigger] quad_vertices(
        cells,
    )[v] == ((v / 4) / n, (v / 4) % n, corner_of_vertex(v)) by {
        let k = v / 4;
        let t = v % 4;
        lemma_fundamental_div_mod(v, 4);
        lemma_mod_bound(v, 4);
        assert(0 <= k < cells.len());
        lemma_quad_vertices_at(cells, k, t);
        assert(rs.len() == n);
        lemma_cell_product_at(rs, rs, k);
        lemma_mod_bound(k, n);
        assert(0 <= k / n < n);
    }
}

/// For `count` shapes of four vertices each, `pattern` offset by each shape's
/// first vertex `4 * s`, shape by shape.
pub open spec fn index_blocks(count: int, pattern: Seq<int>) -> Seq<int>
    decreases count,
{
    if count <= 0 {
        Seq::empty()
    } else {
        index_blocks(count - 1, pattern).add(pattern.map_values(|o: int| 4 * (count - 1) + o))
    }
}

/// Converts a `u32` index list to integers.
pub open spec fn u32s(v: Seq<u32>) -> Seq<int> {
    v.map_values(|x: u32| x as int)
}

/// Repeats a six-index pattern over `count` shapes of four vertices.
fn repeat_pattern(count: usize, pattern: [u32; 6]) -> (out: Vec<u32>)
    requires
        4 * count <= 0x1_0000_0000,
        forall|t: int| 0 <= t < 6 ==> pattern@[t] <= 3,
    ensures
        u32s(out@) == index_blocks(count as int, u32s(pattern@)),
{
    let ghost pat = u32s(pattern@);
    let mut out: Vec<u32> = Vec::new();
    let mut s: usize = 0;
    while s < count
        invariant
            s <= count,
            4 * count <= 0x1_0000_0000,
            pat == u32s(pattern@),
            forall|t: int| 0 <= t < 6 ==> pattern@[t] <= 3,
            u32s(out@) == index_blocks(s as int, pat),
        decreases count - s,
    {
        let base: u32 = (4 * s) as u32;
        let ghost before = u32s(out@);
        let mut t: usize = 0;
        while t < 6
            invariant
                t <= 6,
                base as int == 4 * s,
                4 * s + 4 <= 0x1_0000_0000,
                pat == u32s(pattern@),
                forall|t: int| 0 <= t < 6 ==> pattern@[t] <= 3,
                u32s(out@) == before.add(pat.take(t as int).map_values(|o: int| 4 * s + o)),
            decreases 6 - t,
        {
            let ghost prev = u32s(out@);
            out.push(base + pattern[t]);
            assert(pat.take(t as int + 1) =~= pat.take(t as int).push(pattern@[t as int] as int));
            assert(u32s(out@) =~= prev.push(base + pattern@[t as int]));
            assert(u32s(out@) =~= before.add(pat.take(t as int + 1).map_values(|o: int| 4 * s + o)));
            t = t + 1;
        }
        assert(pat.take(6) =~= pat);
        s = s + 1;
    }
    out
}

/// The index buffer of the density mesh of an `n` x `n` grid: two triangles
/// per cell over its four vertices, cells row by row. Indices are `u32`, so
/// the `4 * n * n` vertices must be numbered below `2^32`.
pub fn grid_indices(grid_size: usize) -> (out: Vec<u32>)
    requires
        4 * grid_size * grid_size <= 0x1_0000_0000,
    ensures
        u32s(out@) == index_blocks(grid_size * grid_size, quad_pattern()),
        out@.len() == 6 * (grid_size * grid_size),
        forall|i: int|
            0 <= i < out@.len() ==> #[trigger] out@[i] == 4 * (i / 6) + if i % 6 == 0 {
                0int
            } else if i % 6 == 1 {
                1int
            } else if i % 6 == 2 {
                2int
            } else if i % 6 == 3 {
                0int
            } else if i % 6 == 4 {
                2int
            } else {
                3int
            },
{
    assert(grid_size * grid_size <= 0x4000_0000) by (nonlinear_arith)
        requires
            4 * grid_size * grid_size <= 0x1_0000_0000,
    ;
    let cells: usize = grid_size * grid_size;
    let pattern: [u32; 6] = [0, 1, 2, 0, 2, 3];
    assert(u32s(pattern@) =~= quad_pattern());
    let out = repeat_pattern(cells, pattern);
    proof {
        lemma_grid_indices_exact(grid_size * grid_size);
        assert forall|i: int| 0 <= i < out@.len() implies #[trigger] out@[i] == 4 * (i / 6) + if i % 6 == 0 {
                0int
            } else if i % 6 == 1 {
                1int
            } else if i % 6 == 2 {
                2int
            } else if i % 6 == 3 {
                0int
            } else if i % 6 == 4 {
                2int
            } else {
                3int
            } by {
            assert(u32s(out@)[i] == out@[i] as int);
        }
    }
    out
}

/// The index buffer of `count` arrows of four vertices each, arrow by arrow.
/// Indices are `u32`, so the `4 * count` vertices must be numbered below `2^32`.
pub fn arrow_indices(count: usize) -> (out: Vec<u32>)
    requires
        4 * count <= 0x1_0000_0000,
    ensures
        u32s(out@) == index_blocks(count as int, arrow_pattern()),
        out@.len() == 6 * count,
        forall|i: int|
            0 <= i < out@.len() ==> #[trigger] out@[i] == 4 * (i / 6) + if i % 6 == 0 {
                0int
            } else if i % 6 == 1 || i % 6 == 2 || i % 6 == 4 {
                1int
            } else if i % 6 == 3 {
                2int
            } else {
                3int
            },
{
    let pattern: [u32; 6] = [0, 1, 1, 2, 1, 3];
    assert(u32s(pattern@) =~= arrow_pattern());
    let out = repeat_pattern(count, pattern);
    proof {
        lemma_arrow_indices_exact(count as int);
        assert forall|i: int| 0 <= i < out@.len() implies #[trigger] out@[i] == 4 * (i / 6) + if i % 6 == 0 {
                0int
            } else if i % 6 == 1 || i % 6 == 2 || i % 6 == 4 {
                1int
            } else if i % 6 == 3 {
                2int
            } else {
                3int
            } by {
            assert(u32s(out@)[i] == out@[i] as int);
        }
    }
    out
}

/// Each shape contributes six indices.
pub proof fn lemma_index_blocks_len(count: int, pattern: Seq<int>)
    requires
        count >= 0,
        pattern.len() == 6,
    ensures
        index_blocks(count, pattern).len() == 6 * count,
    decreases count,
{
    if count > 0 {
        lemma_index_blocks_len(count - 1, pattern);
    }
}

/// Index `t` of shape `s` is the shape's first vertex `4 * s` plus `pattern[t]`.
pub proof fn lemma_index_blocks_at(count: int, pattern: Seq<int>, s: int, t: int)
    requires
        pattern.len() == 6,
        0 <= s < count,
        0 <= t < 6,
    ensures
        index_blocks(count, pattern).len() == 6 * count,
        index_blocks(count, pattern)[6 * s + t] == 4 * s + pattern[t],
    decreases count,
{
    lemma_index_blocks_len(count, pattern);
    lemma_index_blocks_len(count - 1, pattern);
    if s < count - 1 {
        lemma_index_blocks_at(count - 1, pattern, s, t);
    }
}

/// The grid index buffer for `m` cells holds six indices per cell: index `i`
/// belongs to cell `i / 6`, whose vertices start at `4 * (i / 6)`, and the six
/// offsets are 0, 1, 2 (top-left, top-right, bottom-right) then 0, 2, 3
/// (top-left, bottom-right, bottom-left), so the two triangles cover the quad.
pub proof fn lemma_grid_indices_exact(m: int)
    requires
        m >= 0,
    ensures
        index_blocks(m, quad_pattern()).len() == 6 * m,
        forall|i: int|
            0 <= i < 6 * m ==> #[trigger] index_blocks(m, quad_pattern())[i] == 4 * (i / 6)
                + if i % 6 == 0 {
                0int
            } else if i % 6 == 1 {
                1int
            } else if i % 6 == 2 {
                2int
            } else if i % 6 == 3 {
                0int
            } else if i % 6 == 4 {
                2int
            } else {
                3int
            },
{
    lemma_index_blocks_len(m, quad_pattern());
    assert forall|i: int| 0 <= i < 6 * m implies #[trigger] index_blocks(m, quad_pattern())[i] == 4
        * (i / 6) + if i % 6 == 0 {
        0int
    } else if i % 6 == 1 {
        1int
    } else if i % 6 == 2 {
        2int
    } else if i % 6 == 3 {
        0int
    } else if i % 6 == 4 {
        2int
    } else {
        3int
    } by {
        lemma_fundamental_div_mod(i, 6);
        lemma_mod_bound(i, 6);
        lemma_index_blocks_at(m, quad_pattern(), i / 6, i % 6);
    }
}

/// The arrow index buffer for `count` arrows holds six indices per arrow:
/// index `i` belongs to arrow `i / 6`, whose vertices start at `4 * (i / 6)`,
/// and the offsets are 0, 1 (the shaft from tail to tip), 1, 2 and 1, 3 (a
/// stroke from the tip to each head vertex).
pub proof fn lemma_arrow_indices_exact(count: int)
    requires
        count >= 0,
    ensures
        index_blocks(count, arrow_pattern()).len() == 6 * count,
        forall|i: int|
            0 <= i < 6 * count ==> #[trigger] index_blocks(count, arrow_pattern())[i] == 4 * (i / 6)
                + if i % 6 == 0 {
                0int
            } else if i % 6 == 1 || i % 6 == 2 || i % 6 == 4 {
                1int
            } else if i % 6 == 3 {
                2int
            } else {
                3int
            },
{
    lemma_index_blocks_len(count, arrow_pattern());
    assert forall|i: int| 0 <= i < 6 * count implies #[trigger] index_blocks(count, arrow_pattern())[i]
        == 4 * (i / 6) + if i % 6 == 0 {
        0int
    } else if i % 6 == 1 || i % 6 == 2 || i % 6 == 4 {
        1int
    } else if i % 6 == 3 {
        2int
    } else {
        3int
    } by {
        lemma_fundamental_div_mod(i, 6);
        lemma_mod_bound(i, 6);
        lemma_index_blocks_at(count, arrow_pattern(), i / 6, i % 6);
    }
}

/// Every index of `count` shapes names one of their `4 * count` vertices,
/// whenever the pattern stays within a shape's four vertices.
pub proof fn lemma_index_blocks_in_range(count: int, pattern: Seq<int>, k: int)
    requires
        pattern.len() == 6,
        forall|t: int| 0 <= t < 6 ==> 0 <= #[trigger] pattern[t] < 4,
        count >= 0,
        0 <= k < index_blocks(count, pattern).len(),
    ensures
        0 <= index_blocks(count, pattern)[k] < 4 * count,
{
    lemma_index_blocks_len(count, pattern);
    let s = k / 6;
    let t = k % 6;
    assert(k == 6 * s + t && 0 <= s < count && 0 <= t < 6) by (nonlinear_arith)
        requires
            0 <= k < 6 * count,
            s == k / 6,
            t == k % 6,
    ;
    lemma_index_blocks_at(count, pattern, s, t);
}

/// Each cell contributes four vertices.
pub proof fn lemma_quad_vertices_len(cells: Seq<(int, int)>)
    ensures
        quad_vertices(cells).len() == 4 * cells.len(),
    decreases cells.len(),
{
    if cells.len() > 0 {
        lemma_quad_vertices_len(cells.drop_last());
    }
}

/// Vertex `t` of cell `k` is its `t`-th corner.
pub proof fn lemma_quad_vertices_at(cells: Seq<(int, int)>, k: int, t: int)
    requires
        0 <= k < cells.len(),
        0 <= t < 4,
    ensures
        quad_vertices(cells).len() == 4 * cells.len(),
        quad_vertices(cells)[4 * k + t] == quad(cells[k].0, cells[k].1)[t],
    decreases cells.len(),
{
    lemma_quad_vertices_len(cells);
    lemma_quad_vertices_len(cells.drop_last());
    if k < cells.len() - 1 {
        lemma_quad_vertices_at(cells.drop_last(), k, t);
    }
}

/// The density mesh of an `n` x `n` grid draws, for the `s`-th cell, two
/// triangles over exactly that cell's corners: index `t` of its block names
/// corner `quad_pattern()[t]` of the cell. In particular every index names an
/// existing vertex.
pub proof fn lemma_grid_mesh_triangles_on_cell(n: int, s: int, t: int)
    requires
        n >= 0,
        0 <= s < n * n,
        0 <= t < 6,
    ensures
        ({
            let cells = square_cells(n);
            let verts = quad_vertices(cells);
            let idx = index_blocks(n * n, quad_pattern());
            &&& idx.len() == 6 * (n * n)
            &&& verts.len() == 4 * (n * n)
            &&& 0 <= idx[6 * s + t] < verts.len()
            &&& verts[idx[6 * s + t]] == quad(cells[s].0, cells[s].1)[quad_pattern()[t]]
        }),
{
    let cells = square_cells(n);
    lemma_stepped_unit_len(0, n);
    lemma_cell_product_len(stepped(0, n, 1), stepped(0, n, 1));
    lemma_index_blocks_at(n * n, quad_pattern(), s, t);
    let o = quad_pattern()[t];
    assert(0 <= o < 4);
    lemma_quad_vertices_at(cells, s, o);
}

/// Every index of the arrow buffer names one of the arrows' vertices, and the
/// six indices of arrow `s` lie on its own four vertices.
pub proof fn lemma_arrow_indices_on_arrow(count: int, s: int, t: int)
    requires
        0 <= s < count,
        0 <= t < 6,
    ensures
        ({
            let idx = index_blocks(count, arrow_pattern());
            &&& idx.len() == 6 * count
            &&& 4 * s <= idx[6 * s + t] < 4 * s + 4
            &&& idx[6 * s + t] < 4 * count
        }),
{
    lemma_index_blocks_at(count, arrow_pattern(), s, t);
}

} // verus!

//! Cells of a grid as `(row, col)` pairs, listed row by row, and the interior
//! cells that the solver's five-point stencil sweeps.

use vstd::prelude::*;
use crate::stepping::{stepped, lemma_stepped_bounds, stepped_range, ints, lemma_stepped_exact};
use vstd::arithmetic::div_mod::{lemma_fundamental_div_mod_converse, lemma_fundamental_div_mod, lemma_mod_bound};

verus! {

/// The cells `(row, c)` for each `c` of `cols`, in order.
pub open spec fn row_cells(row: int, cols: Seq<int>) -> Seq<(int, int)> {
    cols.map_values(|c: int| (row, c))
}

/// Every pairing of a row of `rows` with a column of `cols`, row by row.
pub open spec fn cell_product(rows: Seq<int>, cols: Seq<int>) -> Seq<(int, int)>
    decreases rows.len(),
{
    if rows.len() == 0 {
        Seq::empty()
    } else {
        cell_product(rows.drop_last(), cols).add(row_cells(rows.last(), cols))
    }
}

/// A cell of a product has its row in `rows` and its column in `cols`.
pub proof fn lemma_cell_product_member(rows: Seq<int>, cols: Seq<int>, k: int)
    requires
        0 <= k < cell_product(rows, cols).len(),
    ensures
        rows.contains(cell_product(rows, cols)[k].0),
        cols.contains(cell_product(rows, cols)[k].1),
    decreases rows.len(),
{
    if rows.len() > 0 {
        let front = cell_product(rows.drop_last(), cols);
        if k < front.len() {
            lemma_cell_product_member(rows.drop_last(), cols, k);
            let p = cell_product(rows, cols)[k];
            assert(p == front[k]);
            let i = choose|i: int| 0 <= i < rows.drop_last().len() && rows.drop_last()[i] == p.0;
            assert(rows[i] == p.0);
        } else {
            let j = k - front.len();
            assert(cell_product(rows, cols)[k] == row_cells(rows.last(), cols)[j]);
            assert(rows[rows.len() - 1] == rows.last());
            assert(cols[j] == cell_product(rows, cols)[k].1);
        }
    }
}

/// The product has one cell per pair of a row and a column.
pub proof fn lemma_cell_product_len(rows: Seq<int>, cols: Seq<int>)
    ensures
        cell_product(rows, cols).len() == rows.len() * cols.len(),
    decreases rows.len(),
{
    if rows.len() > 0 {
        lemma_cell_product_len(rows.drop_last(), cols);
        assert((rows.len() - 1) * cols.len() + cols.len() == rows.len() * cols.len())
            by (nonlinear_arith);
    }
}

/// Adding one more row to the rows swept so far appends that row's cells.
pub proof fn lemma_cell_product_next_row(rows: Seq<int>, cols: Seq<int>, r: int)
    requires
        0 <= r < rows.len(),
    ensures
        cell_product(rows.take(r + 1), cols) == cell_product(rows.take(r), cols).add(
            row_cells(rows[r], cols),
        ),
{
    assert(rows.take(r + 1).drop_last() =~= rows.take(r));
}

/// Cell `k` of a product pairs row `k / m` with column `k % m`, where `m` is
/// the number of columns.
pub proof fn lemma_cell_product_at(rows: Seq<int>, cols: Seq<int>, k: int)
    requires
        cols.len() > 0,
        0 <= k < rows.len() * cols.len(),
    ensures
        cell_product(rows, cols).len() == rows.len() * cols.len(),
        0 <= k / (cols.len() as int) < rows.len(),
        cell_product(rows, cols)[k] == (rows[k / (cols.len() as int)], cols[k % (cols.len() as int)]),
    decreases rows.len(),
{
    let m = cols.len() as int;
    lemma_cell_product_len(rows, cols);
    lemma_cell_product_len(rows.drop_last(), cols);
    let n = rows.len() as int;
    assert(n > 0) by (nonlinear_arith)
        requires
            0 <= k < n * m,
            m > 0,
    ;
    assert(n * m == (n - 1) * m + m) by (nonlinear_arith);
    if k < (n - 1) * m {
        lemma_cell_product_at(rows.drop_last(), cols, k);
    } else {
        let j = k - (n - 1) * m;
        assert(k == (n - 1) * m + j);
        lemma_fundamental_div_mod_converse(k, m, n - 1, j);
        assert(cell_product(rows, cols)[k] == row_cells(rows.last(), cols)[j]);
    }
}

/// Every pairing of a row of `rows` with a column of `cols` is in the product.
pub proof fn lemma_cell_product_complete(rows: Seq<int>, cols: Seq<int>, r: int, c: int)
    requires
        rows.contains(r),
        cols.contains(c),
    ensures
        cell_product(rows, cols).contains((r, c)),
    decreases rows.len(),
{
    let front = cell_product(rows.drop_last(), cols);
    let j = choose|j: int| 0 <= j < cols.len() && cols[j] == c;
    if rows.last() == r {
        assert(cell_product(rows, cols)[front.len() + j] == (r, c));
    } else {
        let i = choose|i: int| 0 <= i < rows.len() && rows[i] == r;
        assert(rows.drop_last()[i] == r);
        lemma_cell_product_complete(rows.drop_last(), cols, r, c);
        let k = choose|k: int| 0 <= k < front.len() && front[k] == (r, c);
        assert(cell_product(rows, cols)[k] == (r, c));
    }
}

/// Whether a sweep of a grid of `extent` cells along one axis has any interior
/// line, and how many: `extent - 2`, or none.
pub open spec fn interior_extent(extent: int) -> int {
    if extent >= 2 { extent - 2 } else { 0 }
}

/// The interior of a `width` x `height` grid is every cell `(i, j)` with
/// `1 <= i < height - 1` and `1 <= j < width - 1`, and no other, listed row by
/// row: there are `(height - 2) * (width - 2)` of them (none when either is
/// below 3), and the `k`-th is `(1 + k / (width - 2), 1 + k % (width - 2))`.
pub proof fn lemma_interior_exact(width: int, height: int)
    ensures
        interior(width, height).len() == (if height >= 2 { height - 2 } else { 0 }) * (if width >= 2 { width - 2 } else { 0 }),
        forall|k: int|
            0 <= k < interior(width, height).len() ==> #[trigger] interior(width, height)[k] == (
                1 + k / (width - 2),
                1 + k % (width - 2),
            ),
        forall|i: int, j: int|
            #[trigger] interior(width, height).contains((i, j)) <==> (1 <= i < height - 1 && 1 <= j
                < width - 1),
{
    let rs = stepped(1, height - 1, 1);
    let cs = stepped(1, width - 1, 1);
    let cells = interior(width, height);
    lemma_stepped_exact(1, height - 1, 1);
    lemma_stepped_exact(1, width - 1, 1);
    lemma_cell_product_len(rs, cs);
    assert(rs.len() == interior_extent(height)) by {
        if 1 < height - 1 {
            lemma_fundamental_div_mod_converse(height - 2, 1, height - 2, 0);
        }
    }
    assert(cs.len() == interior_extent(width)) by {
        if 1 < width - 1 {
            lemma_fundamental_div_mod_converse(width - 2, 1, width - 2, 0);
        }
    }
    assert forall|k: int| 0 <= k < cells.len() implies #[trigger] cells[k] == (
        1 + k / (width - 2),
        1 + k % (width - 2),
    ) by {
        assert(cs.len() > 0) by (nonlinear_arith)
            requires
                0 <= k < rs.len() * cs.len(),
                cs.len() >= 0,
        ;
        lemma_cell_product_at(rs, cs, k);
        assert(cs.len() == width - 2);
        lemma_mod_bound(k, width - 2);
    }
    assert forall|i: int, j: int| #[trigger] cells.contains((i, j)) <==> (1 <= i < height - 1 && 1
        <= j < width - 1) by {
        if cells.contains((i, j)) {
            let k = choose|k: int| 0 <= k < cells.len() && cells[k] == (i, j);
            lemma_cell_product_member(rs, cs, k);
        }
        if 1 <= i < height - 1 && 1 <= j < width - 1 {
            lemma_fundamental_div_mod_converse(i - 1, 1, i - 1, 0);
            lemma_fundamental_div_mod_converse(j - 1, 1, j - 1, 0);
            assert(rs.contains(i));
            assert(cs.contains(j));
            lemma_cell_product_complete(rs, cs, i, j);
        }
    }
}

/// Whether cell `a` comes strictly before cell `b` row by row: a smaller row,
/// or the same row and a smaller column.
pub open spec fn row_major_before(a: (int, int), b: (int, int)) -> bool {
    a.0 < b.0 || (a.0 == b.0 && a.1 < b.1)
}

/// Whether the cells are listed strictly row by row, with no cell twice.
pub open spec fn row_major_sorted(cells: Seq<(int, int)>) -> bool {
    forall|a: int, b: int|
        0 <= a < b < cells.len() ==> row_major_before(#[trigger] cells[a], #[trigger] cells[b])
}

/// Whether the values strictly increase.
pub open spec fn increasing(s: Seq<int>) -> bool {
    forall|a: int, b: int| 0 <= a < b < s.len() ==> #[trigger] s[a] < #[trigger] s[b]
}

/// The product of increasing rows and increasing columns is listed strictly
/// row by row.
pub proof fn lemma_cell_product_sorted(rows: Seq<int>, cols: Seq<int>)
    requires
        increasing(rows),
        increasing(cols),
    ensures
        row_major_sorted(cell_product(rows, cols)),
    decreases rows.len(),
{
    if rows.len() > 0 {
        let front = cell_product(rows.drop_last(), cols);
        let last = row_cells(rows.last(), cols);
        let all = cell_product(rows, cols);
        assert(increasing(rows.drop_last()));
        lemma_cell_product_sorted(rows.drop_last(), cols);
        assert forall|a: int, b: int| 0 <= a < b < all.len() implies row_major_before(
            #[trigger] all[a],
            #[trigger] all[b],
        ) by {
            if b < front.len() {
                assert(all[a] == front[a] && all[b] == front[b]);
            } else if a >= front.len() {
                assert(all[a] == last[a - front.len()]);
                assert(all[b] == last[b - front.len()]);
            } else {
                lemma_cell_product_member(rows.drop_last(), cols, a);
                let i = choose|i: int| 0 <= i < rows.drop_last().len() && rows.drop_last()[i] == front[a].0;
                assert(rows[i] < rows[rows.len() - 1]);
                assert(all[b] == last[b - front.len()]);
            }
        }
    }
}

/// A stepped range with a positive step increases.
pub proof fn lemma_stepped_increasing(start: int, end: int, step: int)
    requires
        step > 0,
    ensures
        increasing(stepped(start, end, step)),
{
    lemma_stepped_exact(start, end, step);
    let s = stepped(start, end, step);
    assert forall|a: int, b: int| 0 <= a < b < s.len() implies #[trigger] s[a] < #[trigger] s[b] by {
        assert(a * step < b * step) by (nonlinear_arith)
            requires
                a < b,
                step > 0,
        ;
    }
}

/// Whether `(row, col)` lies in a grid of `width` columns and `height` rows.
pub open spec fn in_grid(row: int, col: int, width: int, height: int) -> bool {
    0 <= row < height && 0 <= col < width
}

/// The cells that are not on the border: rows `1..height - 1`, columns
/// `1..width - 1`, row by row, the order in which the solver's sweeps visit them.
pub open spec fn interior(width: int, height: int) -> Seq<(int, int)> {
    cell_product(stepped(1, height - 1, 1), stepped(1, width - 1, 1))
}

/// Converts the cells of an executable list to integer pairs.
pub open spec fn cells_view(cells: Seq<(usize, usize)>) -> Seq<(int, int)> {
    cells.map_values(|p: (usize, usize)| (p.0 as int, p.1 as int))
}

/// Pairs every row of `rows` with every column of `cols`, row by row.
pub fn cell_grid(rows: &Vec<usize>, cols: &Vec<usize>) -> (out: Vec<(usize, usize)>)
    ensures
        cells_view(out@) == cell_product(ints(rows@), ints(cols@)),
{
    let ghost rs = ints(rows@);
    let ghost cs = ints(cols@);
    let mut out: Vec<(usize, usize)> = Vec::new();
    let mut r: usize = 0;
    while r < rows.len()
        invariant
            r <= rows@.len(),
            rs == ints(rows@),
            cs == ints(cols@),
            cells_view(out@) == cell_product(rs.take(r as int), cs),
        decreases rows@.len() - r,
    {
        let row = rows[r];
        let ghost before = cells_view(out@);
        let mut c: usize = 0;
        while c < cols.len()
            invariant
                c <= cols@.len(),
                r < rows@.len(),
                row as int == rs[r as int],
                cs == ints(cols@),
                cells_view(out@) == before.add(row_cells(rs[r as int], cs.take(c as int))),
            decreases cols@.len() - c,
        {
            let col = cols[c];
            let ghost prev = cells_view(out@);
            out.push((row, col));
            assert(cs[c as int] == col as int);
            assert(cs.take(c as int + 1) =~= cs.take(c as int).push(col as int));
            assert(cells_view(out@) =~= prev.push((row as int, col as int)));
            assert(row_cells(rs[r as int], cs.take(c as int + 1)) =~= row_cells(
                rs[r as int],
                cs.take(c as int),
            ).push((row as int, col as int)));
            assert(cells_view(out@) =~= before.add(
                row_cells(rs[r as int], cs.take(c as int + 1)),
            ));
            c = c + 1;
        }
        proof {
            assert(cs.take(c as int) =~= cs);
            lemma_cell_product_next_row(rs, cs, r as int);
        }
        r = r + 1;
    }
    assert(rs.take(r as int) =~= rs);
    out
}

/// The interior cells of a `width` x `height` grid, in sweep order. The sweep
/// bounds are `height - 1` and, once a row is swept, `width - 1`, so a grid
/// without rows, or one with interior rows but no columns, has no sweep.
pub fn interior_cells(width: usize, height: usize) -> (out: Vec<(usize, usize)>)
    requires
        height >= 1,
        height >= 3 ==> width >= 1,
    ensures
        cells_view(out@) == interior(width as int, height as int),
        out@.len() == interior_extent(height as int) * interior_extent(width as int),
        forall|k: int|
            0 <= k < out@.len() ==> out@[k].0 == 1 + k / (width - 2) && out@[k].1 == 1 + k % (
                width - 2),
{
    let out = interior_sweep(width, height);
    proof {
        lemma_interior_exact(width as int, height as int);
        assert forall|k: int| 0 <= k < out@.len() implies out@[k].0 == 1 + k / (width - 2)
            && out@[k].1 == 1 + k % (width - 2) by {
            assert(cells_view(out@)[k] == interior(width as int, height as int)[k]);
        }
    }
    out
}

/// The interior cells, built as the product of the two sweep ranges.
fn interior_sweep(width: usize, height: usize) -> (out: Vec<(usize, usize)>)
    requires
        height >= 1,
        height >= 3 ==> width >= 1,
    ensures
        cells_view(out@) == interior(width as int, height as int),
{
    let rows = stepped_range(1, height - 1, 1);
    if rows.len() == 0 {
        let out: Vec<(usize, usize)> = Vec::new();
        assert(ints(rows@) =~= Seq::<int>::empty());
        assert(cells_view(out@) =~= interior(width as int, height as int));
        return out;
    }
    proof {
        assert(ints(rows@).len() == rows@.len());
        assert(stepped(1, height - 1, 1).len() > 0);
    }
    let cols = stepped_range(1, width - 1, 1);
    cell_grid(&rows, &cols)
}

/// Every interior cell has its four stencil neighbours inside the grid, so the
/// sweeps never read outside it.
pub proof fn lemma_interior_stencil_in_grid(width: int, height: int, k: int)
    requires
        0 <= k < interior(width, height).len(),
    ensures
        ({
            let (i, j) = interior(width, height)[k];
            &&& in_grid(i, j, width, height)
            &&& in_grid(i - 1, j, width, height)
            &&& in_grid(i + 1, j, width, height)
            &&& in_grid(i, j - 1, width, height)
            &&& in_grid(i, j + 1, width, height)
        }),
{
    let rs = stepped(1, height - 1, 1);
    let cs = stepped(1, width - 1, 1);
    lemma_cell_product_member(rs, cs, k);
    lemma_stepped_bounds(1, height - 1, 1);
    lemma_stepped_bounds(1, width - 1, 1);
    let p = interior(width, height)[k];
    let a = choose|a: int| 0 <= a < rs.len() && rs[a] == p.0;
    let b = choose|b: int| 0 <= b < cs.len() && cs[b] == p.1;
    assert(1 <= rs[a] < height - 1);
    assert(1 <= cs[b] < width - 1);
}

} // verus!

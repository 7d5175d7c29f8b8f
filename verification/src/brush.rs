//! The cells that a stroke of the density brush touches: those of the square
//! window around the stroke's centre, clipped to the grid, that lie strictly
//! closer to the centre than the brush radius.

use vstd::prelude::*;
use crate::stepping::{stepped, lemma_stepped_bounds, stepped_range, ints, lemma_stepped_exact};
use vstd::arithmetic::div_mod::lemma_fundamental_div_mod_converse;
use crate::cells::{
    cell_product, cells_view, cell_grid, in_grid, lemma_cell_product_member,
    lemma_cell_product_complete, lemma_cell_product_sorted, lemma_stepped_increasing,
    row_major_sorted, row_major_before,
};

verus! {

/// Whether `(row, col)` lies strictly within `radius` of `(cy, cx)`.
pub open spec fn within_radius(row: int, col: int, cx: int, cy: int, radius: int) -> bool {
    (col - cx) * (col - cx) + (row - cy) * (row - cy) < radius * radius
}

/// The cells of `cells` that lie strictly within `radius` of `(cy, cx)`, in order.
pub open spec fn keep_within(cells: Seq<(int, int)>, cx: int, cy: int, radius: int) -> Seq<(int, int)>
    decreases cells.len(),
{
    if cells.len() == 0 {
        Seq::empty()
    } else {
        let front = keep_within(cells.drop_last(), cx, cy, radius);
        let (r, c) = cells.last();
        if within_radius(r, c, cx, cy, radius) {
            front.push((r, c))
        } else {
            front
        }
    }
}

/// The smaller of two integers.
pub open spec fn min_int(a: int, b: int) -> int {
    if a <= b { a } else { b }
}

/// The square window of the brush: rows `y - radius .. y + radius` and columns
/// `x - radius .. x + radius`, cut off at the grid's far edges, row by row.
pub open spec fn brush_window(x: int, y: int, radius: int, width: int, height: int) -> Seq<(int, int)> {
    cell_product(
        stepped(y - radius, min_int(y + radius + 1, height), 1),
        stepped(x - radius, min_int(x + radius + 1, width), 1),
    )
}

/// The cells a brush stroke centred on column `x`, row `y` touches, row by row.
pub open spec fn brush_of(x: int, y: int, radius: int, width: int, height: int) -> Seq<(int, int)> {
    keep_within(brush_window(x, y, radius, width, height), x, y, radius)
}

/// The cells touched by a brush stroke of the given radius centred on column
/// `x`, row `y`, row by row. The window's near edges `y - radius` and, once a
/// row is reached, `x - radius` are computed without a sign, so they must not
/// fall below zero; its far edges must fit in `usize`.
pub fn brush_cells(x: usize, y: usize, radius: usize, width: usize, height: usize) -> (out: Vec<(usize, usize)>)
    requires
        y >= radius,
        y + radius + 1 <= usize::MAX,
        y - radius < height ==> x >= radius && x + radius + 1 <= usize::MAX,
    ensures
        cells_view(out@) == brush_of(x as int, y as int, radius as int, width as int, height as int),
{
    let row_end = if y + radius + 1 <= height { y + radius + 1 } else { height };
    let rows = stepped_range(y - radius, row_end, 1);
    if rows.len() == 0 {
        let out: Vec<(usize, usize)> = Vec::new();
        assert(ints(rows@) =~= Seq::<int>::empty());
        assert(brush_window(x as int, y as int, radius as int, width as int, height as int)
            =~= Seq::<(int, int)>::empty());
        assert(cells_view(out@) =~= brush_of(x as int, y as int, radius as int, width as int, height as int));
        return out;
    }
    proof {
        assert(ints(rows@).len() == rows@.len());
        assert(stepped(y - radius, row_end as int, 1).len() > 0);
    }
    let col_end = if x + radius + 1 <= width { x + radius + 1 } else { width };
    let cols = stepped_range(x - radius, col_end, 1);
    let window = cell_grid(&rows, &cols);
    let ghost win = cells_view(window@);
    assert(row_end as int == min_int(y + radius + 1, height as int));
    assert(col_end as int == min_int(x + radius + 1, width as int));
    assert(win == brush_window(x as int, y as int, radius as int, width as int, height as int));
    proof {
        lemma_stepped_bounds(y - radius, row_end as int, 1);
        lemma_stepped_bounds(x - radius, col_end as int, 1);
    }
    let r: u128 = radius as u128;
    assert(r * r <= u128::MAX) by (nonlinear_arith)
        requires
            r <= usize::MAX,
            usize::MAX < 0x1_0000_0000_0000_0000,
    ;
    let r2: u128 = r * r;
    let mut out: Vec<(usize, usize)> = Vec::new();
    let mut k: usize = 0;
    while k < window.len()
        invariant
            k <= window@.len(),
            win == cells_view(window@),
            win == brush_window(x as int, y as int, radius as int, width as int, height as int),
            win == cell_product(
                stepped(y - radius, row_end as int, 1),
                stepped(x - radius, col_end as int, 1),
            ),
            r == radius,
            r2 == r * r,
            forall|a: int| 0 <= a < stepped(y - radius, row_end as int, 1).len() ==>
                y - radius <= #[trigger] stepped(y - radius, row_end as int, 1)[a] < row_end,
            forall|a: int| 0 <= a < stepped(x - radius, col_end as int, 1).len() ==>
                x - radius <= #[trigger] stepped(x - radius, col_end as int, 1)[a] < col_end,
            row_end <= y + radius + 1,
            col_end <= x + radius + 1,
            cells_view(out@) == keep_within(win.take(k as int), x as int, y as int, radius as int),
        decreases window@.len() - k,
    {
        let (i, j) = window[k];
        let ghost before = cells_view(out@);
        proof {
            lemma_cell_product_member(
                stepped(y - radius, row_end as int, 1),
                stepped(x - radius, col_end as int, 1),
                k as int,
            );
            assert(win[k as int] == (i as int, j as int));
            assert(win.take(k as int + 1).drop_last() =~= win.take(k as int));
            let rs = stepped(y - radius, row_end as int, 1);
            let cs = stepped(x - radius, col_end as int, 1);
            let a = choose|a: int| 0 <= a < rs.len() && rs[a] == i;
            let b = choose|b: int| 0 <= b < cs.len() && cs[b] == j;
            assert(y - radius <= rs[a] < row_end);
            assert(x - radius <= cs[b] < col_end);
        }
        let dy: u128 = if i >= y { (i - y) as u128 } else { (y - i) as u128 };
        let dx: u128 = if j >= x { (j - x) as u128 } else { (x - j) as u128 };
        assert(dy * dy <= r * r) by (nonlinear_arith)
            requires dy <= r;
        assert(dx * dx <= r * r) by (nonlinear_arith)
            requires dx <= r;
        assert(dx * dx == (j - x) * (j - x)) by (nonlinear_arith)
            requires dx == j - x || dx == x - j;
        assert(dy * dy == (i - y) * (i - y)) by (nonlinear_arith)
            requires dy == i - y || dy == y - i;
        if dx * dx < r2 - dy * dy {
            out.push((i, j));
            assert(cells_view(out@) =~= before.push((i as int, j as int)));
        }
        k = k + 1;
    }
    assert(win.take(k as int) =~= win);
    out
}

/// Every touched cell lies in the grid and strictly within the radius of the
/// centre.
pub proof fn lemma_brush_cells_in_grid(x: int, y: int, radius: int, width: int, height: int, k: int)
    requires
        0 <= k < brush_of(x, y, radius, width, height).len(),
    ensures
        y - radius >= 0 && x - radius >= 0 ==> in_grid(
            brush_of(x, y, radius, width, height)[k].0,
            brush_of(x, y, radius, width, height)[k].1,
            width,
            height,
        ),
        within_radius(
            brush_of(x, y, radius, width, height)[k].0,
            brush_of(x, y, radius, width, height)[k].1,
            x,
            y,
            radius,
        ),
{
    let win = brush_window(x, y, radius, width, height);
    lemma_keep_within_from(win, x, y, radius, k);
    let m = choose|m: int| 0 <= m < win.len() && win[m] == brush_of(x, y, radius, width, height)[k];
    let rs = stepped(y - radius, min_int(y + radius + 1, height), 1);
    let cs = stepped(x - radius, min_int(x + radius + 1, width), 1);
    lemma_cell_product_member(rs, cs, m);
    lemma_stepped_bounds(y - radius, min_int(y + radius + 1, height), 1);
    lemma_stepped_bounds(x - radius, min_int(x + radius + 1, width), 1);
}

/// Each kept cell is a cell of the list that lies within the radius.
pub proof fn lemma_keep_within_from(cells: Seq<(int, int)>, cx: int, cy: int, radius: int, k: int)
    requires
        0 <= k < keep_within(cells, cx, cy, radius).len(),
    ensures
        exists|m: int| 0 <= m < cells.len() && cells[m] == keep_within(cells, cx, cy, radius)[k],
        within_radius(
            keep_within(cells, cx, cy, radius)[k].0,
            keep_within(cells, cx, cy, radius)[k].1,
            cx,
            cy,
            radius,
        ),
    decreases cells.len(),
{
    if cells.len() > 0 {
        let front = keep_within(cells.drop_last(), cx, cy, radius);
        if k < front.len() {
            lemma_keep_within_from(cells.drop_last(), cx, cy, radius, k);
            let m = choose|m: int| 0 <= m < cells.drop_last().len() && cells.drop_last()[m] == front[k];
            assert(cells[m] == front[k]);
        } else {
            assert(cells[cells.len() - 1] == cells.last());
        }
    }
}

/// Every cell of the list that lies within the radius is kept.
pub proof fn lemma_keep_within_complete(cells: Seq<(int, int)>, cx: int, cy: int, radius: int, m: int)
    requires
        0 <= m < cells.len(),
        within_radius(cells[m].0, cells[m].1, cx, cy, radius),
    ensures
        keep_within(cells, cx, cy, radius).contains(cells[m]),
    decreases cells.len(),
{
    let front = keep_within(cells.drop_last(), cx, cy, radius);
    if m == cells.len() - 1 {
        assert(keep_within(cells, cx, cy, radius)[front.len() as int] == cells[m]);
    } else {
        assert(cells.drop_last()[m] == cells[m]);
        lemma_keep_within_complete(cells.drop_last(), cx, cy, radius, m);
        let k = choose|k: int| 0 <= k < front.len() && front[k] == cells[m];
        assert(keep_within(cells, cx, cy, radius)[k] == cells[m]);
    }
}

/// Keeping the cells within the radius keeps them in row-major order.
pub proof fn lemma_keep_within_sorted(cells: Seq<(int, int)>, cx: int, cy: int, radius: int)
    requires
        row_major_sorted(cells),
    ensures
        row_major_sorted(keep_within(cells, cx, cy, radius)),
    decreases cells.len(),
{
    if cells.len() > 0 {
        let front = keep_within(cells.drop_last(), cx, cy, radius);
        let all = keep_within(cells, cx, cy, radius);
        assert(row_major_sorted(cells.drop_last())) by {
            assert forall|a: int, b: int| 0 <= a < b < cells.drop_last().len() implies row_major_before(
                #[trigger] cells.drop_last()[a],
                #[trigger] cells.drop_last()[b],
            ) by {
                assert(cells.drop_last()[a] == cells[a] && cells.drop_last()[b] == cells[b]);
            }
        }
        lemma_keep_within_sorted(cells.drop_last(), cx, cy, radius);
        assert forall|a: int, b: int| 0 <= a < b < all.len() implies row_major_before(
            #[trigger] all[a],
            #[trigger] all[b],
        ) by {
            if b < front.len() {
                assert(all[a] == front[a] && all[b] == front[b]);
            } else {
                lemma_keep_within_from(cells.drop_last(), cx, cy, radius, a);
                let m = choose|m: int| 0 <= m < cells.drop_last().len() && cells.drop_last()[m] == front[a];
                assert(cells[m] == front[a]);
                assert(all[b] == cells[cells.len() - 1]);
            }
        }
    }
}

/// A brush stroke centred on column `x`, row `y` (at least `radius` from the
/// top and left edges) touches exactly the cells `(i, j)` of the grid with
/// `(j - x)^2 + (i - y)^2 < radius^2`, each once, listed row by row.
pub proof fn lemma_brush_exact(x: int, y: int, radius: int, width: int, height: int)
    requires
        radius >= 0,
        x >= radius,
        y >= radius,
    ensures
        forall|i: int, j: int|
            #[trigger] brush_of(x, y, radius, width, height).contains((i, j)) <==> (0 <= i < height
                && 0 <= j < width && (j - x) * (j - x) + (i - y) * (i - y) < radius * radius),
        forall|a: int, b: int|
            0 <= a < b < brush_of(x, y, radius, width, height).len() ==> {
                let p = #[trigger] brush_of(x, y, radius, width, height)[a];
                let q = #[trigger] brush_of(x, y, radius, width, height)[b];
                p.0 < q.0 || (p.0 == q.0 && p.1 < q.1)
            },
{
    let rs = stepped(y - radius, min_int(y + radius + 1, height), 1);
    let cs = stepped(x - radius, min_int(x + radius + 1, width), 1);
    let win = brush_window(x, y, radius, width, height);
    let out = brush_of(x, y, radius, width, height);
    lemma_stepped_exact(y - radius, min_int(y + radius + 1, height), 1);
    lemma_stepped_exact(x - radius, min_int(x + radius + 1, width), 1);
    lemma_stepped_increasing(y - radius, min_int(y + radius + 1, height), 1);
    lemma_stepped_increasing(x - radius, min_int(x + radius + 1, width), 1);
    lemma_cell_product_sorted(rs, cs);
    lemma_keep_within_sorted(win, x, y, radius);
    assert forall|i: int, j: int| #[trigger] out.contains((i, j)) <==> (0 <= i < height && 0 <= j
        < width && (j - x) * (j - x) + (i - y) * (i - y) < radius * radius) by {
        if out.contains((i, j)) {
            let k = choose|k: int| 0 <= k < out.len() && out[k] == (i, j);
            lemma_brush_cells_in_grid(x, y, radius, width, height, k);
        }
        if 0 <= i < height && 0 <= j < width && (j - x) * (j - x) + (i - y) * (i - y) < radius
            * radius {
            assert(y - radius <= i <= y + radius) by (nonlinear_arith)
                requires
                    (j - x) * (j - x) + (i - y) * (i - y) < radius * radius,
                    radius >= 0,
            ;
            assert(x - radius <= j <= x + radius) by (nonlinear_arith)
                requires
                    (j - x) * (j - x) + (i - y) * (i - y) < radius * radius,
                    radius >= 0,
            ;
            lemma_fundamental_div_mod_converse(i - (y - radius), 1, i - (y - radius), 0);
            lemma_fundamental_div_mod_converse(j - (x - radius), 1, j - (x - radius), 0);
            assert(rs.contains(i));
            assert(cs.contains(j));
            lemma_cell_product_complete(rs, cs, i, j);
            let m = choose|m: int| 0 <= m < win.len() && win[m] == (i, j);
            lemma_keep_within_complete(win, x, y, radius, m);
        }
    }
}

} // verus!

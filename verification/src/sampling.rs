//! Where velocity arrows are drawn: a coarse lattice of sample cells, and the
//! 3 x 3 neighbourhood over which the velocity at each sample is averaged.

use vstd::prelude::*;
use crate::stepping::{stepped, lemma_stepped_bounds, stepped_range, ints, step_count, lemma_stepped_exact};
use vstd::arithmetic::div_mod::lemma_mod_bound;
use crate::cells::{
    cell_product, cells_view, cell_grid, in_grid, lemma_cell_product_member, lemma_cell_product_len,
    lemma_cell_product_at, lemma_cell_product_complete, row_major_before,
};

verus! {

/// The sample cells: rows `rate, 2 * rate, ...` below `height - rate` and, in
/// each, columns `rate, 2 * rate, ...` below `width - rate`, row by row.
pub open spec fn sample_lattice(width: int, height: int, rate: int) -> Seq<(int, int)> {
    cell_product(stepped(rate, height - rate, rate), stepped(rate, width - rate, rate))
}

/// The cells at which arrows are sampled. The bounds `height - rate` and, once
/// a row is sampled, `width - rate` must not fall below zero, and the step must
/// not be zero.
pub fn arrow_sample_points(width: usize, height: usize, sample_rate: usize) -> (out: Vec<(usize, usize)>)
    requires
        sample_rate > 0,
        height >= sample_rate,
        sample_rate < height - sample_rate ==> width >= sample_rate,
    ensures
        cells_view(out@) == sample_lattice(width as int, height as int, sample_rate as int),
        out@.len() == step_count(sample_rate as int, height - sample_rate, sample_rate as int)
            * step_count(sample_rate as int, width - sample_rate, sample_rate as int),
        forall|k: int|
            #![trigger out@[k]]
            0 <= k < out@.len() ==> {
                let nc = step_count(sample_rate as int, width - sample_rate, sample_rate as int);
                &&& out@[k].0 == sample_rate + (k / nc) * sample_rate
                &&& out@[k].1 == sample_rate + (k % nc) * sample_rate
            },
{
    let out = sample_grid(width, height, sample_rate);
    proof {
        lemma_sample_lattice_exact(width as int, height as int, sample_rate as int);
        assert forall|k: int| #![trigger out@[k]] 0 <= k < out@.len() implies {
            let nc = step_count(sample_rate as int, width - sample_rate, sample_rate as int);
            &&& out@[k].0 == sample_rate + (k / nc) * sample_rate
            &&& out@[k].1 == sample_rate + (k % nc) * sample_rate
        } by {
            assert(cells_view(out@)[k] == sample_lattice(
                width as int,
                height as int,
                sample_rate as int,
            )[k]);
        }
    }
    out
}

/// The sample cells, built as the product of the two stepped ranges.
fn sample_grid(width: usize, height: usize, sample_rate: usize) -> (out: Vec<(usize, usize)>)
    requires
        sample_rate > 0,
        height >= sample_rate,
        sample_rate < height - sample_rate ==> width >= sample_rate,
    ensures
        cells_view(out@) == sample_lattice(width as int, height as int, sample_rate as int),
{
    let rows = stepped_range(sample_rate, height - sample_rate, sample_rate);
    if rows.len() == 0 {
        let out: Vec<(usize, usize)> = Vec::new();
        assert(ints(rows@) =~= Seq::<int>::empty());
        assert(cells_view(out@) =~= sample_lattice(width as int, height as int, sample_rate as int));
        return out;
    }
    proof {
        assert(ints(rows@).len() == rows@.len());
        assert(stepped(sample_rate as int, height - sample_rate, sample_rate as int).len() > 0);
    }
    let cols = stepped_range(sample_rate, width - sample_rate, sample_rate);
    cell_grid(&rows, &cols)
}

/// The sample lattice, for a positive rate: one sample per pair of a row
/// `rate, 2 * rate, ...` below `height - rate` and a column `rate, 2 * rate,
/// ...` below `width - rate`, so `ceil((height - 2 * rate) / rate)` times
/// `ceil((width - 2 * rate) / rate)` samples; the `k`-th is in row
/// `rate + (k / nc) * rate` and column `rate + (k % nc) * rate`, with `nc`
/// samples per row; and a cell is a sample exactly when it is such a pair.
pub proof fn lemma_sample_lattice_exact(width: int, height: int, rate: int)
    requires
        rate > 0,
    ensures
        sample_lattice(width, height, rate).len() == (if rate < height - rate { (height - 2 * rate + rate - 1) / rate } else { 0 })
            * (if rate < width - rate { (width - 2 * rate + rate - 1) / rate } else { 0 }),
        forall|k: int|
            0 <= k < sample_lattice(width, height, rate).len() ==> #[trigger] sample_lattice(
                width,
                height,
                rate,
            )[k] == (
                rate + (k / (if rate < width - rate { (width - 2 * rate + rate - 1) / rate } else { 0 })) * rate,
                rate + (k % (if rate < width - rate { (width - 2 * rate + rate - 1) / rate } else { 0 })) * rate,
            ),
        forall|r: int, c: int|
            #[trigger] sample_lattice(width, height, rate).contains((r, c)) <==> (rate <= r < height
                - rate && (r - rate) % rate == 0 && rate <= c < width - rate && (c - rate) % rate
                == 0),
{
    let rs = stepped(rate, height - rate, rate);
    let cs = stepped(rate, width - rate, rate);
    let lat = sample_lattice(width, height, rate);
    lemma_stepped_exact(rate, height - rate, rate);
    lemma_stepped_exact(rate, width - rate, rate);
    lemma_cell_product_len(rs, cs);
    assert forall|k: int| 0 <= k < lat.len() implies #[trigger] lat[k] == (
        rate + (k / step_count(rate, width - rate, rate)) * rate,
        rate + (k % step_count(rate, width - rate, rate)) * rate,
    ) by {
        assert(cs.len() > 0) by (nonlinear_arith)
            requires
                0 <= k < rs.len() * cs.len(),
                cs.len() >= 0,
        ;
        lemma_cell_product_at(rs, cs, k);
        lemma_mod_bound(k, cs.len() as int);
    }
    assert forall|r: int, c: int| #[trigger] lat.contains((r, c)) <==> (rate <= r < height - rate
        && (r - rate) % rate == 0 && rate <= c < width - rate && (c - rate) % rate == 0) by {
        if lat.contains((r, c)) {
            let k = choose|k: int| 0 <= k < lat.len() && lat[k] == (r, c);
            lemma_cell_product_member(rs, cs, k);
        }
        if rate <= r < height - rate && (r - rate) % rate == 0 && rate <= c < width - rate && (c
            - rate) % rate == 0 {
            assert(rs.contains(r));
            assert(cs.contains(c));
            lemma_cell_product_complete(rs, cs, r, c);
        }
    }
}

/// The `k`-th cell of the 3 x 3 block centred on `(row, col)`, for `k` in
/// `0..9`: row offsets `-1, 0, 1` in turn, and column offsets `-1, 0, 1` within
/// each.
pub open spec fn block_cell(row: int, col: int, k: int) -> (int, int) {
    (row + k / 3 - 1, col + k % 3 - 1)
}

/// The cells `k, k + 1, ..., 8` of the block that lie in the grid, in order.
pub open spec fn block_from(row: int, col: int, width: int, height: int, k: int) -> Seq<(int, int)>
    decreases 9 - k,
{
    if k >= 9 {
        Seq::empty()
    } else {
        let (r, c) = block_cell(row, col, k);
        let here = if in_grid(r, c, width, height) {
            seq![(r, c)]
        } else {
            Seq::empty()
        };
        here.add(block_from(row, col, width, height, k + 1))
    }
}

/// The cells of the 3 x 3 block centred on `(row, col)` that lie in the grid.
pub open spec fn neighbourhood_of(row: int, col: int, width: int, height: int) -> Seq<(int, int)> {
    block_from(row, col, width, height, 0)
}

/// The cells of the 3 x 3 block centred on `(row, col)` that lie in the grid,
/// row offset first. The offsets are added in `i32`, so the centre must lie
/// below `i32::MAX`.
pub fn neighbourhood(row: usize, col: usize, width: usize, height: usize) -> (out: Vec<(usize, usize)>)
    requires
        row < i32::MAX,
        col < i32::MAX,
    ensures
        cells_view(out@) == neighbourhood_of(row as int, col as int, width as int, height as int),
{
    let mut out: Vec<(usize, usize)> = Vec::new();
    let mut k: usize = 0;
    while k < 9
        invariant
            k <= 9,
            row < i32::MAX,
            col < i32::MAX,
            cells_view(out@).add(block_from(row as int, col as int, width as int, height as int, k as int))
                == neighbourhood_of(row as int, col as int, width as int, height as int),
        decreases 9 - k,
    {
        let ghost before = cells_view(out@);
        let ghost rest = block_from(row as int, col as int, width as int, height as int, k as int + 1);
        let shifted_row = row + k / 3;
        let shifted_col = col + k % 3;
        if shifted_row >= 1 && shifted_row - 1 < height && shifted_col >= 1 && shifted_col - 1 < width {
            out.push((shifted_row - 1, shifted_col - 1));
            assert(cells_view(out@) =~= before.push((shifted_row - 1, shifted_col - 1)));
            assert(before.push((shifted_row - 1, shifted_col - 1)).add(rest) =~= before.add(
                seq![(shifted_row - 1, shifted_col - 1)].add(rest),
            ));
        } else {
            assert(block_from(row as int, col as int, width as int, height as int, k as int) =~= rest);
        }
        k = k + 1;
    }
    assert(cells_view(out@).add(Seq::<(int, int)>::empty()) =~= cells_view(out@));
    out
}

/// Every sample cell has its whole 3 x 3 block inside the grid, so the average
/// at a sample is always taken over nine cells.
pub proof fn lemma_sample_neighbourhood_full(width: int, height: int, rate: int, k: int)
    requires
        rate > 0,
        0 <= k < sample_lattice(width, height, rate).len(),
    ensures
        neighbourhood_of(
            sample_lattice(width, height, rate)[k].0,
            sample_lattice(width, height, rate)[k].1,
            width,
            height,
        ).len() == 9,
{
    let rs = stepped(rate, height - rate, rate);
    let cs = stepped(rate, width - rate, rate);
    lemma_cell_product_member(rs, cs, k);
    lemma_stepped_bounds(rate, height - rate, rate);
    lemma_stepped_bounds(rate, width - rate, rate);
    let p = sample_lattice(width, height, rate)[k];
    let a = choose|a: int| 0 <= a < rs.len() && rs[a] == p.0;
    let b = choose|b: int| 0 <= b < cs.len() && cs[b] == p.1;
    assert(rate <= rs[a] < height - rate);
    assert(rate <= cs[b] < width - rate);
    reveal_with_fuel(block_from, 10);
}

/// The cells `k, ..., 8` of the block that lie in the grid, and only those, are
/// listed by `block_from`, in order of `k`.
pub proof fn lemma_block_from_members(row: int, col: int, width: int, height: int, k: int)
    requires
        0 <= k <= 9,
    ensures
        forall|p: (int, int)|
            #[trigger] block_from(row, col, width, height, k).contains(p) <==> exists|kk: int|
                k <= kk < 9 && block_cell(row, col, kk) == p && in_grid(p.0, p.1, width, height),
        forall|a: int, b: int|
            0 <= a < b < block_from(row, col, width, height, k).len() ==> row_major_before(
                #[trigger] block_from(row, col, width, height, k)[a],
                #[trigger] block_from(row, col, width, height, k)[b],
            ),
        forall|a: int|
            0 <= a < block_from(row, col, width, height, k).len() && k > 0 ==> row_major_before(
                block_cell(row, col, k - 1),
                #[trigger] block_from(row, col, width, height, k)[a],
            ),
    decreases 9 - k,
{
    let s = block_from(row, col, width, height, k);
    if k < 9 {
        lemma_block_from_members(row, col, width, height, k + 1);
        let rest = block_from(row, col, width, height, k + 1);
        let c = block_cell(row, col, k);
        assert forall|p: (int, int)| #[trigger] s.contains(p) <==> exists|kk: int|
            k <= kk < 9 && block_cell(row, col, kk) == p && in_grid(p.0, p.1, width, height) by {
            if s.contains(p) {
                let i = choose|i: int| 0 <= i < s.len() && s[i] == p;
                if in_grid(c.0, c.1, width, height) && i == 0 {
                    assert(block_cell(row, col, k) == p);
                } else {
                    let off: int = if in_grid(c.0, c.1, width, height) { 1 } else { 0 };
                    assert(rest[i - off] == p);
                    assert(rest.contains(p));
                }
            }
            if exists|kk: int| k <= kk < 9 && block_cell(row, col, kk) == p && in_grid(p.0, p.1, width, height) {
                let kk = choose|kk: int| k <= kk < 9 && block_cell(row, col, kk) == p && in_grid(p.0, p.1, width, height);
                if kk == k {
                    assert(s[0] == p);
                } else {
                    assert(rest.contains(p));
                    let i = choose|i: int| 0 <= i < rest.len() && rest[i] == p;
                    let off: int = if in_grid(c.0, c.1, width, height) { 1 } else { 0 };
                    assert(s[i + off] == p);
                }
            }
        }
        assert forall|a: int| 0 <= a < s.len() implies row_major_before(c, #[trigger] s[a]) || (a == 0 && s[a] == c) by {
            if !(in_grid(c.0, c.1, width, height) && a == 0) {
                let off: int = if in_grid(c.0, c.1, width, height) { 1 } else { 0 };
                assert(s[a] == rest[a - off]);
                assert(rest.contains(s[a]));
                let kk = choose|kk: int| k + 1 <= kk < 9 && block_cell(row, col, kk) == s[a] && in_grid(s[a].0, s[a].1, width, height);
                assert(row_major_before(c, block_cell(row, col, kk)));
            }
        }
        assert forall|a: int, b: int| 0 <= a < b < s.len() implies row_major_before(
            #[trigger] s[a],
            #[trigger] s[b],
        ) by {
            let off: int = if in_grid(c.0, c.1, width, height) { 1 } else { 0 };
            if off == 1 && a == 0 {
                assert(s[b] == rest[b - 1]);
            } else {
                assert(s[a] == rest[a - off] && s[b] == rest[b - off]);
            }
        }
        if k > 0 {
            let prev = block_cell(row, col, k - 1);
            assert forall|a: int| 0 <= a < s.len() implies row_major_before(prev, #[trigger] s[a]) by {
                assert(row_major_before(prev, c));
            }
        }
    }
}

/// The neighbourhood of `(row, col)` is exactly the grid cells whose row and
/// column each differ from the centre's by at most one, each once, listed row
/// by row.
pub proof fn lemma_neighbourhood_exact(row: int, col: int, width: int, height: int)
    ensures
        forall|r: int, c: int|
            #[trigger] neighbourhood_of(row, col, width, height).contains((r, c)) <==> (0 <= r
                < height && 0 <= c < width && row - 1 <= r <= row + 1 && col - 1 <= c <= col + 1),
        forall|a: int, b: int|
            0 <= a < b < neighbourhood_of(row, col, width, height).len() ==> {
                let p = #[trigger] neighbourhood_of(row, col, width, height)[a];
                let q = #[trigger] neighbourhood_of(row, col, width, height)[b];
                p.0 < q.0 || (p.0 == q.0 && p.1 < q.1)
            },
{
    lemma_block_from_members(row, col, width, height, 0);
    let s = neighbourhood_of(row, col, width, height);
    assert forall|r: int, c: int| #[trigger] s.contains((r, c)) <==> (0 <= r < height && 0 <= c
        < width && row - 1 <= r <= row + 1 && col - 1 <= c <= col + 1) by {
        if 0 <= r < height && 0 <= c < width && row - 1 <= r <= row + 1 && col - 1 <= c <= col + 1 {
            let kk = 3 * (r - row + 1) + (c - col + 1);
            assert(block_cell(row, col, kk) == (r, c));
        }
    }
}

} // verus!

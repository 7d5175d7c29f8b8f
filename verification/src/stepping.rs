//! Stepped ranges: the values `start, start + step, ...` below `end`, as
//! `(start..end).step_by(step)` yields them.

use vstd::prelude::*;
use vstd::arithmetic::div_mod::{
    lemma_fundamental_div_mod, lemma_fundamental_div_mod_converse, lemma_mod_bound,
    lemma_mod_multiples_basic, lemma_mod_sub_multiples_vanish, lemma_small_mod,
};

verus! {

/// The values `start, start + step, start + 2 * step, ...` that lie below `end`.
pub open spec fn stepped(start: int, end: int, step: int) -> Seq<int>
    decreases (if start < end { end - start } else { 0 }),
{
    if start >= end || step <= 0 {
        Seq::empty()
    } else {
        seq![start].add(stepped(start + step, end, step))
    }
}

/// Every value of a stepped range lies in `[start, end)` and is `start` plus a
/// multiple of `step`.
pub proof fn lemma_stepped_bounds(start: int, end: int, step: int)
    requires
        step > 0,
    ensures
        forall|k: int|
            0 <= k < stepped(start, end, step).len() ==> {
                &&& start <= #[trigger] stepped(start, end, step)[k] < end
                &&& stepped(start, end, step)[k] == start + k * step
            },
    decreases (if start < end { end - start } else { 0 }),
{
    if start < end {
        lemma_stepped_bounds(start + step, end, step);
        let rest = stepped(start + step, end, step);
        assert forall|k: int| 0 <= k < stepped(start, end, step).len() implies {
            &&& start <= #[trigger] stepped(start, end, step)[k] < end
            &&& stepped(start, end, step)[k] == start + k * step
        } by {
            if k > 0 {
                assert(stepped(start, end, step)[k] == rest[k - 1]);
                assert((k - 1) * step + step == k * step) by (nonlinear_arith);
            }
        }
    }
}

/// With a unit step the range holds every integer of `[start, end)`.
pub proof fn lemma_stepped_unit_len(start: int, end: int)
    ensures
        stepped(start, end, 1).len() == if start < end { end - start } else { 0 },
    decreases (if start < end { end - start } else { 0 }),
{
    if start < end {
        lemma_stepped_unit_len(start + 1, end);
    }
}

/// How many values `(start..end).step_by(step)` yields: `end - start` divided
/// by `step`, rounded up, or none when `start` is not below `end`.
pub open spec fn step_count(start: int, end: int, step: int) -> int {
    if start < end {
        (end - start + step - 1) / step
    } else {
        0
    }
}

/// Taking the first value off a non-empty stepped range leaves one value fewer.
pub proof fn lemma_step_count_next(start: int, end: int, step: int)
    requires
        step > 0,
        start < end,
    ensures
        step_count(start, end, step) == 1 + step_count(start + step, end, step),
{
    let d = end - start;
    if start + step < end {
        let x = d - 1;
        let q = x / step;
        let r = x % step;
        lemma_fundamental_div_mod(x, step);
        lemma_mod_bound(x, step);
        assert(x + step == (q + 1) * step + r) by (nonlinear_arith)
            requires
                x == step * q + r,
        ;
        lemma_fundamental_div_mod_converse(x + step, step, q + 1, r);
        assert(end - (start + step) + step - 1 == x);
    } else {
        assert(d + step - 1 == 1 * step + (d - 1));
        lemma_fundamental_div_mod_converse(d + step - 1, step, 1, d - 1);
    }
}

/// A stepped range holds `step_count` values.
pub proof fn lemma_stepped_len(start: int, end: int, step: int)
    requires
        step > 0,
    ensures
        stepped(start, end, step).len() == step_count(start, end, step),
    decreases (if start < end { end - start } else { 0 }),
{
    if start < end {
        lemma_stepped_len(start + step, end, step);
        lemma_step_count_next(start, end, step);
    }
}

/// Every `v` of `[start, end)` that is `start` plus a multiple of `step` is in
/// the range.
pub proof fn lemma_stepped_complete(start: int, end: int, step: int, v: int)
    requires
        step > 0,
        start <= v < end,
        (v - start) % step == 0,
    ensures
        stepped(start, end, step).contains(v),
    decreases v - start,
{
    let s = stepped(start, end, step);
    if v == start {
        assert(s[0] == start);
    } else {
        if v - start < step {
            lemma_small_mod((v - start) as nat, step as nat);
        }
        lemma_mod_sub_multiples_vanish(v - start, step);
        assert(v - (start + step) == -step + (v - start));
        lemma_stepped_complete(start + step, end, step, v);
        let rest = stepped(start + step, end, step);
        let i = choose|i: int| 0 <= i < rest.len() && rest[i] == v;
        assert(s[i + 1] == rest[i]);
    }
}

/// What a stepped range is, for a positive step: `step_count` values, the
/// `k`-th being `start + k * step`, and exactly the values of `[start, end)`
/// that are `start` plus a multiple of `step`.
pub proof fn lemma_stepped_exact(start: int, end: int, step: int)
    requires
        step > 0,
    ensures
        stepped(start, end, step).len() == (if start < end { (end - start + step - 1) / step } else { 0 }),
        forall|k: int|
            0 <= k < stepped(start, end, step).len() ==> #[trigger] stepped(start, end, step)[k]
                == start + k * step,
        forall|v: int|
            #[trigger] stepped(start, end, step).contains(v) <==> (start <= v < end && (v - start)
                % step == 0),
{
    lemma_stepped_len(start, end, step);
    lemma_stepped_bounds(start, end, step);
    let s = stepped(start, end, step);
    assert forall|v: int| #[trigger] s.contains(v) <==> (start <= v < end && (v - start) % step == 0) by {
        if s.contains(v) {
            let k = choose|k: int| 0 <= k < s.len() && s[k] == v;
            lemma_mod_multiples_basic(k, step);
            assert(v - start == k * step);
        }
        if start <= v < end && (v - start) % step == 0 {
            lemma_stepped_complete(start, end, step, v);
        }
    }
}

/// The values of an executable list of indices as integers.
pub open spec fn ints(v: Seq<usize>) -> Seq<int> {
    v.map_values(|x: usize| x as int)
}

/// The values of `(start..end).step_by(step)`, in order.
pub fn stepped_range(start: usize, end: usize, step: usize) -> (out: Vec<usize>)
    requires
        step > 0,
    ensures
        ints(out@) == stepped(start as int, end as int, step as int),
        out@.len() == step_count(start as int, end as int, step as int),
        forall|k: int| 0 <= k < out@.len() ==> out@[k] == start + k * step,
{
    let mut out: Vec<usize> = Vec::new();
    let mut cur: usize = start;
    while cur < end
        invariant
            step > 0,
            ints(out@).add(stepped(cur as int, end as int, step as int))
                == stepped(start as int, end as int, step as int),
        decreases end - cur,
    {
        let ghost before = ints(out@);
        let ghost rest = stepped(cur as int + step as int, end as int, step as int);
        assert(stepped(cur as int, end as int, step as int) == seq![cur as int].add(rest));
        out.push(cur);
        assert(ints(out@) =~= before.push(cur as int));
        assert(before.add(seq![cur as int].add(rest)) =~= before.push(cur as int).add(rest));
        if end - cur <= step {
            assert(rest =~= Seq::<int>::empty());
            cur = end;
        } else {
            cur = cur + step;
        }
    }
    assert(stepped(cur as int, end as int, step as int) =~= Seq::<int>::empty());
    assert(ints(out@).add(Seq::<int>::empty()) =~= ints(out@));
    proof {
        lemma_stepped_exact(start as int, end as int, step as int);
        assert forall|k: int| 0 <= k < out@.len() implies out@[k] == start + k * step by {
            assert(ints(out@)[k] == out@[k] as int);
        }
    }
    out
}

} // verus!

//! Schedules of the multi-run research analyses: the rolling train/test
//! windows of a walk-forward run, the variants of a parameter grid, and the
//! lag schedule of a lookahead-bias profile.

use vstd::prelude::*;
use vstd::string::*;
use crate::text::{decimal, push_decimal};

verus! {

// ---------------------------------------------------------------------------
// Walk-forward windows
// ---------------------------------------------------------------------------

/// One walk-forward window over the rows of the date axis. Training covers
/// rows `train_start..test_start`, testing `test_start..test_end`; the
/// signals of each leg are evaluated from its `*_eval_start` row (warmup).
#[derive(Debug, Clone, Copy, PartialEq, Eq, Structural)]
pub struct WindowPlan {
    pub train_start: usize,
    pub test_start: usize,
    pub test_end: usize,
    pub train_eval_start: usize,
    pub test_eval_start: usize,
}

/// `a - b`, floored at zero.
pub open spec fn sat_sub(a: int, b: int) -> int {
    if a >= b { a - b } else { 0 }
}

/// The window that starts at row `start`.
pub open spec fn spec_window(n: int, train: int, test: int, warmup: int, start: int) -> WindowPlan {
    WindowPlan {
        train_start: start as usize,
        test_start: (start + train) as usize,
        test_end: (if start + train + test < n { start + train + test } else { n }) as usize,
        train_eval_start: sat_sub(start, warmup) as usize,
        test_eval_start: sat_sub(start + train, warmup) as usize,
    }
}

/// The windows from row `start` on: a window starts wherever training
/// leaves at least one test row, and the next one starts where its test
/// range ends.
pub open spec fn spec_windows(n: int, train: int, test: int, warmup: int, start: int) -> Seq<WindowPlan>
    decreases n - start,
{
    if train > 0 && test > 0 && 0 <= start && start + train < n {
        let end = if start + train + test < n { start + train + test } else { n };
        seq![spec_window(n, train, test, warmup, start)] + spec_windows(n, train, test, warmup, end)
    } else {
        Seq::empty()
    }
}

/// The walk-forward parameters are usable: there is something to select
/// from and both window lengths are positive.
pub fn check_walkforward_params(n_variants: usize, train_days: usize, test_days: usize) -> (r: Result<(), String>)
    ensures
        r is Ok <==> (n_variants > 0 && train_days > 0 && test_days > 0),
        r matches Err(m) ==> m@ == if n_variants == 0 {
            "no variants to select from"@
        } else {
            "train_days and test_days must be > 0"@
        },
{
    if n_variants == 0 {
        return Err(String::from_str("no variants to select from"));
    }
    if train_days == 0 || test_days == 0 {
        return Err(String::from_str("train_days and test_days must be > 0"));
    }
    Ok(())
}

/// Message when the loaded axis is too short for one window.
pub open spec fn too_few_days_message(n: nat, train: nat) -> Seq<char> {
    "only "@ + decimal(n) + " trading days loaded; need > train_days ("@ + decimal(train) + ")"@
}

proof fn lemma_windows_shape(n: int, train: int, test: int, warmup: int, start: int)
    requires
        train > 0,
        test > 0,
        0 <= start,
        n <= usize::MAX,
        warmup >= 0,
    ensures
        ({
            let ws = spec_windows(n, train, test, warmup, start);
            &&& forall|k: int| 0 <= k < ws.len() ==> {
                let w = #[trigger] ws[k];
                &&& start <= w.train_start
                &&& w.test_start == w.train_start + train
                &&& w.test_start < w.test_end <= n
                &&& w.test_end <= w.test_start + test
                &&& (w.test_end == w.test_start + test || w.test_end == n)
                &&& w.train_eval_start == sat_sub(w.train_start as int, warmup)
                &&& w.test_eval_start == sat_sub(w.test_start as int, warmup)
            }
            &&& forall|k: int| 0 <= k < ws.len() - 1 ==> (#[trigger] ws[k]).test_end == ws[k + 1].train_start
            &&& ws.len() > 0 ==> ws[0].train_start == start
            &&& (ws.len() == 0 <==> start + train >= n)
            &&& ws.len() > 0 ==> ws.last().test_end + train >= n
        }),
    decreases n - start,
{
    if start + train < n {
        let w = spec_window(n, train, test, warmup, start);
        let end = if start + train + test < n { start + train + test } else { n };
        assert(w.test_end as int == end);
        lemma_windows_shape(n, train, test, warmup, end);
        let rest = spec_windows(n, train, test, warmup, end);
        let ws = spec_windows(n, train, test, warmup, start);
        assert(ws == seq![w] + rest);
        assert forall|k: int| 0 <= k < ws.len() - 1 implies (#[trigger] ws[k]).test_end == ws[k + 1].train_start by {
            if k > 0 {
                assert(ws[k] == rest[k - 1]);
                assert(ws[k + 1] == rest[k]);
            } else {
                assert(ws[1] == rest[0]);
            }
        }
        assert forall|k: int| 0 <= k < ws.len() implies start <= (#[trigger] ws[k]).train_start by {
            if k > 0 {
                assert(ws[k] == rest[k - 1]);
            }
        }
        if rest.len() > 0 {
            assert(ws.last() == rest.last());
        }
    }
}

/// The walk-forward windows over a date axis of `n_dates` rows: the first
/// trains on rows `0..train_days`, each tests on the `test_days` rows after
/// its training (fewer at the end of the axis), and the next window starts
/// where the previous test ended; windows stop once training would leave no
/// test row. Fails when the axis has no row after the first training range.
pub fn walkforward_windows(n_dates: usize, train_days: usize, test_days: usize, warmup: usize) -> (r: Result<Vec<WindowPlan>, String>)
    requires
        train_days > 0,
        test_days > 0,
    ensures
        r is Ok <==> n_dates > train_days,
        r matches Ok(ws) ==> ws@ == spec_windows(n_dates as int, train_days as int, test_days as int, warmup as int, 0),
        r matches Ok(ws) ==> ws@.len() >= 1 && ws@[0].train_start == 0,
        r matches Ok(ws) ==> forall|k: int| 0 <= k < ws@.len() ==> {
            let w = #[trigger] ws@[k];
            &&& w.test_start == w.train_start + train_days
            &&& w.test_start < w.test_end <= n_dates
            &&& (w.test_end == w.test_start + test_days || w.test_end == n_dates)
            &&& w.train_eval_start == sat_sub(w.train_start as int, warmup as int)
            &&& w.test_eval_start == sat_sub(w.test_start as int, warmup as int)
        },
        r matches Ok(ws) ==> forall|k: int| 0 <= k < ws@.len() - 1 ==> (#[trigger] ws@[k]).test_end == ws@[k + 1].train_start,
        r matches Ok(ws) ==> ws@.last().test_end + train_days >= n_dates,
        r matches Err(m) ==> m@ == too_few_days_message(n_dates as nat, train_days as nat),
{
    if n_dates <= train_days {
        let mut m = String::from_str("only ");
        push_decimal(&mut m, n_dates as u64);
        m.append(" trading days loaded; need > train_days (");
        push_decimal(&mut m, train_days as u64);
        m.append(")");
        return Err(m);
    }
    let ghost n = n_dates as int;
    let ghost tr = train_days as int;
    let ghost te = test_days as int;
    let ghost wu = warmup as int;
    let mut out: Vec<WindowPlan> = Vec::new();
    let mut start: usize = 0;
    proof { lemma_windows_shape(n, tr, te, wu, 0); }
    while start < n_dates && n_dates - start > train_days
        invariant
            train_days > 0,
            test_days > 0,
            start <= n_dates,
            out@ + spec_windows(n, tr, te, wu, start as int) == spec_windows(n, tr, te, wu, 0),
            n == n_dates,
            tr == train_days,
            te == test_days,
            wu == warmup,
        decreases n_dates - start,
    {
        let test_start = start + train_days;
        let test_end = if n_dates - test_start > test_days { test_start + test_days } else { n_dates };
        let w = WindowPlan {
            train_start: start,
            test_start,
            test_end,
            train_eval_start: if start >= warmup { start - warmup } else { 0 },
            test_eval_start: if test_start >= warmup { test_start - warmup } else { 0 },
        };
        proof {
            assert(w == spec_window(n, tr, te, wu, start as int));
            let rest = spec_windows(n, tr, te, wu, test_end as int);
            assert(spec_windows(n, tr, te, wu, start as int) == seq![w] + rest);
            assert(out@.push(w) + rest =~= out@ + (seq![w] + rest));
        }
        out.push(w);
        start = test_end;
    }
    proof {
        assert(spec_windows(n, tr, te, wu, start as int) =~= Seq::<WindowPlan>::empty());
        assert(out@ + Seq::<WindowPlan>::empty() =~= out@);
    }
    Ok(out)
}

// ---------------------------------------------------------------------------
// Parameter grids
// ---------------------------------------------------------------------------

/// Each tuple of `tuples`, with every value `0..n` put in front, the
/// first value's tuples first.
pub open spec fn prefix_all(tuples: Seq<Seq<usize>>, n: nat) -> Seq<Seq<usize>>
    decreases n,
{
    if n == 0 {
        Seq::empty()
    } else {
        prefix_all(tuples, (n - 1) as nat) + tuples.map_values(|t: Seq<usize>| seq![(n - 1) as usize] + t)
    }
}

/// Every index tuple of a grid with `lens[k]` values on axis `k`, in
/// odometer order (the last axis varies fastest); one empty tuple for a
/// grid with no axes.
pub open spec fn grid_tuples(lens: Seq<usize>) -> Seq<Seq<usize>>
    decreases lens.len(),
{
    if lens.len() == 0 {
        seq![Seq::<usize>::empty()]
    } else {
        prefix_all(grid_tuples(lens.drop_first()), lens[0] as nat)
    }
}

/// Product of the axis lengths.
pub open spec fn grid_size(lens: Seq<usize>) -> nat
    decreases lens.len(),
{
    if lens.len() == 0 {
        1
    } else {
        lens[0] as nat * grid_size(lens.drop_first())
    }
}

proof fn lemma_prefix_all(tuples: Seq<Seq<usize>>, n: nat)
    ensures
        prefix_all(tuples, n).len() == n * tuples.len(),
        forall|i: int, j: int| 0 <= i < n && 0 <= j < tuples.len() ==>
            #[trigger] prefix_all(tuples, n)[i * tuples.len() + j] == seq![i as usize] + tuples[j],
    decreases n,
{
    if n > 0 {
        let m = (n - 1) as nat;
        lemma_prefix_all(tuples, m);
        let p = prefix_all(tuples, m);
        let t = tuples.len() as int;
        assert(p.len() == m * t);
        assert(prefix_all(tuples, n).len() == p.len() + t);
        assert(n * t == m * t + t) by (nonlinear_arith)
            requires
                n == m + 1,
        ;
        assert forall|i: int, j: int| 0 <= i < n && 0 <= j < tuples.len() implies
            #[trigger] prefix_all(tuples, n)[i * tuples.len() + j] == seq![i as usize] + tuples[j] by {
            if i < m {
                assert(i * t + j < m * t) by (nonlinear_arith)
                    requires
                        0 <= i < m,
                        0 <= j < t,
                ;
                assert(i * t + j >= 0) by (nonlinear_arith)
                    requires
                        0 <= i,
                        0 <= j,
                        t >= 0,
                ;
            } else {
                assert(i * t == m * t);
            }
        }
    } else {
        assert(n * tuples.len() == 0) by (nonlinear_arith)
            requires
                n == 0,
        ;
    }
}

/// The grid holds exactly the product of its axis lengths, and tuple
/// `i * (size of the later axes) + j` is `i` followed by later tuple `j`.
pub proof fn law_grid_size(lens: Seq<usize>)
    ensures
        grid_tuples(lens).len() == grid_size(lens),
        lens.len() > 0 ==> forall|i: int, j: int| 0 <= i < lens[0] && 0 <= j < grid_size(lens.drop_first()) ==>
            #[trigger] grid_tuples(lens)[i * grid_size(lens.drop_first()) + j]
                == seq![i as usize] + grid_tuples(lens.drop_first())[j],
    decreases lens.len(),
{
    if lens.len() > 0 {
        law_grid_size(lens.drop_first());
        lemma_prefix_all(grid_tuples(lens.drop_first()), lens[0] as nat);
        assert(lens[0] as nat * grid_size(lens.drop_first()) == grid_size(lens));
    }
}

/// Every tuple of a grid has one in-range index per axis.
pub proof fn law_grid_tuples_in_range(lens: Seq<usize>)
    ensures
        forall|m: int| 0 <= m < grid_tuples(lens).len() ==> (#[trigger] grid_tuples(lens)[m]).len() == lens.len()
            && forall|k: int| 0 <= k < lens.len() ==> grid_tuples(lens)[m][k] < lens[k],
    decreases lens.len(),
{
    if lens.len() > 0 {
        let rest = lens.drop_first();
        law_grid_tuples_in_range(rest);
        law_grid_size(lens);
        law_grid_size(rest);
        let inner = grid_tuples(rest);
        let s = grid_size(rest) as int;
        lemma_prefix_all(inner, lens[0] as nat);
        assert forall|m: int| 0 <= m < grid_tuples(lens).len() implies (#[trigger] grid_tuples(lens)[m]).len() == lens.len()
            && forall|k: int| 0 <= k < lens.len() ==> grid_tuples(lens)[m][k] < lens[k] by {
            let i = m / s;
            let j = m % s;
            assert(s > 0) by (nonlinear_arith)
                requires
                    m < lens[0] as int * s,
                    0 <= m,
                    s >= 0,
            ;
            assert(m == i * s + j && 0 <= j < s) by (nonlinear_arith)
                requires
                    s > 0,
                    i == m / s,
                    j == m % s,
            ;
            assert(0 <= i < lens[0]) by (nonlinear_arith)
                requires
                    s > 0,
                    0 <= m < lens[0] as int * s,
                    i == m / s,
            ;
            let t = grid_tuples(lens)[m];
            assert(t == seq![i as usize] + inner[j]);
            assert forall|k: int| 0 <= k < lens.len() implies t[k] < lens[k] by {
                if k > 0 {
                    assert(t[k] == inner[j][k - 1]);
                    assert(rest[k - 1] == lens[k]);
                }
            }
        }
    }
}

/// Every index tuple of a grid with `lens[k]` values on axis `k`, in
/// odometer order (see [`grid_tuples`]). Every axis must have a value.
pub fn grid_indices(lens: &Vec<usize>) -> (r: Vec<Vec<usize>>)
    requires
        forall|k: int| 0 <= k < lens@.len() ==> lens@[k] > 0,
        grid_size(lens@) <= usize::MAX,
    ensures
        r@.len() == grid_size(lens@),
        forall|m: int| 0 <= m < r@.len() ==> (#[trigger] r@[m])@ == grid_tuples(lens@)[m],
{
    let mut cur: Vec<Vec<usize>> = Vec::new();
    cur.push(Vec::new());
    let mut k: usize = lens.len();
    proof {
        assert(lens@.subrange(k as int, lens@.len() as int) =~= Seq::<usize>::empty());
        assert(cur@[0]@ =~= Seq::<usize>::empty());
    }
    while k > 0
        invariant
            k <= lens@.len(),
            forall|q: int| 0 <= q < lens@.len() ==> lens@[q] > 0,
            grid_size(lens@) <= usize::MAX,
            cur@.len() == grid_tuples(lens@.subrange(k as int, lens@.len() as int)).len(),
            forall|m: int| 0 <= m < cur@.len() ==> (#[trigger] cur@[m])@
                == grid_tuples(lens@.subrange(k as int, lens@.len() as int))[m],
        decreases k,
    {
        let ghost tail = lens@.subrange(k as int, lens@.len() as int);
        let ghost next_tail = lens@.subrange(k - 1, lens@.len() as int);
        proof {
            assert(next_tail.drop_first() =~= tail);
            assert(next_tail[0] == lens@[k - 1]);
            law_grid_size(next_tail);
            law_grid_size(tail);
            lemma_grid_size_suffix(lens@, k - 1);
            lemma_prefix_all(grid_tuples(tail), lens@[k - 1] as nat);
        }
        let width = lens[k - 1];
        let mut next: Vec<Vec<usize>> = Vec::new();
        let mut i: usize = 0;
        while i < width
            invariant
                i <= width,
                width == lens@[k - 1],
                cur@.len() == grid_tuples(tail).len(),
                forall|m: int| 0 <= m < cur@.len() ==> (#[trigger] cur@[m])@ == grid_tuples(tail)[m],
                width * cur@.len() <= usize::MAX,
                next@.len() == i * cur@.len(),
                forall|m: int| 0 <= m < next@.len() ==> (#[trigger] next@[m])@
                    == prefix_all(grid_tuples(tail), width as nat)[m],
            decreases width - i,
        {
            let mut j: usize = 0;
            while j < cur.len()
                invariant
                    i < width,
                    width == lens@[k - 1],
                    cur@.len() == grid_tuples(tail).len(),
                    forall|m: int| 0 <= m < cur@.len() ==> (#[trigger] cur@[m])@ == grid_tuples(tail)[m],
                    width * cur@.len() <= usize::MAX,
                    j <= cur@.len(),
                    next@.len() == i * cur@.len() + j,
                    forall|m: int| 0 <= m < next@.len() ==> (#[trigger] next@[m])@
                        == prefix_all(grid_tuples(tail), width as nat)[m],
                decreases cur@.len() - j,
            {
                proof {
                    assert(i * cur@.len() + j < width * cur@.len()) by (nonlinear_arith)
                        requires
                            i < width,
                            j < cur@.len(),
                    ;
                }
                let mut t: Vec<usize> = Vec::new();
                t.push(i);
                let src = &cur[j];
                let mut q: usize = 0;
                while q < src.len()
                    invariant
                        t@.len() == q + 1,
                        q <= src@.len(),
                        t@ == seq![i] + src@.subrange(0, q as int),
                    decreases src@.len() - q,
                {
                    t.push(src[q]);
                    proof {
                        assert(t@ =~= seq![i] + src@.subrange(0, q + 1));
                    }
                    q = q + 1;
                }
                proof {
                    lemma_prefix_all(grid_tuples(tail), width as nat);
                    assert(src@.subrange(0, src@.len() as int) =~= src@);
                    assert(t@ == seq![i] + grid_tuples(tail)[j as int]);
                    assert(prefix_all(grid_tuples(tail), width as nat)[i * grid_tuples(tail).len() + j]
                        == seq![(i as int) as usize] + grid_tuples(tail)[j as int]);
                }
                next.push(t);
                j = j + 1;
            }
            proof {
                assert((i + 1) * cur@.len() == i * cur@.len() + cur@.len()) by (nonlinear_arith);
            }
            i = i + 1;
        }
        proof {
            assert(grid_tuples(next_tail) == prefix_all(grid_tuples(tail), width as nat));
        }
        cur = next;
        k = k - 1;
    }
    proof {
        assert(lens@.subrange(0, lens@.len() as int) =~= lens@);
        law_grid_size(lens@);
    }
    cur
}

proof fn lemma_grid_size_suffix(lens: Seq<usize>, k: int)
    requires
        0 <= k <= lens.len(),
        forall|q: int| 0 <= q < lens.len() ==> lens[q] > 0,
    ensures
        grid_size(lens.subrange(k, lens.len() as int)) <= grid_size(lens),
        grid_size(lens.subrange(k, lens.len() as int)) >= 1,
    decreases k,
{
    if k > 0 {
        lemma_grid_size_suffix(lens.drop_first(), k - 1);
        assert(lens.drop_first().subrange(k - 1, lens.len() - 1) =~= lens.subrange(k, lens.len() as int));
        let s = grid_size(lens.drop_first());
        assert(lens[0] as int * s >= s) by (nonlinear_arith)
            requires
                lens[0] >= 1,
                s >= 0,
        ;
    } else {
        assert(lens.subrange(0, lens.len() as int) =~= lens);
        lemma_grid_size_positive(lens);
    }
}

proof fn lemma_grid_size_positive(lens: Seq<usize>)
    requires
        forall|q: int| 0 <= q < lens.len() ==> lens[q] > 0,
    ensures
        grid_size(lens) >= 1,
    decreases lens.len(),
{
    if lens.len() > 0 {
        lemma_grid_size_positive(lens.drop_first());
        let s = grid_size(lens.drop_first());
        assert(lens[0] as int * s >= 1) by (nonlinear_arith)
            requires
                lens[0] >= 1,
                s >= 1,
        ;
    }
}


/// `name=value` for each axis, joined with `,` (the variant label of a grid
/// tuple; `values[k]` holds the rendered values of axis `k`).
pub open spec fn spec_variant_name(names: Seq<Seq<char>>, values: Seq<Seq<Seq<char>>>, idx: Seq<usize>) -> Seq<char>
    decreases names.len(),
{
    if names.len() == 0 {
        Seq::empty()
    } else {
        let n = (names.len() - 1) as int;
        let head = spec_variant_name(names.drop_last(), values, idx);
        let part = names[n] + "="@ + values[n][idx[n] as int];
        if n == 0 { part } else { head + ","@ + part }
    }
}

/// The label of grid tuple `idx`: `name=value` per axis, comma-joined; a
/// grid without axes has the single variant `base`.
pub fn variant_name(names: &Vec<String>, values: &Vec<Vec<String>>, idx: &Vec<usize>) -> (r: String)
    requires
        values@.len() == names@.len(),
        idx@.len() == names@.len(),
        forall|k: int| 0 <= k < names@.len() ==> idx@[k] < (#[trigger] values@[k])@.len(),
    ensures
        r@ == if names@.len() == 0 {
            "base"@
        } else {
            spec_variant_name(
                names@.map_values(|s: String| s@),
                values@.map_values(|v: Vec<String>| v@.map_values(|s: String| s@)),
                idx@,
            )
        },
{
    let ghost nv = names@.map_values(|s: String| s@);
    let ghost vv = values@.map_values(|v: Vec<String>| v@.map_values(|s: String| s@));
    if names.len() == 0 {
        return String::from_str("base");
    }
    let mut out = String::new();
    let mut k: usize = 0;
    while k < names.len()
        invariant
            k <= names@.len(),
            values@.len() == names@.len(),
            idx@.len() == names@.len(),
            forall|q: int| 0 <= q < names@.len() ==> idx@[q] < (#[trigger] values@[q])@.len(),
            nv == names@.map_values(|s: String| s@),
            vv == values@.map_values(|v: Vec<String>| v@.map_values(|s: String| s@)),
            out@ == spec_variant_name(nv.subrange(0, k as int), vv, idx@),
        decreases names@.len() - k,
    {
        if k > 0 {
            out.append(",");
        }
        out.append(names[k].as_str());
        out.append("=");
        let row = &values[k];
        out.append(row[idx[k]].as_str());
        proof {
            let pre = nv.subrange(0, k + 1);
            assert(pre.drop_last() =~= nv.subrange(0, k as int));
            assert(pre[k as int] == names@[k as int]@);
            assert(vv[k as int] == values@[k as int]@.map_values(|s: String| s@));
            assert(vv[k as int][idx@[k as int] as int] == row@[idx@[k as int] as int]@);
            if k == 0 {
                assert(out@ =~= spec_variant_name(pre, vv, idx@));
            } else {
                assert(out@ =~= spec_variant_name(pre, vv, idx@));
            }
        }
        k = k + 1;
    }
    assert(nv.subrange(0, names@.len() as int) =~= nv);
    out
}

// ---------------------------------------------------------------------------
// Lookahead-bias lags
// ---------------------------------------------------------------------------

/// The default lags (in trading days) of a lookahead profile.
pub const PROFILE_SHIFTS: [usize; 6] = [1, 2, 3, 5, 10, 21];

/// A single lookahead check needs a positive lag.
pub fn check_shift_days(shift_days: usize) -> (r: Result<(), String>)
    ensures
        r is Ok <==> shift_days > 0,
        r matches Err(m) ==> m@ == "shift_days must be > 0"@,
{
    if shift_days == 0 {
        Err(String::from_str("shift_days must be > 0"))
    } else {
        Ok(())
    }
}

/// Strictly increasing.
pub open spec fn strictly_increasing(s: Seq<usize>) -> bool {
    forall|i: int, j: int| 0 <= i < j < s.len() ==> s[i] < s[j]
}

fn insert_ascending(v: &mut Vec<usize>, x: usize)
    requires
        strictly_increasing(old(v)@),
    ensures
        strictly_increasing(final(v)@),
        forall|y: usize| final(v)@.contains(y) <==> (old(v)@.contains(y) || y == x),
{
    let mut i: usize = 0;
    while i < v.len() && v[i] < x
        invariant
            i <= v@.len(),
            v@ == old(v)@,
            strictly_increasing(v@),
            forall|j: int| 0 <= j < i ==> v@[j] < x,
        decreases v@.len() - i,
    {
        i = i + 1;
    }
    if i < v.len() && v[i] == x {
        proof {
            assert(v@[i as int] == x);
            assert(v@.contains(x));
        }
        return;
    }
    let ghost before = v@;
    v.insert(i, x);
    proof {
        assert(v@ =~= before.subrange(0, i as int).push(x) + before.subrange(i as int, before.len() as int));
        assert forall|a: int, b: int| 0 <= a < b < v@.len() implies v@[a] < v@[b] by {
            if b < i {
            } else if b == i {
            } else if a < i {
                assert(v@[b] == before[b - 1]);
                assert(before[b - 1] >= before[i as int]);
            } else if a == i {
                assert(v@[b] == before[b - 1]);
            } else {
                assert(v@[a] == before[a - 1]);
                assert(v@[b] == before[b - 1]);
            }
        }
        assert forall|y: usize| v@.contains(y) <==> (before.contains(y) || y == x) by {
            if v@.contains(y) {
                let q = choose|q: int| 0 <= q < v@.len() && v@[q] == y;
                if q < i {
                    assert(before[q] == y);
                } else if q > i {
                    assert(before[q - 1] == y);
                }
            }
            if before.contains(y) {
                let q = choose|q: int| 0 <= q < before.len() && before[q] == y;
                if q < i {
                    assert(v@[q] == y);
                } else {
                    assert(v@[q + 1] == y);
                }
            }
            if y == x {
                assert(v@[i as int] == x);
            }
        }
        assert(before == old(v)@);
        assert(forall|y: usize| v@.contains(y) <==> (old(v)@.contains(y) || y == x));
    }
}

/// The lags of a lookahead profile: sorted ascending with duplicates
/// dropped. Fails on an empty list or on a zero lag.
pub fn profile_shifts(shifts: &Vec<usize>) -> (r: Result<Vec<usize>, String>)
    ensures
        r is Ok <==> (shifts@.len() > 0 && !shifts@.contains(0usize)),
        r matches Ok(v) ==> strictly_increasing(v@)
            && forall|x: usize| v@.contains(x) <==> shifts@.contains(x),
        r matches Err(m) ==> m@ == if shifts@.len() == 0 {
            "profile needs at least one shift"@
        } else {
            "shifts must be > 0"@
        },
{
    if shifts.len() == 0 {
        return Err(String::from_str("profile needs at least one shift"));
    }
    let mut out: Vec<usize> = Vec::new();
    let mut i: usize = 0;
    while i < shifts.len()
        invariant
            i <= shifts@.len(),
            strictly_increasing(out@),
            forall|x: usize| out@.contains(x) <==> shifts@.subrange(0, i as int).contains(x),
            forall|j: int| 0 <= j < i ==> shifts@[j] != 0,
        decreases shifts@.len() - i,
    {
        if shifts[i] == 0 {
            assert(shifts@[i as int] == 0);
            return Err(String::from_str("shifts must be > 0"));
        }
        insert_ascending(&mut out, shifts[i]);
        proof {
            let pre = shifts@.subrange(0, i + 1);
            assert forall|x: usize| pre.contains(x) <==> (shifts@.subrange(0, i as int).contains(x) || x == shifts@[i as int]) by {
                if pre.contains(x) {
                    let q = choose|q: int| 0 <= q < pre.len() && pre[q] == x;
                    if q < i {
                        assert(shifts@.subrange(0, i as int)[q] == x);
                    }
                }
                if shifts@.subrange(0, i as int).contains(x) {
                    let q = choose|q: int| 0 <= q < i && shifts@.subrange(0, i as int)[q] == x;
                    assert(pre[q] == x);
                }
                if x == shifts@[i as int] {
                    assert(pre[i as int] == x);
                }
            }
        }
        i = i + 1;
    }
    assert(shifts@.subrange(0, shifts@.len() as int) =~= shifts@);
    assert(!shifts@.contains(0usize));
    Ok(out)
}

} // verus!

//! Union-of-days assembly: per-symbol `(day, cell)` series become one panel
//! whose rows are the sorted union of all days and whose columns follow the
//! symbol list; a symbol without a value on a day gets a missing cell.

use vstd::prelude::*;
use std::collections::HashMap;
use crate::align::{insert_sorted, strictly_ascending};
use crate::panel::{
    Panel, MISSING, names, clone_names, grid_filled, grid_set, grid_at, grid_wf, grid_shape, grid_cells,
    lemma_set_at, lemma_filled_at,
};

verus! {

broadcast use vstd::std_specs::hash::group_hash_axioms;

/// The rows of a series whose day lies in `[from, to]`, in order.
pub open spec fn spec_in_window(rows: Seq<(i32, u64)>, from: i32, to: i32) -> Seq<(i32, u64)>
    decreases rows.len(),
{
    if rows.len() == 0 {
        Seq::empty()
    } else {
        let rest = spec_in_window(rows.drop_last(), from, to);
        let p = rows.last();
        if from <= p.0 && p.0 <= to { rest.push(p) } else { rest }
    }
}

/// Keep the rows of a series whose day lies in `[from, to]` (inclusive).
pub fn keep_window(rows: &Vec<(i32, u64)>, from: i32, to: i32) -> (r: Vec<(i32, u64)>)
    ensures
        r@ == spec_in_window(rows@, from, to),
{
    let mut out: Vec<(i32, u64)> = Vec::new();
    let mut i: usize = 0;
    while i < rows.len()
        invariant
            i <= rows@.len(),
            out@ == spec_in_window(rows@.subrange(0, i as int), from, to),
        decreases rows@.len() - i,
    {
        let (d, v) = rows[i];
        proof {
            let s = rows@.subrange(0, i + 1);
            assert(s.drop_last() =~= rows@.subrange(0, i as int));
            assert(s.last() == (d, v));
        }
        if from <= d && d <= to {
            out.push((d, v));
        }
        i = i + 1;
    }
    assert(rows@.subrange(0, rows@.len() as int) =~= rows@);
    out
}

/// The cell a series holds for day `d`: the value of its last row on that
/// day, or missing.
pub open spec fn series_value(rows: Seq<(i32, u64)>, d: i32) -> u64
    decreases rows.len(),
{
    if rows.len() == 0 {
        MISSING
    } else if rows.last().0 == d {
        rows.last().1
    } else {
        series_value(rows.drop_last(), d)
    }
}

/// Some series holds a row on day `d`.
pub open spec fn some_series_has(per_symbol: Seq<Vec<(i32, u64)>>, d: i32) -> bool {
    exists|c: int, k: int| 0 <= c < per_symbol.len() && 0 <= k < per_symbol[c]@.len() && (#[trigger] per_symbol[c]@[k]).0 == d
}

/// `p` is the union-of-days assembly of `per_symbol` under `symbols`: rows
/// are the ascending union of all days, columns follow `symbols`, and each
/// cell is the series' value on that day (its last row there) or missing.
pub open spec fn is_assembly(p: &Panel, symbols: Seq<String>, per_symbol: Seq<Vec<(i32, u64)>>) -> bool {
    &&& p.wf()
    &&& strictly_ascending(p.dates@)
    &&& forall|d: i32| p.dates@.contains(d) <==> some_series_has(per_symbol, d)
    &&& names(p.symbols@) == names(symbols)
    &&& forall|i: int, j: int| 0 <= i < p.dates@.len() && 0 <= j < symbols.len() ==> #[trigger] p.at(i, j)
        == series_value(per_symbol[j]@, p.dates@[i])
}

/// Assemble per-symbol series (one per symbol, in order) into a panel:
/// rows = sorted union of all days, columns = `symbols`, each cell the
/// series' value on that day (its last row on the day) or missing.
pub fn assemble(symbols: &Vec<String>, per_symbol: &Vec<Vec<(i32, u64)>>) -> (p: Panel)
    requires
        per_symbol@.len() == symbols@.len(),
        symbols@.len() <= isize::MAX,
        total_rows(per_symbol@) <= isize::MAX,
        total_rows(per_symbol@) * symbols@.len() <= isize::MAX,
    ensures
        is_assembly(&p, symbols@, per_symbol@),
{
    // Sorted union of all days.
    let mut dates: Vec<i32> = Vec::new();
    let mut c: usize = 0;
    while c < per_symbol.len()
        invariant
            c <= per_symbol@.len(),
            strictly_ascending(dates@),
            dates@.len() <= total_rows(per_symbol@.subrange(0, c as int)),
            forall|d: i32| dates@.contains(d) <==> some_series_has(per_symbol@.subrange(0, c as int), d),
        decreases per_symbol@.len() - c,
    {
        let rows = &per_symbol[c];
        let mut k: usize = 0;
        while k < rows.len()
            invariant
                c < per_symbol@.len(),
                rows == &per_symbol@[c as int],
                k <= rows@.len(),
                strictly_ascending(dates@),
                dates@.len() <= total_rows(per_symbol@.subrange(0, c as int)) + k,
                forall|d: i32| dates@.contains(d) <==> (some_series_has(per_symbol@.subrange(0, c as int), d)
                    || exists|q: int| 0 <= q < k && (#[trigger] rows@[q]).0 == d),
            decreases rows@.len() - k,
        {
            let ghost before = dates@;
            insert_sorted(&mut dates, rows[k].0);
            proof {
                lemma_insert_len_bound(before, dates@, rows@[k as int].0);
                assert forall|d: i32| dates@.contains(d) <==> (some_series_has(per_symbol@.subrange(0, c as int), d)
                    || exists|q: int| 0 <= q < k + 1 && (#[trigger] rows@[q]).0 == d) by {
                    if d == rows@[k as int].0 {
                        assert(rows@[k as int].0 == d);
                    }
                    if exists|q: int| 0 <= q < k + 1 && (#[trigger] rows@[q]).0 == d {
                        let q = choose|q: int| 0 <= q < k + 1 && (#[trigger] rows@[q]).0 == d;
                        if q < k {
                        }
                    }
                }
            }
            k = k + 1;
        }
        proof {
            let pre = per_symbol@.subrange(0, c + 1);
            assert(pre.drop_last() =~= per_symbol@.subrange(0, c as int));
            assert(pre.last() == per_symbol@[c as int]);
            assert(total_rows(pre) == total_rows(per_symbol@.subrange(0, c as int)) + rows@.len());
            assert forall|d: i32| dates@.contains(d) <==> some_series_has(pre, d) by {
                if some_series_has(pre, d) {
                    let (cc, kk) = choose|cc: int, kk: int| 0 <= cc < pre.len() && 0 <= kk < pre[cc]@.len() && (#[trigger] pre[cc]@[kk]).0 == d;
                    if cc < c {
                        assert(per_symbol@.subrange(0, c as int)[cc] == pre[cc]);
                        assert(some_series_has(per_symbol@.subrange(0, c as int), d));
                    } else {
                        assert(rows@[kk].0 == d);
                    }
                }
                if some_series_has(per_symbol@.subrange(0, c as int), d) {
                    let (cc, kk) = choose|cc: int, kk: int| 0 <= cc < c && 0 <= kk < per_symbol@.subrange(0, c as int)[cc]@.len() && (#[trigger] per_symbol@.subrange(0, c as int)[cc]@[kk]).0 == d;
                    assert(pre[cc] == per_symbol@.subrange(0, c as int)[cc]);
                    assert(pre[cc]@[kk].0 == d);
                }
                if exists|q: int| 0 <= q < rows@.len() && (#[trigger] rows@[q]).0 == d {
                    let q = choose|q: int| 0 <= q < rows@.len() && (#[trigger] rows@[q]).0 == d;
                    assert(pre[c as int]@[q].0 == d);
                }
            }
        }
        c = c + 1;
    }
    assert(per_symbol@.subrange(0, per_symbol@.len() as int) =~= per_symbol@);
    // Row of every day.
    let n = dates.len();
    let mut row_of: HashMap<i32, usize> = HashMap::new();
    let mut i: usize = 0;
    while i < n
        invariant
            i <= n,
            n == dates@.len(),
            strictly_ascending(dates@),
            forall|d: i32| #[trigger] row_of@.contains_key(d) <==> exists|q: int| 0 <= q < i && dates@[q] == d,
            forall|d: i32| #[trigger] row_of@.contains_key(d) ==> row_of@[d] < i && dates@[row_of@[d] as int] == d,
        decreases n - i,
    {
        row_of.insert(dates[i], i);
        i = i + 1;
    }
    let nc = symbols.len();
    proof {
        assert(n * nc <= total_rows(per_symbol@) * nc) by (nonlinear_arith)
            requires
                n <= total_rows(per_symbol@),
        ;
    }
    let mut data = grid_filled(n, nc, MISSING);
    proof { lemma_filled_at(data, MISSING); }
    let mut c: usize = 0;
    while c < nc
        invariant
            c <= nc,
            nc == symbols@.len(),
            nc == per_symbol@.len(),
            n == dates@.len(),
            strictly_ascending(dates@),
            forall|d: i32| dates@.contains(d) <==> some_series_has(per_symbol@, d),
            forall|d: i32| #[trigger] row_of@.contains_key(d) <==> exists|q: int| 0 <= q < n && dates@[q] == d,
            forall|d: i32| #[trigger] row_of@.contains_key(d) ==> row_of@[d] < n && dates@[row_of@[d] as int] == d,
            grid_shape(data) == (n as nat, nc as nat),
            grid_wf(data),
            forall|q: int, j: int| 0 <= q < n && 0 <= j < nc ==> #[trigger] grid_at(data, q, j)
                == if j < c { series_value(per_symbol@[j]@, dates@[q]) } else { MISSING },
        decreases nc - c,
    {
        let rows = &per_symbol[c];
        let mut k: usize = 0;
        while k < rows.len()
            invariant
                c < nc,
                nc == symbols@.len(),
                nc == per_symbol@.len(),
                rows == &per_symbol@[c as int],
                n == dates@.len(),
                strictly_ascending(dates@),
                forall|d: i32| dates@.contains(d) <==> some_series_has(per_symbol@, d),
                forall|d: i32| #[trigger] row_of@.contains_key(d) <==> exists|q: int| 0 <= q < n && dates@[q] == d,
                forall|d: i32| #[trigger] row_of@.contains_key(d) ==> row_of@[d] < n && dates@[row_of@[d] as int] == d,
                k <= rows@.len(),
                grid_shape(data) == (n as nat, nc as nat),
                grid_wf(data),
                forall|q: int, j: int| 0 <= q < n && 0 <= j < nc ==> #[trigger] grid_at(data, q, j)
                    == if j < c { series_value(per_symbol@[j]@, dates@[q]) } else if j == c {
                    series_value(rows@.subrange(0, k as int), dates@[q])
                } else { MISSING },
            decreases rows@.len() - k,
        {
            let (d, v) = rows[k];
            proof {
                assert(some_series_has(per_symbol@, d)) by {
                    assert(per_symbol@[c as int]@[k as int].0 == d);
                }
                let q = choose|q: int| 0 <= q < dates@.len() && dates@[q] == d;
                assert(dates@[q] == d);
                assert(row_of@.contains_key(d));
            }
            let r = *row_of.get(&d).unwrap();
            let ghost before = data;
            grid_set(&mut data, r, c, v);
            proof {
                lemma_set_at(before, data, r as int, c as int, v);
                let s = rows@.subrange(0, k + 1);
                assert(s.drop_last() =~= rows@.subrange(0, k as int));
                assert(s.last() == (d, v));
                assert forall|q: int, j: int| 0 <= q < n && 0 <= j < nc implies #[trigger] grid_at(data, q, j)
                    == if j < c { series_value(per_symbol@[j]@, dates@[q]) } else if j == c {
                    series_value(s, dates@[q])
                } else { MISSING } by {
                    if j == c {
                        if q == r {
                        } else {
                            // Days are distinct, so another row is another day.
                            assert(dates@[q] != d);
                        }
                    }
                }
            }
            k = k + 1;
        }
        proof {
            assert(rows@.subrange(0, rows@.len() as int) =~= rows@);
        }
        c = c + 1;
    }
    let syms = clone_names(symbols);
    assert(syms@.len() == names(syms@).len());
    assert(names(symbols@).len() == symbols@.len());
    Panel { dates, symbols: syms, data }
}

/// Total number of rows across all series.
pub open spec fn total_rows(per_symbol: Seq<Vec<(i32, u64)>>) -> nat
    decreases per_symbol.len(),
{
    if per_symbol.len() == 0 {
        0
    } else {
        total_rows(per_symbol.drop_last()) + per_symbol.last()@.len()
    }
}

/// Total number of rows across all series, when it fits a `usize`.
pub fn total_rows_of(per_symbol: &Vec<Vec<(i32, u64)>>) -> (r: Option<usize>)
    ensures
        r matches Some(n) ==> n == total_rows(per_symbol@),
        r is None ==> total_rows(per_symbol@) > usize::MAX,
{
    let mut sum: usize = 0;
    let mut c: usize = 0;
    while c < per_symbol.len()
        invariant
            c <= per_symbol@.len(),
            sum == total_rows(per_symbol@.subrange(0, c as int)),
        decreases per_symbol@.len() - c,
    {
        proof {
            let pre = per_symbol@.subrange(0, c + 1);
            assert(pre.drop_last() =~= per_symbol@.subrange(0, c as int));
        }
        let n = per_symbol[c].len();
        if n > usize::MAX - sum {
            proof {
                lemma_total_rows_prefix(per_symbol@, c + 1);
            }
            return None;
        }
        sum = sum + n;
        c = c + 1;
    }
    assert(per_symbol@.subrange(0, per_symbol@.len() as int) =~= per_symbol@);
    Some(sum)
}

proof fn lemma_total_rows_prefix(s: Seq<Vec<(i32, u64)>>, k: int)
    requires
        0 <= k <= s.len(),
    ensures
        total_rows(s.subrange(0, k)) <= total_rows(s),
    decreases s.len() - k,
{
    if k < s.len() {
        lemma_total_rows_prefix(s, k + 1);
        let pre = s.subrange(0, k + 1);
        assert(pre.drop_last() =~= s.subrange(0, k));
    } else {
        assert(s.subrange(0, k) =~= s);
    }
}

proof fn lemma_insert_len_bound(before: Seq<i32>, after: Seq<i32>, x: i32)
    requires
        strictly_ascending(before),
        strictly_ascending(after),
        forall|y: i32| after.contains(y) <==> (before.contains(y) || y == x),
    ensures
        after.len() <= before.len() + 1,
{
    let sa = after.to_set();
    let sb = before.to_set().insert(x);
    assert(sa.subset_of(sb)) by {
        assert forall|y: i32| sa.contains(y) implies sb.contains(y) by {
            assert(after.contains(y));
        }
    }
    vstd::seq_lib::seq_to_set_is_finite(before);
    vstd::set_lib::lemma_len_subset(sa, sb);
    before.lemma_cardinality_of_set();
    assert(after.no_duplicates()) by {
        assert forall|i: int, j: int| 0 <= i < after.len() && 0 <= j < after.len() && i != j implies after[i] != after[j] by {
            if i < j {
            } else {
            }
        }
    }
    after.unique_seq_to_set();
}

pub(crate) proof fn lemma_ascending_unique(a: Seq<i32>, b: Seq<i32>)
    requires
        strictly_ascending(a),
        strictly_ascending(b),
        forall|x: i32| a.contains(x) <==> b.contains(x),
    ensures
        a == b,
    decreases a.len(),
{
    if a.len() == 0 {
        if b.len() > 0 {
            assert(b.contains(b[0]));
        }
        assert(a =~= b);
    } else {
        assert(a.contains(a[0]));
        let j = choose|j: int| 0 <= j < b.len() && b[j] == a[0];
        assert(b.contains(b[0]));
        let i = choose|i: int| 0 <= i < a.len() && a[i] == b[0];
        if j > 0 {
            assert(b[0] < b[j]);
            if i > 0 {
                assert(a[0] < a[i]);
            }
        }
        assert(a[0] == b[0]);
        let a1 = a.drop_first();
        let b1 = b.drop_first();
        assert forall|x: i32| a1.contains(x) <==> b1.contains(x) by {
            if a1.contains(x) {
                let k = choose|k: int| 0 <= k < a1.len() && a1[k] == x;
                assert(a[k + 1] == x && a[0] < a[k + 1]);
                assert(a.contains(x));
                let m = choose|m: int| 0 <= m < b.len() && b[m] == x;
                assert(m != 0);
                assert(b1[m - 1] == x);
            }
            if b1.contains(x) {
                let k = choose|k: int| 0 <= k < b1.len() && b1[k] == x;
                assert(b[k + 1] == x && b[0] < b[k + 1]);
                assert(b.contains(x));
                let m = choose|m: int| 0 <= m < a.len() && a[m] == x;
                assert(m != 0);
                assert(a1[m - 1] == x);
            }
        }
        lemma_ascending_unique(a1, b1);
        assert(a =~= seq![a[0]] + a1);
        assert(b =~= seq![b[0]] + b1);
    }
}

/// The union-of-days assembly is unique: two panels that are both the
/// assembly of the same series have the same days, symbols, shape and
/// cells.
pub proof fn law_assembly_unique(p: &Panel, q: &Panel, symbols: Seq<String>, per_symbol: Seq<Vec<(i32, u64)>>)
    requires
        is_assembly(p, symbols, per_symbol),
        is_assembly(q, symbols, per_symbol),
    ensures
        p.dates@ == q.dates@,
        names(p.symbols@) == names(q.symbols@),
        grid_shape(p.data) == grid_shape(q.data),
        grid_cells(p.data) == grid_cells(q.data),
{
    assert forall|x: i32| p.dates@.contains(x) <==> q.dates@.contains(x) by {
        assert(p.dates@.contains(x) <==> some_series_has(per_symbol, x));
        assert(q.dates@.contains(x) <==> some_series_has(per_symbol, x));
    }
    lemma_ascending_unique(p.dates@, q.dates@);
    let rows = p.dates@.len() as int;
    let cols = symbols.len() as int;
    assert(names(p.symbols@).len() == p.symbols@.len());
    assert(names(symbols).len() == symbols.len());
    assert(names(q.symbols@).len() == q.symbols@.len());
    assert(grid_shape(p.data) == grid_shape(q.data));
    let pc = grid_cells(p.data);
    let qc = grid_cells(q.data);
    assert forall|k: int| 0 <= k < pc.len() implies pc[k] == qc[k] by {
        let r = k / cols;
        let c = k % cols;
        assert(cols > 0) by {
            if cols == 0 {
                assert(rows * cols == 0) by (nonlinear_arith)
                    requires
                        cols == 0,
                ;
            }
        }
        vstd::arithmetic::div_mod::lemma_fundamental_div_mod(k, cols);
        assert(0 <= c < cols);
        assert(0 <= r < rows) by (nonlinear_arith)
            requires
                k == cols * r + c,
                0 <= c < cols,
                0 <= k < rows * cols,
                cols > 0,
        ;
        assert(k == r * cols + c) by (nonlinear_arith)
            requires
                k == cols * r + c,
        ;
        assert(p.at(r, c) == series_value(per_symbol[c]@, p.dates@[r]));
        assert(q.at(r, c) == series_value(per_symbol[c]@, q.dates@[r]));
    }
    assert(pc =~= qc);
}

} // verus!

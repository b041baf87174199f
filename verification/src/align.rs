//! Reshape two panels onto a shared index before an elementwise op: rows are
//! the sorted union of their dates, columns the symbols of the left panel
//! that the right one also has (left order). Absent cells become missing.

use vstd::prelude::*;
use std::collections::HashMap;
use crate::panel::{
    Panel, CellGrid, MISSING, names, grid_filled, grid_set, grid_at, grid_rows, grid_cols, grid_wf,
    grid_shape, lemma_set_at, lemma_filled_at,
};
use crate::rebalance::{last_row_of, lemma_last_row_of};
use crate::text::str_eq;

verus! {

broadcast use vstd::std_specs::hash::group_hash_axioms;

/// Strictly ascending days (sorted, no repeats).
pub open spec fn strictly_ascending(s: Seq<i32>) -> bool {
    forall|i: int, j: int| 0 <= i < j < s.len() ==> s[i] < s[j]
}

/// Insert `x` into a strictly ascending list unless it is already there.
pub fn insert_sorted(v: &mut Vec<i32>, x: i32)
    requires
        strictly_ascending(old(v)@),
    ensures
        strictly_ascending(final(v)@),
        forall|y: i32| final(v)@.contains(y) <==> (old(v)@.contains(y) || y == x),
{
    let mut lo: usize = 0;
    let mut hi: usize = v.len();
    while lo < hi
        invariant
            lo <= hi <= v@.len(),
            v@ == old(v)@,
            strictly_ascending(v@),
            forall|k: int| 0 <= k < lo ==> v@[k] < x,
            forall|k: int| hi <= k < v@.len() ==> v@[k] >= x,
        decreases hi - lo,
    {
        let mid = lo + (hi - lo) / 2;
        if v[mid] < x {
            lo = mid + 1;
        } else {
            hi = mid;
        }
    }
    if lo < v.len() && v[lo] == x {
        assert(v@[lo as int] == x);
        assert(v@.contains(x));
        assert(v@ == old(v)@);
        return;
    }
    let ghost before = v@;
    v.insert(lo, x);
    proof {
        assert forall|i: int, j: int| 0 <= i < j < v@.len() implies v@[i] < v@[j] by {
            if j < lo {
            } else if i < lo && j == lo {
            } else if i < lo {
                assert(v@[j] == before[j - 1]);
            } else if i == lo {
                assert(v@[j] == before[j - 1]);
            } else {
                assert(v@[i] == before[i - 1] && v@[j] == before[j - 1]);
            }
        }
        assert forall|y: i32| v@.contains(y) <==> (before.contains(y) || y == x) by {
            if v@.contains(y) {
                let k = choose|k: int| #![auto] 0 <= k < v@.len() && v@[k] == y;
                if k < lo {
                    assert(before[k] == y);
                } else if k > lo {
                    assert(before[k - 1] == y);
                }
            }
            if before.contains(y) {
                let k = choose|k: int| #![auto] 0 <= k < before.len() && before[k] == y;
                if k < lo {
                    assert(v@[k] == y);
                } else {
                    assert(v@[k + 1] == y);
                }
            }
            if y == x {
                assert(v@[lo as int] == x);
            }
        }
        assert(before == old(v)@);
    }
}

proof fn lemma_prefix_contains(s: Seq<i32>, i: int)
    requires
        0 <= i < s.len(),
    ensures
        forall|y: i32| s.subrange(0, i + 1).contains(y) <==> (s.subrange(0, i).contains(y) || y == s[i]),
{
    let p = s.subrange(0, i + 1);
    let q = s.subrange(0, i);
    assert forall|y: i32| p.contains(y) <==> (q.contains(y) || y == s[i]) by {
        if p.contains(y) {
            let k = choose|k: int| 0 <= k < p.len() && #[trigger] p[k] == y;
            if k < i {
                assert(q[k] == y);
            }
        }
        if q.contains(y) {
            let k = choose|k: int| 0 <= k < q.len() && #[trigger] q[k] == y;
            assert(p[k] == y);
        }
        if y == s[i] {
            assert(p[i] == y);
        }
    }
}

/// Sorted union of two date lists.
pub fn union_dates(a: &Vec<i32>, b: &Vec<i32>) -> (r: Vec<i32>)
    ensures
        strictly_ascending(r@),
        forall|y: i32| r@.contains(y) <==> (a@.contains(y) || b@.contains(y)),
{
    let mut out: Vec<i32> = Vec::new();
    let mut i: usize = 0;
    while i < a.len()
        invariant
            i <= a@.len(),
            strictly_ascending(out@),
            forall|y: i32| out@.contains(y) <==> a@.subrange(0, i as int).contains(y),
        decreases a@.len() - i,
    {
        insert_sorted(&mut out, a[i]);
        proof { lemma_prefix_contains(a@, i as int); }
        i = i + 1;
    }
    assert(a@.subrange(0, a@.len() as int) =~= a@);
    let mut j: usize = 0;
    while j < b.len()
        invariant
            j <= b@.len(),
            strictly_ascending(out@),
            forall|y: i32| out@.contains(y) <==> (a@.contains(y) || b@.subrange(0, j as int).contains(y)),
        decreases b@.len() - j,
    {
        insert_sorted(&mut out, b[j]);
        proof { lemma_prefix_contains(b@, j as int); }
        j = j + 1;
    }
    assert(b@.subrange(0, b@.len() as int) =~= b@);
    out
}

/// The last position of a name in a list, when it occurs.
pub open spec fn last_name_of(v: Seq<Seq<char>>, s: Seq<char>) -> Option<int> {
    if exists|i: int| 0 <= i < v.len() && v[i] == s {
        Some(choose|i: int| 0 <= i < v.len() && v[i] == s && forall|j: int| i < j < v.len() ==> v[j] != s)
    } else {
        None
    }
}

proof fn lemma_last_name_of(v: Seq<Seq<char>>, s: Seq<char>, i: int)
    requires
        0 <= i < v.len(),
        v[i] == s,
        forall|j: int| i < j < v.len() ==> v[j] != s,
    ensures
        last_name_of(v, s) == Some(i),
{
    let k = choose|k: int| #![auto] 0 <= k < v.len() && v[k] == s && forall|j: int| k < j < v.len() ==> v[j] != s;
    assert(0 <= k < v.len() && v[k] == s && forall|j: int| k < j < v.len() ==> v[j] != s);
    if k < i {
        assert(v[i] != s);
    }
    if i < k {
        assert(v[k] != s);
    }
}

proof fn lemma_last_name_of_bounds(v: Seq<Seq<char>>, s: Seq<char>)
    ensures
        last_name_of(v, s) matches Some(k) ==> 0 <= k < v.len() && v[k] == s,
{
    if exists|i: int| 0 <= i < v.len() && v[i] == s {
        let k = choose|i: int| #![auto] 0 <= i < v.len() && v[i] == s && forall|j: int| i < j < v.len() ==> v[j] != s;
        let i0 = choose|i: int| 0 <= i < v.len() && v[i] == s;
        lemma_last_of_exists(v, s, i0, v.len() - 1);
    }
}

/// Some occurrence of `s` has no later occurrence.
proof fn lemma_last_of_exists(v: Seq<Seq<char>>, s: Seq<char>, i0: int, hi: int)
    requires
        0 <= i0 <= hi < v.len(),
        v[i0] == s,
        forall|j: int| hi < j < v.len() ==> v[j] != s,
    ensures
        exists|i: int| 0 <= i < v.len() && v[i] == s && forall|j: int| i < j < v.len() ==> v[j] != s,
    decreases hi - i0,
{
    if v[hi] == s {
        assert(0 <= hi < v.len() && v[hi] == s && forall|j: int| hi < j < v.len() ==> v[j] != s);
    } else {
        lemma_last_of_exists(v, s, i0, hi - 1);
    }
}

/// Position of the last occurrence of `s` in `v`.
pub fn find_last_name(v: &Vec<String>, s: &str) -> (r: Option<usize>)
    ensures
        r matches Some(k) ==> last_name_of(names(v@), s@) == Some(k as int),
        r is None ==> last_name_of(names(v@), s@) is None,
{
    let mut i: usize = v.len();
    while i > 0
        invariant
            i <= v@.len(),
            forall|j: int| i <= j < v@.len() ==> names(v@)[j] != s@,
        decreases i,
    {
        if str_eq(v[i - 1].as_str(), s) {
            proof { lemma_last_name_of(names(v@), s@, i - 1); }
            return Some(i - 1);
        }
        i = i - 1;
    }
    proof {
        if exists|k: int| 0 <= k < v@.len() && names(v@)[k] == s@ {
            let k = choose|k: int| #![auto] 0 <= k < v@.len() && names(v@)[k] == s@;
            assert(names(v@)[k] != s@);
        }
    }
    None
}

/// The symbols of `a` that `b` also has, in `a`'s order (repeats kept).
pub open spec fn spec_common_names(a: Seq<Seq<char>>, b: Seq<Seq<char>>) -> Seq<Seq<char>>
    decreases a.len(),
{
    if a.len() == 0 {
        Seq::empty()
    } else if b.contains(a.last()) {
        spec_common_names(a.drop_last(), b).push(a.last())
    } else {
        spec_common_names(a.drop_last(), b)
    }
}

/// The symbols of `a` that `b` also has, in `a`'s order.
pub fn common_names(a: &Vec<String>, b: &Vec<String>) -> (r: Vec<String>)
    ensures
        names(r@) == spec_common_names(names(a@), names(b@)),
{
    let mut out: Vec<String> = Vec::new();
    let mut i: usize = 0;
    while i < a.len()
        invariant
            i <= a@.len(),
            names(out@) == spec_common_names(names(a@).subrange(0, i as int), names(b@)),
        decreases a@.len() - i,
    {
        let found = find_last_name(b, a[i].as_str());
        proof {
            let pre = names(a@).subrange(0, i + 1);
            assert(pre.drop_last() =~= names(a@).subrange(0, i as int));
            assert(pre.last() == a@[i as int]@);
            if found is Some {
                assert(names(b@).contains(a@[i as int]@));
            } else {
                if names(b@).contains(a@[i as int]@) {
                    let k = choose|k: int| #![auto] 0 <= k < names(b@).len() && names(b@)[k] == a@[i as int]@;
                    assert(exists|k: int| 0 <= k < names(b@).len() && names(b@)[k] == a@[i as int]@);
                }
            }
        }
        if found.is_some() {
            let ghost before = out@;
            out.push(a[i].clone());
            assert(names(out@) =~= names(before).push(a@[i as int]@));
        }
        i = i + 1;
    }
    assert(names(a@).subrange(0, a@.len() as int) =~= names(a@));
    out
}

/// The cell a projection takes for row day `d` and column name `s`.
pub open spec fn projected(p: &Panel, d: i32, s: Seq<char>) -> u64 {
    match (last_row_of(p.dates@, d), last_name_of(names(p.symbols@), s)) {
        (Some(i), Some(j)) => p.at(i, j),
        _ => MISSING,
    }
}

/// Reshape `p` onto the given axes: each cell comes from the last row of
/// the same day and the last column of the same symbol, or is missing.
pub fn project(p: &Panel, dates: &Vec<i32>, symbols: &Vec<String>) -> (r: Panel)
    requires
        p.wf(),
        dates@.len() <= isize::MAX,
        symbols@.len() <= isize::MAX,
        dates@.len() * symbols@.len() <= isize::MAX,
    ensures
        r.wf(),
        r.dates@ == dates@,
        names(r.symbols@) == names(symbols@),
        forall|i: int, j: int| 0 <= i < dates@.len() && 0 <= j < symbols@.len() ==> #[trigger] r.at(i, j)
            == projected(p, dates@[i], symbols@[j]@),
{
    let n = p.dates.len();
    let mut pos: HashMap<i32, usize> = HashMap::new();
    let mut i: usize = 0;
    while i < n
        invariant
            i <= n,
            n == p.dates@.len(),
            forall|d: i32| #[trigger] pos@.contains_key(d) <==> exists|q: int| 0 <= q < i && p.dates@[q] == d,
            forall|d: i32| #[trigger] pos@.contains_key(d) ==> {
                let w = pos@[d] as int;
                &&& 0 <= w < i
                &&& p.dates@[w] == d
                &&& forall|q: int| w < q < i ==> p.dates@[q] != d
            },
        decreases n - i,
    {
        pos.insert(p.dates[i], i);
        i = i + 1;
    }
    // Column of `p` behind each requested symbol.
    let mut cols: Vec<Option<usize>> = Vec::new();
    let mut c: usize = 0;
    while c < symbols.len()
        invariant
            c <= symbols@.len(),
            cols@.len() == c,
            forall|q: int| 0 <= q < c ==> match #[trigger] cols@[q] {
                Some(k) => last_name_of(names(p.symbols@), symbols@[q]@) == Some(k as int),
                None => last_name_of(names(p.symbols@), symbols@[q]@) is None,
            },
        decreases symbols@.len() - c,
    {
        cols.push(find_last_name(&p.symbols, symbols[c].as_str()));
        c = c + 1;
    }
    let nc = symbols.len();
    let mut out = grid_filled(dates.len(), nc, MISSING);
    proof { lemma_filled_at(out, MISSING); }
    let mut r: usize = 0;
    while r < dates.len()
        invariant
            p.wf(),
            n == p.dates@.len(),
            nc == symbols@.len(),
            r <= dates@.len(),
            cols@.len() == nc,
            forall|q: int| 0 <= q < nc ==> match #[trigger] cols@[q] {
                Some(k) => last_name_of(names(p.symbols@), symbols@[q]@) == Some(k as int),
                None => last_name_of(names(p.symbols@), symbols@[q]@) is None,
            },
            forall|d: i32| #[trigger] pos@.contains_key(d) <==> exists|q: int| 0 <= q < n && p.dates@[q] == d,
            forall|d: i32| #[trigger] pos@.contains_key(d) ==> {
                let w = pos@[d] as int;
                &&& 0 <= w < n
                &&& p.dates@[w] == d
                &&& forall|q: int| w < q < n ==> p.dates@[q] != d
            },
            grid_shape(out) == (dates@.len(), nc as nat),
            grid_wf(out),
            forall|q: int, j: int| 0 <= q < dates@.len() && 0 <= j < nc ==> #[trigger] grid_at(out, q, j)
                == if q < r { projected(p, dates@[q], symbols@[j]@) } else { MISSING },
        decreases dates@.len() - r,
    {
        let d = dates[r];
        match pos.get(&d) {
            Some(w) => {
                let sr = *w;
                proof { lemma_last_row_of(p.dates@, d, sr as int); }
                let mut c: usize = 0;
                while c < nc
                    invariant
                        p.wf(),
                        n == p.dates@.len(),
                        nc == symbols@.len(),
                        r < dates@.len(),
                        d == dates@[r as int],
                        sr < n,
                        last_row_of(p.dates@, d) == Some(sr as int),
                        c <= nc,
                        cols@.len() == nc,
                        forall|q: int| 0 <= q < nc ==> match #[trigger] cols@[q] {
                            Some(k) => last_name_of(names(p.symbols@), symbols@[q]@) == Some(k as int),
                            None => last_name_of(names(p.symbols@), symbols@[q]@) is None,
                        },
                        grid_shape(out) == (dates@.len(), nc as nat),
                        grid_wf(out),
                        forall|q: int, j: int| 0 <= q < dates@.len() && 0 <= j < nc ==> #[trigger] grid_at(out, q, j)
                            == if q < r || (q == r && j < c) { projected(p, dates@[q], symbols@[j]@) } else { MISSING },
                    decreases nc - c,
                {
                    match cols[c] {
                        Some(sc) => {
                            proof {
                                lemma_last_name_of_bounds(names(p.symbols@), symbols@[c as int]@);
                                assert(names(p.symbols@).len() == p.symbols@.len());
                            }
                            let v = p.cell(sr, sc);
                            let ghost before = out;
                            grid_set(&mut out, r, c, v);
                            proof { lemma_set_at(before, out, r as int, c as int, v); }
                        },
                        None => {},
                    }
                    c = c + 1;
                }
            },
            None => {
                proof {
                    if exists|q: int| 0 <= q < n && p.dates@[q] == d {
                        assert(pos@.contains_key(d));
                    }
                    assert(last_row_of(p.dates@, d) is None);
                }
            },
        }
        r = r + 1;
    }
    let symbols_out = crate::panel::clone_names(symbols);
    assert(symbols_out@.len() == names(symbols_out@).len());
    let dates_out = dates.clone();
    assert(dates_out@ == dates@);
    Panel { dates: dates_out, symbols: symbols_out, data: out }
}

/// Align two panels: rows = sorted union of dates, columns = the left
/// panel's symbols that the right panel also has (left order); each panel
/// is projected onto that index.
pub fn align(a: &Panel, b: &Panel) -> (r: (Panel, Panel))
    requires
        a.wf(),
        b.wf(),
        a.dates@.len() + b.dates@.len() <= isize::MAX,
        (a.dates@.len() + b.dates@.len()) * a.symbols@.len() <= isize::MAX,
    ensures
        r.0.wf(),
        r.1.wf(),
        r.0.dates@ == r.1.dates@,
        strictly_ascending(r.0.dates@),
        forall|y: i32| r.0.dates@.contains(y) <==> (a.dates@.contains(y) || b.dates@.contains(y)),
        names(r.0.symbols@) == spec_common_names(names(a.symbols@), names(b.symbols@)),
        names(r.1.symbols@) == names(r.0.symbols@),
        forall|i: int, j: int| 0 <= i < r.0.dates@.len() && 0 <= j < r.0.symbols@.len() ==> #[trigger] r.0.at(i, j)
            == projected(a, r.0.dates@[i], r.0.symbols@[j]@),
        forall|i: int, j: int| 0 <= i < r.1.dates@.len() && 0 <= j < r.1.symbols@.len() ==> #[trigger] r.1.at(i, j)
            == projected(b, r.1.dates@[i], r.1.symbols@[j]@),
{
    let dates = union_dates(&a.dates, &b.dates);
    let symbols = common_names(&a.symbols, &b.symbols);
    proof {
        lemma_distinct_subset_len(dates@, a.dates@, b.dates@);
        lemma_common_names_len(names(a.symbols@), names(b.symbols@));
        assert(symbols@.len() == names(symbols@).len());
        assert(names(a.symbols@).len() == a.symbols@.len());
        assert(dates@.len() * symbols@.len() <= (a.dates@.len() + b.dates@.len()) * a.symbols@.len()) by (nonlinear_arith)
            requires
                dates@.len() <= a.dates@.len() + b.dates@.len(),
                symbols@.len() <= a.symbols@.len(),
        ;
    }
    let pa = project(a, &dates, &symbols);
    let pb = project(b, &dates, &symbols);
    proof {
        assert forall|j: int| 0 <= j < symbols@.len() implies pa.symbols@[j]@ == symbols@[j]@ && pb.symbols@[j]@ == symbols@[j]@ by {
            assert(names(pa.symbols@)[j] == names(symbols@)[j]);
            assert(names(pb.symbols@)[j] == names(symbols@)[j]);
        }
        assert(pa.symbols@.len() == names(pa.symbols@).len());
        assert(pb.symbols@.len() == names(pb.symbols@).len());
    }
    (pa, pb)
}

/// `other` laid onto the axes of `grid` (the high and low prices of the
/// positions' grid): each cell looked up by day and symbol, missing where
/// `other` has none; `None` when there is no `other`.
pub fn conform_to(grid: &Panel, other: Option<&Panel>) -> (r: Option<CellGrid>)
    requires
        grid.dates@.len() <= isize::MAX,
        grid.symbols@.len() <= isize::MAX,
        grid.dates@.len() * grid.symbols@.len() <= isize::MAX,
        other matches Some(o) ==> o.wf(),
    ensures
        r is Some <==> other is Some,
        r matches Some(g) ==> grid_wf(g) && grid_rows(g) == grid.dates@.len() && grid_cols(g)
            == grid.symbols@.len() && forall|i: int, j: int|
            0 <= i < grid.dates@.len() && 0 <= j < grid.symbols@.len() ==> #[trigger] grid_at(g, i, j)
                == projected(other.unwrap(), grid.dates@[i], grid.symbols@[j]@),
{
    match other {
        Some(o) => {
            let p = project(o, &grid.dates, &grid.symbols);
            proof {
                assert(names(p.symbols@).len() == p.symbols@.len());
                assert(names(grid.symbols@).len() == grid.symbols@.len());
                assert(grid_rows(p.data) == grid.dates@.len());
                assert(grid_cols(p.data) == grid.symbols@.len());
                assert(other.unwrap() == o);
                assert forall|i: int, j: int| 0 <= i < grid.dates@.len() && 0 <= j < grid.symbols@.len() implies
                    #[trigger] grid_at(p.data, i, j) == projected(o, grid.dates@[i], grid.symbols@[j]@) by {
                    assert(p.at(i, j) == projected(o, grid.dates@[i], grid.symbols@[j]@));
                }
            }
            Some(p.data)
        },
        None => None,
    }
}

pub(crate) proof fn lemma_common_names_len(a: Seq<Seq<char>>, b: Seq<Seq<char>>)
    ensures
        spec_common_names(a, b).len() <= a.len(),
    decreases a.len(),
{
    if a.len() > 0 {
        lemma_common_names_len(a.drop_last(), b);
    }
}

/// A strictly ascending list drawn from two lists is no longer than both
/// together.
pub(crate) proof fn lemma_distinct_subset_len(u: Seq<i32>, a: Seq<i32>, b: Seq<i32>)
    requires
        strictly_ascending(u),
        forall|y: i32| u.contains(y) ==> (a.contains(y) || b.contains(y)),
    ensures
        u.len() <= a.len() + b.len(),
{
    let su = u.to_set();
    let sab = a.to_set().union(b.to_set());
    vstd::seq_lib::seq_to_set_is_finite(a);
    vstd::seq_lib::seq_to_set_is_finite(b);
    assert(su.subset_of(sab)) by {
        assert forall|y: i32| su.contains(y) implies sab.contains(y) by {
            assert(u.contains(y));
        }
    }
    vstd::set_lib::lemma_len_subset(su, sab);
    vstd::set_lib::lemma_len_union(a.to_set(), b.to_set());
    a.lemma_cardinality_of_set();
    b.lemma_cardinality_of_set();
    assert(u.no_duplicates()) by {
        assert forall|i: int, j: int| 0 <= i < u.len() && 0 <= j < u.len() && i != j implies u[i] != u[j] by {
            if i < j {
            } else {
            }
        }
    }
    u.unique_seq_to_set();
}

} // verus!

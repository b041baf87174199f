//! Which series a run loads, and from where: the series set of a server
//! backtest, the symbol universe of a research run, and the ordered load
//! steps of a research context. Names are kept in `String` order (the
//! lexicographic order of their characters).

use vstd::prelude::*;
use vstd::string::*;
use crate::fields::{
    Field, price_field, is_fundamental_series, field_for_price_key, spec_price_field,
    spec_is_fundamental_series, FACTOR_PANEL_FIELDS, spec_factor_panel_fields,
};
use crate::panel::names;
use crate::text::str_eq;

verus! {

// ---------------------------------------------------------------------------
// Name order
// ---------------------------------------------------------------------------

/// `a < b` in the order of `String` (lexicographic by character, a proper
/// prefix first).
pub open spec fn lex_lt(a: Seq<char>, b: Seq<char>) -> bool
    decreases a.len(),
{
    if a.len() == 0 {
        b.len() > 0
    } else if b.len() == 0 {
        false
    } else if a[0] != b[0] {
        a[0] < b[0]
    } else {
        lex_lt(a.drop_first(), b.drop_first())
    }
}

pub proof fn lemma_lex_irreflexive(a: Seq<char>)
    ensures
        !lex_lt(a, a),
    decreases a.len(),
{
    if a.len() > 0 {
        lemma_lex_irreflexive(a.drop_first());
    }
}

pub proof fn lemma_lex_total(a: Seq<char>, b: Seq<char>)
    ensures
        a != b ==> lex_lt(a, b) || lex_lt(b, a),
        !(lex_lt(a, b) && lex_lt(b, a)),
    decreases a.len(),
{
    if a.len() > 0 && b.len() > 0 {
        lemma_lex_total(a.drop_first(), b.drop_first());
        if a[0] == b[0] && a != b {
            assert(a.drop_first() != b.drop_first()) by {
                if a.drop_first() == b.drop_first() {
                    assert(a =~= seq![a[0]] + a.drop_first());
                    assert(b =~= seq![b[0]] + b.drop_first());
                }
            }
        }
    } else if a.len() == 0 && b.len() == 0 {
        assert(a =~= b);
    }
}

pub proof fn lemma_lex_transitive(a: Seq<char>, b: Seq<char>, c: Seq<char>)
    requires
        lex_lt(a, b),
        lex_lt(b, c),
    ensures
        lex_lt(a, c),
    decreases a.len(),
{
    if a.len() > 0 && b.len() > 0 && c.len() > 0 {
        if a[0] == b[0] && b[0] == c[0] {
            lemma_lex_transitive(a.drop_first(), b.drop_first(), c.drop_first());
        }
    }
}

/// `a < b` in `String` order.
pub fn str_lt(a: &str, b: &str) -> (r: bool)
    ensures
        r == lex_lt(a@, b@),
{
    let n = a.unicode_len();
    let m = b.unicode_len();
    let mut i: usize = 0;
    assert(a@.subrange(0, n as int) =~= a@);
    assert(b@.subrange(0, m as int) =~= b@);
    while i < n && i < m
        invariant
            n == a@.len(),
            m == b@.len(),
            i <= n,
            i <= m,
            forall|k: int| 0 <= k < i ==> a@[k] == b@[k],
            lex_lt(a@, b@) == lex_lt(a@.subrange(i as int, n as int), b@.subrange(i as int, m as int)),
        decreases n - i,
    {
        let x = a.get_char(i);
        let y = b.get_char(i);
        let ghost sa = a@.subrange(i as int, n as int);
        let ghost sb = b@.subrange(i as int, m as int);
        assert(sa[0] == x && sb[0] == y);
        if x != y {
            return x < y;
        }
        assert(sa.drop_first() =~= a@.subrange(i + 1, n as int));
        assert(sb.drop_first() =~= b@.subrange(i + 1, m as int));
        i = i + 1;
    }
    i == n && i < m
}

/// Strictly ascending in `String` order (so without duplicates).
pub open spec fn names_ascending(v: Seq<Seq<char>>) -> bool {
    forall|i: int, j: int| 0 <= i < j < v.len() ==> lex_lt(v[i], v[j])
}

/// Insert `x` into an ascending list of names unless it is there already.
pub fn insert_name(v: &mut Vec<String>, x: &str)
    requires
        names_ascending(names(old(v)@)),
    ensures
        names_ascending(names(final(v)@)),
        forall|y: Seq<char>|
            #![trigger names(final(v)@).contains(y)]
            #![trigger names(old(v)@).contains(y)]
            names(final(v)@).contains(y) <==> (names(old(v)@).contains(y) || y == x@),
{
    let ghost before = names(v@);
    let mut i: usize = 0;
    while i < v.len() && str_lt(v[i].as_str(), x)
        invariant
            i <= v@.len(),
            names(v@) == before,
            names_ascending(before),
            forall|j: int| 0 <= j < i ==> lex_lt(before[j], x@),
        decreases v@.len() - i,
    {
        assert(names(v@)[i as int] == v@[i as int]@);
        i = i + 1;
    }
    if i < v.len() && str_eq(v[i].as_str(), x) {
        proof {
            assert(before[i as int] == x@);
            assert(before.contains(x@));
        }
        return;
    }
    proof {
        if i < before.len() {
            assert(before[i as int] == v@[i as int]@);
            lemma_lex_total(before[i as int], x@);
        }
    }
    v.insert(i, String::from_str(x));
    let ghost after = names(v@);
    proof {
        assert(after =~= before.subrange(0, i as int).push(x@) + before.subrange(i as int, before.len() as int));
        assert forall|a: int, b: int| 0 <= a < b < after.len() implies lex_lt(after[a], after[b]) by {
            if b < i {
            } else if b == i {
            } else if a < i {
                assert(after[b] == before[b - 1]);
                assert(after[a] == before[a]);
                if b - 1 > i as int {
                    lemma_lex_transitive(x@, before[i as int], before[b - 1]);
                }
                lemma_lex_transitive(after[a], x@, after[b]);
            } else if a == i {
                assert(after[b] == before[b - 1]);
                if b - 1 > i as int {
                    lemma_lex_transitive(x@, before[i as int], before[b - 1]);
                }
            } else {
                assert(after[a] == before[a - 1]);
                assert(after[b] == before[b - 1]);
            }
        }
        assert forall|y: Seq<char>| after.contains(y) <==> (before.contains(y) || y == x@) by {
            if after.contains(y) {
                let q = choose|q: int| 0 <= q < after.len() && after[q] == y;
                if q < i {
                    assert(before[q] == y);
                } else if q > i {
                    assert(before[q - 1] == y);
                }
            }
            if before.contains(y) {
                let q = choose|q: int| 0 <= q < before.len() && before[q] == y;
                if q < i {
                    assert(after[q] == y);
                } else {
                    assert(after[q + 1] == y);
                }
            }
            if y == x@ {
                assert(after[i as int] == x@);
            }
        }
    }
}


/// Insert every name of `xs` into an ascending list of names.
fn insert_names(v: &mut Vec<String>, xs: &Vec<String>)
    requires
        names_ascending(names(old(v)@)),
    ensures
        names_ascending(names(final(v)@)),
        forall|y: Seq<char>|
            #![trigger names(final(v)@).contains(y)]
            #![trigger names(old(v)@).contains(y)]
            #![trigger names(xs@).contains(y)]
            names(final(v)@).contains(y) <==> (names(old(v)@).contains(y) || names(xs@).contains(y)),
{
    let ghost start = names(v@);
    let mut i: usize = 0;
    while i < xs.len()
        invariant
            i <= xs@.len(),
            names_ascending(names(v@)),
            forall|y: Seq<char>|
                #![trigger names(v@).contains(y)]
                #![trigger start.contains(y)]
                #![trigger names(xs@.subrange(0, i as int)).contains(y)]
                names(v@).contains(y) <==> (start.contains(y) || names(xs@.subrange(0, i as int)).contains(y)),
        decreases xs@.len() - i,
    {
        let ghost prev = names(v@);
        insert_name(v, xs[i].as_str());
        proof {
            let x = xs@[i as int]@;
            let pre = names(xs@.subrange(0, i + 1));
            let old_pre = names(xs@.subrange(0, i as int));
            assert(pre =~= old_pre.push(x));
            assert forall|y: Seq<char>| names(v@).contains(y) <==> (start.contains(y) || pre.contains(y)) by {
                assert(names(v@).contains(y) <==> (prev.contains(y) || y == x));
                assert(prev.contains(y) <==> (start.contains(y) || old_pre.contains(y)));
                if pre.contains(y) {
                    let q = choose|q: int| 0 <= q < pre.len() && pre[q] == y;
                    if q < i {
                        assert(old_pre[q] == y);
                    }
                }
                if old_pre.contains(y) {
                    let q = choose|q: int| 0 <= q < old_pre.len() && old_pre[q] == y;
                    assert(pre[q] == y);
                }
                if y == x {
                    assert(pre[i as int] == y);
                }
            }
        }
        i = i + 1;
    }
    assert(xs@.subrange(0, xs@.len() as int) =~= xs@);
}

// ---------------------------------------------------------------------------
// Server backtest series
// ---------------------------------------------------------------------------

/// Where a series is read from when its combined panel file is absent.
#[derive(Debug, Clone, Copy, PartialEq, Eq, Structural)]
pub enum Fallback {
    /// A column of the per-symbol price archives.
    Prices(Field),
    /// The per-symbol fundamentals archives.
    Fundamentals,
}

/// One series a backtest loads: combined file first, then its fallback.
pub struct SeriesLoad {
    pub name: String,
    pub fallback: Fallback,
}

/// The fallback of a known series.
pub open spec fn fallback_of(name: Seq<char>) -> Fallback {
    match spec_price_field(name) {
        Some(f) => Fallback::Prices(f),
        None => Fallback::Fundamentals,
    }
}

/// A series a backtest needs: referenced by the spec, the price key, the
/// high and low (always, for per-trade excursions), or the volume when the
/// liquidity cap is on.
pub open spec fn backtest_needs(referenced: Seq<Seq<char>>, price_key: Seq<char>, need_volume: bool, y: Seq<char>) -> bool {
    ||| referenced.contains(y)
    ||| y == price_key
    ||| y == "high"@
    ||| y == "low"@
    ||| (need_volume && y == "volume"@)
}

/// A series with a loader: a price field or a fundamentals series.
pub open spec fn known_series(y: Seq<char>) -> bool {
    spec_price_field(y) is Some || spec_is_fundamental_series(y)
}

/// The known series of a list, in order.
pub open spec fn known_only(s: Seq<Seq<char>>) -> Seq<Seq<char>>
    decreases s.len(),
{
    if s.len() == 0 {
        Seq::empty()
    } else {
        let r = known_only(s.drop_last());
        if known_series(s.last()) { r.push(s.last()) } else { r }
    }
}

proof fn lemma_known_only_mem(s: Seq<Seq<char>>, y: Seq<char>)
    ensures
        known_only(s).contains(y) <==> (s.contains(y) && known_series(y)),
    decreases s.len(),
{
    if s.len() > 0 {
        let init = s.drop_last();
        let last = s.last();
        lemma_known_only_mem(init, y);
        let r = known_only(init);
        let k = known_only(s);
        assert(k == if known_series(last) { r.push(last) } else { r });
        if k.contains(y) {
            let j = choose|j: int| 0 <= j < k.len() && k[j] == y;
            if known_series(last) && j == r.len() {
                assert(s[s.len() - 1] == y);
            } else {
                assert(r[j] == y);
                let q = choose|q: int| 0 <= q < init.len() && init[q] == y;
                assert(s[q] == y);
            }
        }
        if s.contains(y) && known_series(y) {
            let j = choose|j: int| 0 <= j < s.len() && s[j] == y;
            if j == s.len() - 1 {
                assert(k[r.len() as int] == y);
            } else {
                assert(init[j] == y);
                let q = choose|q: int| 0 <= q < r.len() && r[q] == y;
                assert(k[q] == y);
            }
        }
    }
}

proof fn lemma_known_only_sorted(s: Seq<Seq<char>>)
    requires
        names_ascending(s),
    ensures
        names_ascending(known_only(s)),
    decreases s.len(),
{
    if s.len() > 0 {
        let init = s.drop_last();
        let last = s.last();
        assert(names_ascending(init)) by {
            assert forall|i: int, j: int| 0 <= i < j < init.len() implies lex_lt(init[i], init[j]) by {
                assert(init[i] == s[i] && init[j] == s[j]);
            }
        }
        lemma_known_only_sorted(init);
        let r = known_only(init);
        let k = known_only(s);
        if known_series(last) {
            assert(k == r.push(last));
            assert forall|i: int, j: int| 0 <= i < j < k.len() implies lex_lt(k[i], k[j]) by {
                if j == k.len() - 1 {
                    lemma_known_only_mem(init, r[i]);
                    assert(r.contains(r[i]));
                    let q = choose|q: int| 0 <= q < init.len() && init[q] == r[i];
                    assert(s[q] == k[i]);
                    assert(k[j] == s[s.len() - 1]);
                } else {
                    assert(k[i] == r[i] && k[j] == r[j]);
                }
            }
        }
    }
}

/// The names of planned loads.
pub open spec fn load_names(loads: Seq<SeriesLoad>) -> Seq<Seq<char>> {
    loads.map_values(|l: SeriesLoad| l.name@)
}

/// The series a server backtest loads, in name order: every needed series
/// (see [`backtest_needs`]) that is a price field or a fundamentals series;
/// other names are left for the engine to report if it uses them.
pub fn backtest_series(referenced: &Vec<String>, price_key: &str, need_volume: bool) -> (r: Vec<SeriesLoad>)
    ensures
        names_ascending(load_names(r@)),
        forall|y: Seq<char>| #[trigger] load_names(r@).contains(y) <==> (backtest_needs(
            names(referenced@),
            price_key@,
            need_volume,
            y,
        ) && known_series(y)),
        forall|k: int| 0 <= k < r@.len() ==> (#[trigger] r@[k]).fallback == fallback_of(r@[k].name@),
{
    let mut all: Vec<String> = Vec::new();
    assert(names(all@) =~= Seq::<Seq<char>>::empty());
    insert_names(&mut all, referenced);
    insert_name(&mut all, price_key);
    insert_name(&mut all, "high");
    insert_name(&mut all, "low");
    if need_volume {
        insert_name(&mut all, "volume");
    }
    let ghost an = names(all@);
    assert forall|y: Seq<char>| an.contains(y) <==> backtest_needs(names(referenced@), price_key@, need_volume, y) by {}
    let mut out: Vec<SeriesLoad> = Vec::new();
    let mut i: usize = 0;
    assert(an.subrange(0, 0) =~= Seq::<Seq<char>>::empty());
    assert(out@.map_values(|l: SeriesLoad| l.name@) =~= Seq::<Seq<char>>::empty());
    while i < all.len()
        invariant
            i <= all@.len(),
            an == names(all@),
            out@.map_values(|l: SeriesLoad| l.name@) == known_only(an.subrange(0, i as int)),
            forall|k: int| 0 <= k < out@.len() ==> (#[trigger] out@[k]).fallback == fallback_of(out@[k].name@),
        decreases all@.len() - i,
    {
        let name = all[i].as_str();
        assert(an[i as int] == name@);
        let ghost pre = an.subrange(0, i + 1);
        assert(pre.drop_last() =~= an.subrange(0, i as int));
        assert(pre.last() == name@);
        let ghost before = out@;
        match price_field(name) {
            Some(f) => {
                out.push(SeriesLoad { name: String::from_str(name), fallback: Fallback::Prices(f) });
                assert(out@.map_values(|l: SeriesLoad| l.name@) =~= before.map_values(|l: SeriesLoad| l.name@).push(name@));
            },
            None => {
                if is_fundamental_series(name) {
                    out.push(SeriesLoad { name: String::from_str(name), fallback: Fallback::Fundamentals });
                    assert(out@.map_values(|l: SeriesLoad| l.name@) =~= before.map_values(|l: SeriesLoad| l.name@).push(name@));
                }
            },
        }
        i = i + 1;
    }
    assert(an.subrange(0, all@.len() as int) =~= an);
    proof {
        lemma_known_only_sorted(an);
        let outn = load_names(out@);
        assert(outn == out@.map_values(|l: SeriesLoad| l.name@));
        assert forall|y: Seq<char>| #[trigger] load_names(out@).contains(y) <==> (backtest_needs(names(referenced@), price_key@, need_volume, y)
            && known_series(y)) by {
            lemma_known_only_mem(an, y);
            assert(outn.contains(y) <==> (an.contains(y) && known_series(y)));
            assert(an.contains(y) <==> backtest_needs(names(referenced@), price_key@, need_volume, y));
        }
    }
    out
}


// ---------------------------------------------------------------------------
// Research universe
// ---------------------------------------------------------------------------

/// The requested symbols the data tree lacks, in request order.
pub open spec fn missing_names(requested: Seq<Seq<char>>, available: Seq<Seq<char>>) -> Seq<Seq<char>>
    decreases requested.len(),
{
    if requested.len() == 0 {
        Seq::empty()
    } else {
        let r = missing_names(requested.drop_last(), available);
        if available.contains(requested.last()) { r } else { r.push(requested.last()) }
    }
}

/// Names joined with `", "`.
pub open spec fn join_names(v: Seq<Seq<char>>) -> Seq<char>
    decreases v.len(),
{
    if v.len() == 0 {
        Seq::empty()
    } else if v.len() == 1 {
        v[0]
    } else {
        join_names(v.drop_last()) + ", "@ + v.last()
    }
}

/// Message of an empty symbol list.
pub open spec fn empty_universe_message() -> Seq<char> {
    "the symbols list is empty \u{2014} omit it to run the full universe"@
}

/// Message naming the requested symbols the data tree lacks.
pub open spec fn missing_message(missing: Seq<Seq<char>>) -> Seq<char> {
    "symbols not in the data tree (no prices/<sym>.csv.gz): "@ + join_names(missing)
}

fn contains_name(v: &Vec<String>, x: &str) -> (r: bool)
    ensures
        r == names(v@).contains(x@),
{
    let mut i: usize = 0;
    while i < v.len()
        invariant
            i <= v@.len(),
            forall|k: int| 0 <= k < i ==> v@[k]@ != x@,
        decreases v@.len() - i,
    {
        if str_eq(v[i].as_str(), x) {
            assert(names(v@)[i as int] == x@);
            return true;
        }
        i = i + 1;
    }
    proof {
        if names(v@).contains(x@) {
            let k = choose|k: int| 0 <= k < names(v@).len() && names(v@)[k] == x@;
            assert(v@[k]@ == x@);
        }
    }
    false
}

/// The symbols a research run covers: every available symbol when none
/// are requested; otherwise the requested ones, sorted and without
/// duplicates. Fails on an empty request, and on requested symbols the
/// data tree lacks (named in request order).
pub fn scoped_symbols(available: &Vec<String>, requested: Option<&Vec<String>>) -> (r: Result<Vec<String>, String>)
    ensures
        requested is None ==> (r matches Ok(v) && names(v@) == names(available@)),
        requested matches Some(q) ==> {
            let missing = missing_names(names(q@), names(available@));
            &&& q@.len() == 0 ==> (r matches Err(m) && m@ == empty_universe_message())
            &&& q@.len() > 0 && missing.len() > 0 ==> (r matches Err(m) && m@ == missing_message(missing))
            &&& q@.len() > 0 && missing.len() == 0 ==> (r matches Ok(v) && names_ascending(names(v@))
                && forall|y: Seq<char>| #[trigger] names(v@).contains(y) <==> names(q@).contains(y))
        },
{
    match requested {
        None => {
            let v = crate::panel::clone_names(available);
            Ok(v)
        },
        Some(q) => {
            if q.len() == 0 {
                return Err(String::from_str("the symbols list is empty \u{2014} omit it to run the full universe"));
            }
            let ghost qn = names(q@);
            let ghost an = names(available@);
            let mut missing: Vec<String> = Vec::new();
            let mut i: usize = 0;
            assert(qn.subrange(0, 0) =~= Seq::<Seq<char>>::empty());
            assert(names(missing@) =~= Seq::<Seq<char>>::empty());
            while i < q.len()
                invariant
                    i <= q@.len(),
                    qn == names(q@),
                    an == names(available@),
                    names(missing@) == missing_names(qn.subrange(0, i as int), an),
                decreases q@.len() - i,
            {
                let s = q[i].as_str();
                let ghost pre = qn.subrange(0, i + 1);
                assert(pre.drop_last() =~= qn.subrange(0, i as int));
                assert(pre.last() == s@);
                if !contains_name(available, s) {
                    let ghost before = names(missing@);
                    missing.push(String::from_str(s));
                    assert(names(missing@) =~= before.push(s@));
                }
                i = i + 1;
            }
            assert(qn.subrange(0, q@.len() as int) =~= qn);
            if missing.len() > 0 {
                let mut m = String::from_str("symbols not in the data tree (no prices/<sym>.csv.gz): ");
                let mut k: usize = 0;
                let ghost mn = names(missing@);
                assert(mn.subrange(0, 0) =~= Seq::<Seq<char>>::empty());
                while k < missing.len()
                    invariant
                        k <= missing@.len(),
                        mn == names(missing@),
                        m@ == "symbols not in the data tree (no prices/<sym>.csv.gz): "@ + join_names(mn.subrange(0, k as int)),
                    decreases missing@.len() - k,
                {
                    let ghost pre = mn.subrange(0, k + 1);
                    assert(pre.drop_last() =~= mn.subrange(0, k as int));
                    if k > 0 {
                        m.append(", ");
                    }
                    m.append(missing[k].as_str());
                    proof {
                        assert(pre.last() == missing@[k as int]@);
                        if k == 0 {
                            assert(join_names(pre) == pre[0]);
                        }
                        assert(m@ =~= "symbols not in the data tree (no prices/<sym>.csv.gz): "@ + join_names(pre));
                    }
                    k = k + 1;
                }
                assert(mn.subrange(0, missing@.len() as int) =~= mn);
                return Err(m);
            }
            let mut v: Vec<String> = Vec::new();
            assert(names(v@) =~= Seq::<Seq<char>>::empty());
            insert_names(&mut v, q);
            proof {
                assert forall|y: Seq<char>| #[trigger] names(v@).contains(y) <==> names(q@).contains(y) by {
                    assert(!Seq::<Seq<char>>::empty().contains(y));
                }
            }
            Ok(v)
        },
    }
}


// ---------------------------------------------------------------------------
// Research context
// ---------------------------------------------------------------------------

/// Where a step of a research context load reads its panel.
#[derive(Debug, Clone, Copy, PartialEq, Eq, Structural)]
pub enum LoadSource {
    /// A column of the per-symbol price archives.
    Prices(Field),
    /// The combined file, when it exists; nothing otherwise.
    CombinedIfPresent,
    /// The combined file, else the fallback (nothing for `None`).
    CombinedOr(Option<Fallback>),
    /// The close of the benchmark symbol on its own.
    BenchmarkClose,
}

/// One load of a research context: the panel name, its source, and whether
/// it is skipped when a panel of that name is already loaded.
pub struct LoadStep {
    pub name: String,
    pub source: LoadSource,
    pub unless_loaded: bool,
}

/// The values of planned steps.
pub open spec fn plan_view(steps: Seq<LoadStep>) -> Seq<(Seq<char>, LoadSource, bool)> {
    steps.map_values(|s: LoadStep| step_view(s))
}

/// The panel names of planned steps.
pub open spec fn step_names(steps: Seq<(Seq<char>, LoadSource, bool)>) -> Seq<Seq<char>> {
    steps.map_values(|t: (Seq<char>, LoadSource, bool)| t.0)
}

/// The value of a step.
pub open spec fn step_view(s: LoadStep) -> (Seq<char>, LoadSource, bool) {
    (s.name@, s.source, s.unless_loaded)
}

/// The steps of a research context load, and the failure (if any) that
/// ends the load after them.
pub struct LoadPlan {
    pub steps: Vec<LoadStep>,
    pub failure: Option<String>,
}

/// The fallback of a series referenced by a spec: its price field, else the
/// fundamentals when it is one, else nothing.
pub open spec fn referenced_fallback(name: Seq<char>) -> Option<Fallback> {
    match spec_price_field(name) {
        Some(f) => Some(Fallback::Prices(f)),
        None => if spec_is_fundamental_series(name) { Some(Fallback::Fundamentals) } else { None },
    }
}

/// The steps before the referenced series, when the price key is valid:
/// close; the price key's field (unless it is close); open, high and low
/// when stops are active; volume when the liquidity model needs it; each
/// membership series and each snapshot factor when its combined file
/// exists.
pub open spec fn leading_steps(price_key: Seq<char>, stops_active: bool, need_volume: bool, membership: Seq<Seq<char>>)
    -> Seq<(Seq<char>, LoadSource, bool)>
{
    seq![("close"@, LoadSource::Prices(Field::AdjClose), false)]
        + (if price_key != "close"@ {
            seq![(price_key, LoadSource::Prices(spec_price_field(price_key)->0), false)]
        } else {
            Seq::empty()
        })
        + (if stops_active {
            seq![
                ("open"@, LoadSource::Prices(Field::AdjOpen), true),
                ("high"@, LoadSource::Prices(Field::AdjHigh), true),
                ("low"@, LoadSource::Prices(Field::AdjLow), true),
            ]
        } else {
            Seq::empty()
        })
        + (if need_volume {
            seq![("volume"@, LoadSource::Prices(Field::Volume), false)]
        } else {
            Seq::empty()
        })
        + membership.map_values(|m: Seq<char>| (m, LoadSource::CombinedIfPresent, true))
        + spec_factor_panel_fields().map_values(|m: Seq<char>| (m, LoadSource::CombinedIfPresent, true))
}

/// A price key names a price that can be traded at (not volume).
pub open spec fn valid_price_key(k: Seq<char>) -> bool {
    spec_price_field(k) is Some && k != "volume"@
}

fn push_step(v: &mut Vec<LoadStep>, name: &str, source: LoadSource, unless_loaded: bool)
    ensures
        plan_view(final(v)@) == plan_view(old(v)@).push(
            (name@, source, unless_loaded),
        ),
{
    let ghost before = plan_view(v@);
    v.push(LoadStep { name: String::from_str(name), source, unless_loaded });
    assert(plan_view(v@) =~= before.push((name@, source, unless_loaded)));
}

/// The loads of a research context, in order (the industry map comes after
/// them). With an invalid price key the plan is the close alone, then the
/// price-key error. Otherwise: [`leading_steps`]; then every series the
/// specs reference, in name order, from its combined file or its
/// [`referenced_fallback`]; then the benchmark's close. Every step but the
/// unconditional ones (close, the price key, volume) is skipped when its
/// panel is already loaded.
pub fn load_plan(
    price_key: &str,
    stops_active: bool,
    need_volume: bool,
    membership: &Vec<String>,
    referenced: &Vec<String>,
    benchmark: Option<&str>,
) -> (r: LoadPlan)
    ensures
        !valid_price_key(price_key@) ==> plan_view(r.steps@) == seq![
            ("close"@, LoadSource::Prices(Field::AdjClose), false),
        ] && (r.failure matches Some(m) && m@ == "price-key must be one of open/high/low/close (got '"@
            + price_key@ + "')"@),
        valid_price_key(price_key@) ==> r.failure is None && {
            let steps = plan_view(r.steps@);
            let lead = leading_steps(price_key@, stops_active, need_volume, names(membership@));
            let tail: Seq<(Seq<char>, LoadSource, bool)> = match benchmark {
                Some(b) => seq![(b@, LoadSource::BenchmarkClose, true)],
                None => Seq::empty(),
            };
            let mid = steps.subrange(lead.len() as int, steps.len() - tail.len());
            &&& steps.len() >= lead.len() + tail.len()
            &&& steps.subrange(0, lead.len() as int) == lead
            &&& steps.subrange(steps.len() - tail.len(), steps.len() as int) == tail
            &&& names_ascending(step_names(mid))
            &&& forall|y: Seq<char>| #[trigger] step_names(mid).contains(y) <==> names(referenced@).contains(y)
            &&& forall|k: int| 0 <= k < mid.len() ==> (#[trigger] mid[k]).1 == LoadSource::CombinedOr(
                referenced_fallback(mid[k].0)) && mid[k].2
        },
{
    let mut steps: Vec<LoadStep> = Vec::new();
    push_step(&mut steps, "close", LoadSource::Prices(Field::AdjClose), false);
    let field = match field_for_price_key(price_key) {
        Ok(f) => f,
        Err(m) => {
            proof {
                assert(plan_view(steps@) =~= seq![
                    ("close"@, LoadSource::Prices(Field::AdjClose), false),
                ]);
            }
            return LoadPlan { steps, failure: Some(m) };
        },
    };
    let ghost v0 = plan_view(steps@);
    if !str_eq(price_key, "close") {
        push_step(&mut steps, price_key, LoadSource::Prices(field), false);
    }
    if stops_active {
        push_step(&mut steps, "open", LoadSource::Prices(Field::AdjOpen), true);
        push_step(&mut steps, "high", LoadSource::Prices(Field::AdjHigh), true);
        push_step(&mut steps, "low", LoadSource::Prices(Field::AdjLow), true);
    }
    if need_volume {
        push_step(&mut steps, "volume", LoadSource::Prices(Field::Volume), false);
    }
    let ghost v1 = plan_view(steps@);
    let mut i: usize = 0;
    while i < membership.len()
        invariant
            i <= membership@.len(),
            plan_view(steps@) == v1 + names(membership@).subrange(0, i as int).map_values(
                |m: Seq<char>| (m, LoadSource::CombinedIfPresent, true),
            ),
        decreases membership@.len() - i,
    {
        push_step(&mut steps, membership[i].as_str(), LoadSource::CombinedIfPresent, true);
        proof {
            assert(names(membership@).subrange(0, i + 1).map_values(|m: Seq<char>| (m, LoadSource::CombinedIfPresent, true))
                =~= names(membership@).subrange(0, i as int).map_values(|m: Seq<char>| (m, LoadSource::CombinedIfPresent, true))
                .push((membership@[i as int]@, LoadSource::CombinedIfPresent, true)));
        }
        i = i + 1;
    }
    assert(names(membership@).subrange(0, membership@.len() as int) =~= names(membership@));
    let ghost v2 = plan_view(steps@);
    let factors = FACTOR_PANEL_FIELDS;
    let mut j: usize = 0;
    while j < 6
        invariant
            j <= 6,
            factors@.map_values(|s: &str| s@) == spec_factor_panel_fields(),
            plan_view(steps@) == v2 + spec_factor_panel_fields().subrange(0, j as int).map_values(
                |m: Seq<char>| (m, LoadSource::CombinedIfPresent, true),
            ),
        decreases 6 - j,
    {
        let f = factors[j];
        assert(f@ == spec_factor_panel_fields()[j as int]);
        push_step(&mut steps, f, LoadSource::CombinedIfPresent, true);
        proof {
            assert(spec_factor_panel_fields().subrange(0, j + 1).map_values(|m: Seq<char>| (m, LoadSource::CombinedIfPresent, true))
                =~= spec_factor_panel_fields().subrange(0, j as int).map_values(|m: Seq<char>| (m, LoadSource::CombinedIfPresent, true))
                .push((f@, LoadSource::CombinedIfPresent, true)));
        }
        j = j + 1;
    }
    assert(spec_factor_panel_fields().subrange(0, 6) =~= spec_factor_panel_fields());
    let ghost lead = plan_view(steps@);
    proof {
        let ln = leading_steps(price_key@, stops_active, need_volume, names(membership@));
        assert(lead =~= ln);
    }
    // The referenced series, in name order.
    let mut sorted: Vec<String> = Vec::new();
    assert(names(sorted@) =~= Seq::<Seq<char>>::empty());
    insert_names(&mut sorted, referenced);
    let ghost sn = names(sorted@);
    let mut k: usize = 0;
    while k < sorted.len()
        invariant
            k <= sorted@.len(),
            sn == names(sorted@),
            plan_view(steps@).len() == lead.len() + k,
            plan_view(steps@).subrange(0, lead.len() as int) == lead,
            forall|q: int| 0 <= q < k ==> #[trigger] plan_view(steps@)[lead.len() + q]
                == (sn[q], LoadSource::CombinedOr(referenced_fallback(sn[q])), true),
        decreases sorted@.len() - k,
    {
        let name = sorted[k].as_str();
        assert(sn[k as int] == name@);
        let fallback = match price_field(name) {
            Some(f) => Some(Fallback::Prices(f)),
            None => if is_fundamental_series(name) {
                Some(Fallback::Fundamentals)
            } else {
                None
            },
        };
        let ghost before = plan_view(steps@);
        push_step(&mut steps, name, LoadSource::CombinedOr(fallback), true);
        proof {
            let after = plan_view(steps@);
            assert(after.subrange(0, lead.len() as int) =~= before.subrange(0, lead.len() as int));
            assert forall|q: int| 0 <= q < k + 1 implies #[trigger] after[lead.len() + q]
                == (sn[q], LoadSource::CombinedOr(referenced_fallback(sn[q])), true) by {
                if q < k {
                    assert(after[lead.len() + q] == before[lead.len() + q]);
                }
            }
        }
        k = k + 1;
    }
    let ghost before_tail = plan_view(steps@);
    match benchmark {
        Some(b) => {
            push_step(&mut steps, b, LoadSource::BenchmarkClose, true);
        },
        None => {},
    }
    proof {
        let st = plan_view(steps@);
        let tail: Seq<(Seq<char>, LoadSource, bool)> = match benchmark {
            Some(b) => seq![(b@, LoadSource::BenchmarkClose, true)],
            None => Seq::empty(),
        };
        assert(st =~= before_tail + tail);
        let mid = st.subrange(lead.len() as int, st.len() - tail.len());
        assert(mid.len() == sn.len());
        assert forall|q: int| 0 <= q < mid.len() implies #[trigger] mid[q] == (sn[q], LoadSource::CombinedOr(
            referenced_fallback(sn[q])), true) by {
            assert(mid[q] == st[lead.len() + q]);
            assert(st[lead.len() + q] == before_tail[lead.len() + q]);
        }
        let mn = step_names(mid);
        assert(mn =~= sn);
        assert(st.subrange(0, lead.len() as int) =~= lead);
        assert(st.subrange(st.len() - tail.len(), st.len() as int) =~= tail);
    }
    LoadPlan { steps, failure: None }
}

} // verus!

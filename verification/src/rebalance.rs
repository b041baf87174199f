//! Rebalance schedules: keep the last observation of each period (weekly,
//! month-end, quarter-end, year-end), keyed by the calendar period of each
//! trading day, and the `freq` / `on` choice of a `Rebalance` node.

use vstd::prelude::*;
use vstd::string::*;
use std::collections::HashMap;
use crate::calendar::{
    is_date_code, code_year, code_month, code_day, code_fields, iso_week, iso_week_of,
};
use crate::error::EngineError;
use crate::text::str_eq;
use crate::panel::{
    Panel, CellGrid, MISSING, names, clone_names, grid_filled, grid_copy_rows, grid_dim, grid_get, grid_at,
    grid_rows, grid_cols, grid_wf, grid_shape, lemma_copy_rows_at, lemma_filled_at, is_finite_bits,
    is_zero_bits,
};

verus! {

broadcast use vstd::std_specs::hash::group_hash_axioms;

/// Rebalance period.
#[derive(Clone, Copy, Debug, PartialEq, Eq, Structural)]
pub enum Freq {
    Weekly,
    MonthEnd,
    QuarterEnd,
    YearEnd,
}

/// The period a day code belongs to, as a sortable key: ISO year * 100 + ISO
/// week, year * 100 + month, year * 10 + quarter index, or the year.
pub open spec fn spec_period_key(code: int, freq: Freq) -> int {
    let y = code_year(code);
    let m = code_month(code);
    match freq {
        Freq::Weekly => {
            let w = iso_week_of(y, m, code_day(code));
            w.0 * 100 + w.1
        },
        Freq::MonthEnd => y * 100 + m,
        Freq::QuarterEnd => y * 10 + (m - 1) / 3,
        Freq::YearEnd => y,
    }
}

/// The period key of a real day.
pub fn period_key(code: i32, freq: Freq) -> (r: i64)
    requires
        is_date_code(code as int),
    ensures
        r as int == spec_period_key(code as int, freq),
{
    let (y, m, d) = code_fields(code);
    match freq {
        Freq::Weekly => {
            let (iy, iw) = iso_week(y, m, d);
            iy as i64 * 100 + iw as i64
        },
        Freq::MonthEnd => y as i64 * 100 + m as i64,
        Freq::QuarterEnd => y as i64 * 10 + ((m as i64 - 1) / 3),
        Freq::YearEnd => y as i64,
    }
}

/// The calendar quarter (0 to 3) of a month: January-March, April-June,
/// July-September, October-December.
pub open spec fn calendar_quarter(m: int) -> int {
    if m <= 3 {
        0
    } else if m <= 6 {
        1
    } else if m <= 9 {
        2
    } else {
        3
    }
}

/// Period keys name calendar periods: two real days get the same
/// month-end key exactly when they fall in the same month of the same
/// year, the same quarter-end key exactly when they fall in the same
/// calendar quarter (January-March, April-June, July-September,
/// October-December) of the same year, and the same year-end key exactly
/// when they fall in the same year; and the keys follow the calendar (an
/// earlier day never has a later period).
pub proof fn law_period_keys_name_calendar_periods(a: int, b: int)
    requires
        is_date_code(a),
        is_date_code(b),
    ensures
        (spec_period_key(a, Freq::MonthEnd) == spec_period_key(b, Freq::MonthEnd)) <==> (code_year(a)
            == code_year(b) && code_month(a) == code_month(b)),
        (spec_period_key(a, Freq::QuarterEnd) == spec_period_key(b, Freq::QuarterEnd)) <==> (code_year(a)
            == code_year(b) && calendar_quarter(code_month(a)) == calendar_quarter(code_month(b))),
        (spec_period_key(a, Freq::YearEnd) == spec_period_key(b, Freq::YearEnd)) <==> code_year(a) == code_year(
            b,
        ),
        a <= b ==> spec_period_key(a, Freq::MonthEnd) <= spec_period_key(b, Freq::MonthEnd),
        a <= b ==> spec_period_key(a, Freq::QuarterEnd) <= spec_period_key(b, Freq::QuarterEnd),
        a <= b ==> spec_period_key(a, Freq::YearEnd) <= spec_period_key(b, Freq::YearEnd),
{
    let ya = code_year(a);
    let yb = code_year(b);
    let ma = code_month(a);
    let mb = code_month(b);
    assert(1 <= ma <= 12 && 1 <= mb <= 12);
    let qa = (ma - 1) / 3;
    let qb = (mb - 1) / 3;
    assert(qa == calendar_quarter(ma));
    assert(qb == calendar_quarter(mb));
    assert(spec_period_key(a, Freq::QuarterEnd) == ya * 10 + qa);
    assert(spec_period_key(b, Freq::QuarterEnd) == yb * 10 + qb);
    assert(spec_period_key(a, Freq::MonthEnd) == ya * 100 + ma);
    assert(spec_period_key(b, Freq::MonthEnd) == yb * 100 + mb);
    if a <= b {
        assert(ya <= yb) by (nonlinear_arith)
            requires
                ya == a / 10000,
                yb == b / 10000,
                a <= b,
                a >= 0,
        ;
        if ya == yb {
            assert(ma <= mb) by (nonlinear_arith)
                requires
                    ya == a / 10000,
                    yb == b / 10000,
                    ya == yb,
                    ma == (a / 100) % 100,
                    mb == (b / 100) % 100,
                    a <= b,
                    a >= 0,
            ;
        }
    }
}

/// The frequency named by a spec's `freq` string (`W`, `ME`, `QE`, `YE`).
pub open spec fn spec_freq_of(s: Seq<char>) -> Option<Freq> {
    if s == "W"@ {
        Some(Freq::Weekly)
    } else if s == "ME"@ {
        Some(Freq::MonthEnd)
    } else if s == "QE"@ {
        Some(Freq::QuarterEnd)
    } else if s == "YE"@ {
        Some(Freq::YearEnd)
    } else {
        None
    }
}

/// Parse a `freq` string; anything else is `BadFreq`.
pub fn parse_freq(s: &str) -> (r: Result<Freq, EngineError>)
    ensures
        r is Ok <==> spec_freq_of(s@) is Some,
        r matches Ok(f) ==> spec_freq_of(s@) == Some(f),
        r matches Err(e) ==> e matches EngineError::BadFreq { freq } && freq@ == s@,
{
    if str_eq(s, "W") {
        Ok(Freq::Weekly)
    } else if str_eq(s, "ME") {
        Ok(Freq::MonthEnd)
    } else if str_eq(s, "QE") {
        Ok(Freq::QuarterEnd)
    } else if str_eq(s, "YE") {
        Ok(Freq::YearEnd)
    } else {
        Err(EngineError::BadFreq { freq: String::from_str(s) })
    }
}

/// The schedule a `Rebalance` node asks for: a period (`freq`) or the dates
/// of a trigger series (`on`), never both and never neither.
pub enum RebalanceBy {
    Period(Freq),
    Trigger,
}

/// Resolve a `Rebalance` node's `freq` / `on` pair.
pub fn resolve_rebalance(freq: Option<&str>, has_on: bool) -> (r: Result<RebalanceBy, EngineError>)
    ensures
        freq is Some && has_on ==> r matches Err(EngineError::RebalanceBoth),
        freq is None && !has_on ==> r matches Err(EngineError::RebalanceNeither),
        freq is None && has_on ==> r matches Ok(RebalanceBy::Trigger),
        freq is Some && !has_on ==> match r {
            Ok(RebalanceBy::Period(f)) => spec_freq_of(freq.unwrap()@) == Some(f),
            Err(EngineError::BadFreq { freq: m }) => spec_freq_of(freq.unwrap()@) is None && m@
                == freq.unwrap()@,
            _ => false,
        },
{
    match (freq, has_on) {
        (Some(_), true) => Err(EngineError::RebalanceBoth),
        (None, false) => Err(EngineError::RebalanceNeither),
        (Some(s), false) => match parse_freq(s) {
            Ok(f) => Ok(RebalanceBy::Period(f)),
            Err(e) => Err(e),
        },
        (None, true) => Ok(RebalanceBy::Trigger),
    }
}

/// Row `i` is the one kept for its period: no other row of the same period
/// has a later day, and no earlier row has the same (latest) day.
pub open spec fn is_period_last(dates: Seq<i32>, freq: Freq, i: int) -> bool {
    forall|j: int|
        0 <= j < dates.len() && j != i && spec_period_key(dates[j] as int, freq) == spec_period_key(
            dates[i] as int,
            freq,
        ) ==> dates[j] < dates[i] || (dates[j] == dates[i] && i < j)
}

/// Rows kept by a period rebalance, ascending: the last observation of each
/// period (the first of equal latest days).
pub fn rebalance_rows(dates: &Vec<i32>, freq: Freq) -> (r: Vec<usize>)
    requires
        forall|i: int| 0 <= i < dates@.len() ==> is_date_code(#[trigger] dates@[i] as int),
    ensures
        forall|a: int, b: int| 0 <= a < b < r@.len() ==> r@[a] < r@[b],
        forall|a: int| 0 <= a < r@.len() ==> (#[trigger] r@[a]) < dates@.len(),
        forall|a: int| 0 <= a < r@.len() ==> is_period_last(dates@, freq, #[trigger] r@[a] as int),
        forall|i: int| 0 <= i < dates@.len() && is_period_last(dates@, freq, i) ==> r@.contains(
            i as usize,
        ),
{
    let n = dates.len();
    let mut keys: Vec<i64> = Vec::new();
    let mut i: usize = 0;
    while i < n
        invariant
            i <= n,
            n == dates@.len(),
            forall|k: int| 0 <= k < dates@.len() ==> is_date_code(#[trigger] dates@[k] as int),
            keys@.len() == i,
            forall|k: int| 0 <= k < i ==> #[trigger] keys@[k] as int == spec_period_key(dates@[k] as int, freq),
        decreases n - i,
    {
        keys.push(period_key(dates[i], freq));
        i = i + 1;
    }
    // Best row so far for each period key seen.
    let mut last: HashMap<i64, usize> = HashMap::new();
    let mut i: usize = 0;
    while i < n
        invariant
            i <= n,
            n == dates@.len(),
            keys@.len() == n,
            forall|k: int| 0 <= k < n ==> #[trigger] keys@[k] as int == spec_period_key(dates@[k] as int, freq),
            forall|k: i64| #[trigger] last@.contains_key(k) <==> exists|j: int| 0 <= j < i && keys@[j] == k,
            forall|k: i64| #[trigger] last@.contains_key(k) ==> {
                let w = last@[k] as int;
                &&& 0 <= w < i
                &&& keys@[w] == k
                &&& forall|j: int| 0 <= j < i && keys@[j] == k ==> dates@[j] < dates@[w] || (dates@[j] == dates@[w] && w <= j)
            },
        decreases n - i,
    {
        let k = keys[i];
        let d = dates[i];
        let cur = last.get(&k);
        match cur {
            Some(w) => {
                let w = *w;
                if dates[w] < d {
                    last.insert(k, i);
                }
            },
            None => {
                last.insert(k, i);
            },
        }
        i = i + 1;
    }
    let mut out: Vec<usize> = Vec::new();
    let mut i: usize = 0;
    while i < n
        invariant
            i <= n,
            n == dates@.len(),
            keys@.len() == n,
            forall|k: int| 0 <= k < n ==> #[trigger] keys@[k] as int == spec_period_key(dates@[k] as int, freq),
            forall|k: i64| #[trigger] last@.contains_key(k) <==> exists|j: int| 0 <= j < n && keys@[j] == k,
            forall|k: i64| #[trigger] last@.contains_key(k) ==> {
                let w = last@[k] as int;
                &&& 0 <= w < n
                &&& keys@[w] == k
                &&& forall|j: int| 0 <= j < n && keys@[j] == k ==> dates@[j] < dates@[w] || (dates@[j] == dates@[w] && w <= j)
            },
            forall|a: int, b: int| 0 <= a < b < out@.len() ==> out@[a] < out@[b],
            forall|a: int| 0 <= a < out@.len() ==> (#[trigger] out@[a]) < i,
            forall|a: int| 0 <= a < out@.len() ==> is_period_last(dates@, freq, #[trigger] out@[a] as int),
            forall|j: int| 0 <= j < i && is_period_last(dates@, freq, j) ==> out@.contains(j as usize),
        decreases n - i,
    {
        let k = keys[i];
        assert(last@.contains_key(k));
        let w = *last.get(&k).unwrap();
        let ghost before = out@;
        if w == i {
            proof {
                assert forall|j: int|
                    0 <= j < dates@.len() && j != i && spec_period_key(dates@[j] as int, freq)
                        == spec_period_key(dates@[i as int] as int, freq) implies dates@[j] < dates@[i as int] || (
                dates@[j] == dates@[i as int] && i < j) by {
                    assert(keys@[j] == k);
                }
            }
            out.push(i);
            proof {
                assert forall|j: int| 0 <= j < i + 1 && is_period_last(dates@, freq, j) implies out@.contains(j as usize) by {
                    if j < i {
                        assert(before.contains(j as usize));
                        let t = choose|t: int| 0 <= t < before.len() && before[t] == j as usize;
                        assert(out@[t] == j as usize);
                    } else {
                        assert(out@[out@.len() - 1] == j as usize);
                    }
                }
            }
        } else {
            proof {
                if is_period_last(dates@, freq, i as int) {
                    // The recorded winner `w` has the same key; one of the
                    // two must lose to the other.
                    assert(keys@[w as int] == k);
                    assert(keys@[i as int] == k);
                    assert(spec_period_key(dates@[w as int] as int, freq) == spec_period_key(dates@[i as int] as int, freq));
                    assert(false);
                }
            }
        }
        i = i + 1;
    }
    out
}

/// Copy row `sr` of `src` over row `r` of `dst`.
fn copy_row(dst: &mut CellGrid, r: usize, src: &CellGrid, sr: usize)
    requires
        r < grid_rows(*old(dst)),
        sr < grid_rows(*src),
        grid_cols(*old(dst)) == grid_cols(*src),
        grid_wf(*old(dst)),
        grid_wf(*src),
    ensures
        grid_shape(*final(dst)) == grid_shape(*old(dst)),
        grid_wf(*final(dst)),
        forall|i: int, j: int|
            0 <= i < grid_rows(*old(dst)) && 0 <= j < grid_cols(*old(dst)) ==> #[trigger] grid_at(
                *final(dst),
                i,
                j,
            ) == if i == r {
                grid_at(*src, sr as int, j)
            } else {
                grid_at(*old(dst), i, j)
            },
{
    grid_copy_rows(dst, r, src, sr, 1);
    proof { lemma_copy_rows_at(*old(dst), *dst, *src, r as int, sr as int, 1); }
}

/// The last row of `dates` holding day `d`, when there is one.
pub open spec fn last_row_of(dates: Seq<i32>, d: i32) -> Option<int> {
    if exists|i: int| 0 <= i < dates.len() && dates[i] == d {
        Some(choose|i: int| 0 <= i < dates.len() && dates[i] == d && forall|j: int| i < j < dates.len() ==> dates[j] != d)
    } else {
        None
    }
}

pub(crate) proof fn lemma_last_row_of(dates: Seq<i32>, d: i32, i: int)
    requires
        0 <= i < dates.len(),
        dates[i] == d,
        forall|j: int| i < j < dates.len() ==> dates[j] != d,
    ensures
        last_row_of(dates, d) == Some(i),
{
    let k = choose|k: int| 0 <= k < dates.len() && dates[k] == d && forall|j: int| k < j < dates.len() ==> dates[j] != d;
    assert(0 <= k < dates.len() && dates[k] == d && forall|j: int| k < j < dates.len() ==> dates[j] != d);
    if k < i {
        assert(dates[i] != d);
    }
    if i < k {
        assert(dates[k] != d);
    }
}

impl Panel {
    /// The panel restricted to the listed rows, in the listed order.
    pub fn select_rows(&self, rows: &Vec<usize>) -> (r: Panel)
        requires
            self.wf(),
            forall|k: int| 0 <= k < rows@.len() ==> #[trigger] rows@[k] < self.dates@.len(),
            rows@.len() <= isize::MAX,
            rows@.len() * self.symbols@.len() <= isize::MAX,
        ensures
            r.wf(),
            names(r.symbols@) == names(self.symbols@),
            r.dates@.len() == rows@.len(),
            forall|k: int| 0 <= k < rows@.len() ==> #[trigger] r.dates@[k] == self.dates@[rows@[k] as int],
            forall|k: int, j: int| 0 <= k < rows@.len() && 0 <= j < self.symbols@.len() ==> #[trigger] r.at(k, j)
                == self.at(rows@[k] as int, j),
    {
        let (_, nc) = grid_dim(&self.data);
        let mut out = grid_filled(rows.len(), nc, MISSING);
        proof { lemma_filled_at(out, MISSING); }
        let mut dates: Vec<i32> = Vec::new();
        let mut k: usize = 0;
        while k < rows.len()
            invariant
                self.wf(),
                nc == self.symbols@.len(),
                forall|q: int| 0 <= q < rows@.len() ==> #[trigger] rows@[q] < self.dates@.len(),
                k <= rows@.len(),
                grid_shape(out) == (rows@.len(), nc as nat),
                grid_wf(out),
                dates@.len() == k,
                forall|q: int| 0 <= q < k ==> #[trigger] dates@[q] == self.dates@[rows@[q] as int],
                forall|q: int, j: int| 0 <= q < k && 0 <= j < nc ==> #[trigger] grid_at(out, q, j) == self.at(rows@[q] as int, j),
            decreases rows@.len() - k,
        {
            let src = rows[k];
            copy_row(&mut out, k, &self.data, src);
            dates.push(self.dates[src]);
            k = k + 1;
        }
        let symbols = clone_names(&self.symbols);
        assert(symbols@.len() == names(symbols@).len());
        Panel { dates, symbols, data: out }
    }

    /// Downsample to the last observation within each period.
    pub fn rebalance_freq(&self, freq: Freq) -> (r: Panel)
        requires
            self.wf(),
            forall|i: int| 0 <= i < self.dates@.len() ==> is_date_code(#[trigger] self.dates@[i] as int),
            self.dates@.len() * self.symbols@.len() <= isize::MAX,
        ensures
            r.wf(),
            names(r.symbols@) == names(self.symbols@),
            exists|kept: Seq<usize>|
                #![trigger kept.len()]
                {
                    &&& forall|a: int, b: int| 0 <= a < b < kept.len() ==> kept[a] < kept[b]
                    &&& forall|a: int| 0 <= a < kept.len() ==> is_period_last(self.dates@, freq, #[trigger] kept[a] as int)
                    &&& forall|i: int| 0 <= i < self.dates@.len() && is_period_last(self.dates@, freq, i) ==> kept.contains(i as usize)
                    &&& r.dates@.len() == kept.len()
                    &&& forall|k: int| 0 <= k < kept.len() ==> #[trigger] r.dates@[k] == self.dates@[kept[k] as int]
                    &&& forall|k: int, j: int| 0 <= k < kept.len() && 0 <= j < self.symbols@.len() ==> #[trigger] r.at(k, j)
                        == self.at(kept[k] as int, j)
                },
    {
        let kept = rebalance_rows(&self.dates, freq);
        proof {
            // Kept rows are distinct rows of the panel, so there are no more
            // of them than rows.
            lemma_strict_increasing_len(kept@, self.dates@.len());
            assert(kept@.len() * self.symbols@.len() <= self.dates@.len() * self.symbols@.len()) by (nonlinear_arith)
                requires
                    kept@.len() <= self.dates@.len(),
            ;
        }
        let r = self.select_rows(&kept);
        assert(kept@.len() == r.dates@.len());
        r
    }

    /// Reindex onto an explicit date list: each requested day takes the row
    /// of its last occurrence in the panel, or a missing row.
    pub fn rebalance_dates(&self, dates: &[i32]) -> (r: Panel)
        requires
            self.wf(),
            dates@.len() <= isize::MAX,
            dates@.len() * self.symbols@.len() <= isize::MAX,
        ensures
            r.wf(),
            r.dates@ == dates@,
            names(r.symbols@) == names(self.symbols@),
            forall|k: int, j: int| 0 <= k < dates@.len() && 0 <= j < self.symbols@.len() ==> #[trigger] r.at(k, j)
                == match last_row_of(self.dates@, dates@[k]) {
                Some(i) => self.at(i, j),
                None => MISSING,
            },
    {
        let n = self.dates.len();
        let mut pos: HashMap<i32, usize> = HashMap::new();
        let mut i: usize = 0;
        while i < n
            invariant
                i <= n,
                n == self.dates@.len(),
                forall|d: i32| #[trigger] pos@.contains_key(d) <==> exists|q: int| 0 <= q < i && self.dates@[q] == d,
                forall|d: i32| #[trigger] pos@.contains_key(d) ==> {
                    let w = pos@[d] as int;
                    &&& 0 <= w < i
                    &&& self.dates@[w] == d
                    &&& forall|q: int| w < q < i ==> self.dates@[q] != d
                },
            decreases n - i,
        {
            pos.insert(self.dates[i], i);
            i = i + 1;
        }
        let (_, nc) = grid_dim(&self.data);
        let mut out = grid_filled(dates.len(), nc, MISSING);
        proof { lemma_filled_at(out, MISSING); }
        let mut out_dates: Vec<i32> = Vec::new();
        let mut k: usize = 0;
        while k < dates.len()
            invariant
                self.wf(),
                n == self.dates@.len(),
                nc == self.symbols@.len(),
                k <= dates@.len(),
                grid_shape(out) == (dates@.len(), nc as nat),
                grid_wf(out),
                out_dates@ == dates@.subrange(0, k as int),
                forall|d: i32| #[trigger] pos@.contains_key(d) <==> exists|q: int| 0 <= q < n && self.dates@[q] == d,
                forall|d: i32| #[trigger] pos@.contains_key(d) ==> {
                    let w = pos@[d] as int;
                    &&& 0 <= w < n
                    &&& self.dates@[w] == d
                    &&& forall|q: int| w < q < n ==> self.dates@[q] != d
                },
                forall|q: int, j: int| 0 <= q < dates@.len() && 0 <= j < nc ==> #[trigger] grid_at(out, q, j)
                    == if q < k {
                    match last_row_of(self.dates@, dates@[q]) {
                        Some(i) => self.at(i, j),
                        None => MISSING,
                    }
                } else {
                    MISSING
                },
            decreases dates@.len() - k,
        {
            let d = dates[k];
            match pos.get(&d) {
                Some(w) => {
                    let w = *w;
                    proof { lemma_last_row_of(self.dates@, d, w as int); }
                    copy_row(&mut out, k, &self.data, w);
                },
                None => {
                    proof {
                        if exists|q: int| 0 <= q < n && self.dates@[q] == d {
                            assert(pos@.contains_key(d));
                        }
                    }
                },
            }
            out_dates.push(d);
            k = k + 1;
            assert(out_dates@ =~= dates@.subrange(0, k as int));
        }
        assert(out_dates@ =~= dates@);
        let symbols = clone_names(&self.symbols);
        assert(symbols@.len() == names(symbols@).len());
        Panel { dates: out_dates, symbols, data: out }
    }

    /// The days on which some cell is finite and non-zero (the dates a
    /// `Rebalance { on }` trigger series fires), in row order.
    pub fn trigger_dates(&self) -> (r: Vec<i32>)
        requires
            self.wf(),
        ensures
            r@ == spec_trigger_dates(self, self.dates@.len() as int),
    {
        let n = self.dates.len();
        let nc = self.symbols.len();
        let mut out: Vec<i32> = Vec::new();
        let mut i: usize = 0;
        while i < n
            invariant
                self.wf(),
                i <= n,
                n == self.dates@.len(),
                nc == self.symbols@.len(),
                out@ == spec_trigger_dates(self, i as int),
            decreases n - i,
        {
            let mut fires = false;
            let mut c: usize = 0;
            while c < nc
                invariant
                    self.wf(),
                    i < n,
                    n == self.dates@.len(),
                    nc == self.symbols@.len(),
                    c <= nc,
                    fires == exists|q: int| 0 <= q < c && #[trigger] cell_fires(self.at(i as int, q)),
                decreases nc - c,
            {
                let v = self.cell(i, c);
                let f = (v >> 52) & 0x7FF != 0x7FF && v & 0x7FFF_FFFF_FFFF_FFFF != 0;
                assert(f == cell_fires(self.at(i as int, c as int)));
                let ghost prev = fires;
                if f {
                    fires = true;
                }
                proof {
                    if !prev && !f {
                        assert forall|q: int| 0 <= q < c + 1 implies !#[trigger] cell_fires(self.at(i as int, q)) by {
                            if q < c {
                            }
                        }
                    }
                }
                c = c + 1;
            }
            if fires {
                out.push(self.dates[i]);
            }
            i = i + 1;
        }
        out
    }
}

/// A trigger cell fires when it is finite and non-zero.
pub open spec fn cell_fires(x: u64) -> bool {
    is_finite_bits(x) && !is_zero_bits(x)
}

/// The firing days among the first `i` rows.
pub open spec fn spec_trigger_dates(p: &Panel, i: int) -> Seq<i32>
    decreases i,
{
    if i <= 0 {
        Seq::empty()
    } else {
        let prev = spec_trigger_dates(p, i - 1);
        if exists|q: int| 0 <= q < p.symbols@.len() && #[trigger] cell_fires(p.at(i - 1, q)) {
            prev.push(p.dates@[i - 1])
        } else {
            prev
        }
    }
}

proof fn lemma_strict_increasing_len(s: Seq<usize>, n: nat)
    requires
        forall|a: int, b: int| 0 <= a < b < s.len() ==> s[a] < s[b],
        forall|a: int| 0 <= a < s.len() ==> (#[trigger] s[a]) < n,
    ensures
        s.len() <= n,
    decreases s.len(),
{
    if s.len() > 0 {
        let t = s.drop_last();
        assert forall|a: int| 0 <= a < t.len() implies (#[trigger] t[a]) < s.last() by {
            assert(t[a] == s[a]);
        }
        assert(s.last() == s[s.len() - 1]);
        lemma_strict_increasing_len(t, s.last() as nat);
    }
}

} // verus!

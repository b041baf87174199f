//! The proleptic Gregorian calendar behind packed `YYYYMMDD` day codes:
//! which codes name real days, the ISO week of a day, year shifting with the
//! Feb-29 clamp, and the lookback anchors of the trailing-return metrics.

use vstd::prelude::*;

verus! {

/// Earliest year a calendar date may carry.
pub const MIN_YEAR: i32 = -262143;

/// Latest year a calendar date may carry.
pub const MAX_YEAR: i32 = 262142;

pub open spec fn is_leap_year(y: int) -> bool {
    (y % 4 == 0 && y % 100 != 0) || y % 400 == 0
}

pub open spec fn days_in_month(y: int, m: int) -> int {
    if m == 2 {
        if is_leap_year(y) {
            29
        } else {
            28
        }
    } else if m == 4 || m == 6 || m == 9 || m == 11 {
        30
    } else {
        31
    }
}

/// A real calendar day within the supported year range.
pub open spec fn is_civil_date(y: int, m: int, d: int) -> bool {
    MIN_YEAR <= y <= MAX_YEAR && 1 <= m <= 12 && 1 <= d <= days_in_month(y, m)
}

pub open spec fn code_year(code: int) -> int {
    code / 10000
}

pub open spec fn code_month(code: int) -> int {
    (code / 100) % 100
}

pub open spec fn code_day(code: int) -> int {
    code % 100
}

/// A packed code that names a real day (negative codes never do: their
/// month field is not a month).
pub open spec fn is_date_code(code: int) -> bool {
    code >= 0 && is_civil_date(code_year(code), code_month(code), code_day(code))
}

pub open spec fn pack(y: int, m: int, d: int) -> int {
    y * 10000 + m * 100 + d
}

proof fn lemma_divisible_abs(y: int, k: int)
    requires
        k > 0,
    ensures
        (y % k == 0) == ((if y < 0 { -y } else { y }) % k == 0),
{
    if y < 0 {
        if y % k == 0 {
            vstd::arithmetic::div_mod::lemma_fundamental_div_mod(y, k);
            assert(-y == k * (-(y / k))) by (nonlinear_arith)
                requires
                    y == k * (y / k),
            ;
            vstd::arithmetic::div_mod::lemma_mod_multiples_basic(-(y / k), k);
            assert((k * (-(y / k))) == (-(y / k)) * k) by (nonlinear_arith);
        }
        if (-y) % k == 0 {
            vstd::arithmetic::div_mod::lemma_fundamental_div_mod(-y, k);
            assert(y == k * (-((-y) / k))) by (nonlinear_arith)
                requires
                    -y == k * ((-y) / k),
            ;
            vstd::arithmetic::div_mod::lemma_mod_multiples_basic(-((-y) / k), k);
            assert((k * (-((-y) / k))) == (-((-y) / k)) * k) by (nonlinear_arith);
        }
    }
}

fn is_leap(y: i32) -> (r: bool)
    ensures
        r == is_leap_year(y as int),
{
    // Divisibility does not depend on the sign.
    let a: i64 = if y < 0 {
        -(y as i64)
    } else {
        y as i64
    };
    let y4 = a % 4 == 0;
    let y100 = a % 100 == 0;
    let y400 = a % 400 == 0;
    proof {
        lemma_divisible_abs(y as int, 4);
        lemma_divisible_abs(y as int, 100);
        lemma_divisible_abs(y as int, 400);
    }
    (y4 && !y100) || y400
}

fn month_days(y: i32, m: u32) -> (r: u32)
    requires
        1 <= m <= 12,
    ensures
        r as int == days_in_month(y as int, m as int),
{
    if m == 2 {
        if is_leap(y) {
            29
        } else {
            28
        }
    } else if m == 4 || m == 6 || m == 9 || m == 11 {
        30
    } else {
        31
    }
}

/// Whether `(y, m, d)` is a real day in the supported range.
pub fn is_civil(y: i32, m: u32, d: u32) -> (r: bool)
    ensures
        r == is_civil_date(y as int, m as int, d as int),
{
    if y < MIN_YEAR || y > MAX_YEAR || m < 1 || m > 12 || d < 1 {
        return false;
    }
    d <= month_days(y, m)
}

/// Split a non-negative packed code into its year / month / day fields.
pub fn code_fields(code: i32) -> (r: (i32, u32, u32))
    requires
        code >= 0,
    ensures
        r.0 as int == code_year(code as int),
        r.1 as int == code_month(code as int),
        r.2 as int == code_day(code as int),
{
    (code / 10000, ((code / 100) % 100) as u32, (code % 100) as u32)
}

/// Whether a packed code names a real day.
pub fn is_valid_date_code(code: i32) -> (r: bool)
    ensures
        r == is_date_code(code as int),
{
    if code < 0 {
        return false;
    }
    let (y, m, d) = code_fields(code);
    is_civil(y, m, d)
}

/// ISO-8601 (week-numbering year, week number) of a calendar day.
pub uninterp spec fn iso_week_of(y: int, m: int, d: int) -> (int, int);

/// The ISO week of a day, from `chrono::NaiveDate::iso_week` on the date
/// `chrono::NaiveDate::from_ymd_opt(y, m, d)` (which exists for every civil
/// date). Claims only that the result is the ISO week of that day, named by
/// [`iso_week_of`], and that the week number lies in `1..=53` as chrono's
/// documentation states.
#[verifier::external_body]
pub(crate) fn iso_week(y: i32, m: u32, d: u32) -> (r: (i32, u32))
    requires
        is_civil_date(y as int, m as int, d as int),
    ensures
        (r.0 as int, r.1 as int) == iso_week_of(y as int, m as int, d as int),
        1 <= r.1 <= 53,
{
    let w = chrono::Datelike::iso_week(&chrono::NaiveDate::from_ymd_opt(y, m, d).unwrap());
    (w.year(), w.week())
}

/// The packed day `delta` years away with the same month and day, or the
/// 28th of that month when the day does not exist in the target year.
pub open spec fn spec_shift_years(code: int, delta: int) -> int {
    let y = code_year(code) + delta;
    let m = code_month(code);
    let d = code_day(code);
    if is_civil_date(y, m, d) {
        pack(y, m, d)
    } else {
        pack(y, m, 28)
    }
}

/// Shift a `YYYYMMDD` day by `delta` years, clamping an invalid Feb-29
/// target to Feb-28. Anchors the trailing-return windows.
pub fn shift_years(code: i32, delta: i32) -> (r: i32)
    requires
        is_date_code(code as int),
        MIN_YEAR <= code_year(code as int) + delta <= MAX_YEAR,
        i32::MIN <= pack(code_year(code as int) + delta, code_month(code as int), 31) <= i32::MAX,
    ensures
        r as int == spec_shift_years(code as int, delta as int),
{
    let (y, m, d) = code_fields(code);
    let y2 = y + delta;
    let day = if is_civil(y2, m, d) {
        d
    } else {
        28
    };
    assert(pack(y2 as int, m as int, day as int) <= pack(y2 as int, m as int, 31));
    y2 * 10000 + (m as i32) * 100 + (day as i32)
}

/// The last close of the prior calendar year, as a packed code:
/// `(year(last) - 1) * 10000 + 1231`.
pub fn prior_year_end(last: i32) -> (r: i32)
    requires
        last >= 0,
    ensures
        r as int == (code_year(last as int) - 1) * 10000 + 1231,
{
    (last / 10000 - 1) * 10000 + 1231
}

/// Index of the last day on or before `target`, when there is one.
pub fn anchor_index(dates: &Vec<i32>, target: i32) -> (r: Option<usize>)
    ensures
        r is None <==> forall|i: int| 0 <= i < dates@.len() ==> dates@[i] > target,
        r matches Some(k) ==> k < dates@.len() && dates@[k as int] <= target && forall|i: int|
            k < i < dates@.len() ==> dates@[i] > target,
{
    let mut i: usize = dates.len();
    while i > 0
        invariant
            i <= dates@.len(),
            forall|j: int| i <= j < dates@.len() ==> dates@[j] > target,
        decreases i,
    {
        if dates[i - 1] <= target {
            return Some(i - 1);
        }
        i = i - 1;
    }
    None
}

} // verus!

//! Packed trading-day codes: `YYYY-MM-DD` text <-> `i32` `YYYYMMDD`.
//!
//! Parsing drops every dash and reads the rest as a decimal `i32` (so
//! `2024-01-02` and `20240102` both give `20240102`); formatting splits the
//! code into year / month / day fields with truncating division and pads
//! them to widths 4 / 2 / 2. Every non-negative code survives a format ->
//! parse round trip.

use vstd::prelude::*;
use vstd::string::*;
use vstd::arithmetic::div_mod::{lemma_fundamental_div_mod, lemma_div_denominator};
use crate::error::DataError;
use crate::text::{
    is_digit, all_digits, digit_value, digits_value, pow10, digit_char, decimal, push_decimal,
    decimal_len, lemma_pow10_pos, lemma_digits_value_nonneg, lemma_digits_value_concat,
    lemma_decimal,
};

verus! {

// ---------------------------------------------------------------------------
// Decimal digit sequences
// ---------------------------------------------------------------------------

pub open spec fn zeros(k: nat) -> Seq<char> {
    Seq::new(k, |i: int| '0')
}

/// Left-pad with `'0'` up to `width` characters.
pub open spec fn zero_pad(s: Seq<char>, width: nat) -> Seq<char> {
    if s.len() < width {
        zeros((width - s.len()) as nat) + s
    } else {
        s
    }
}

/// `format!("{:0w$}", v)`: the sign comes first, zeros go between sign and
/// digits, and the width counts the sign.
pub open spec fn fmt_padded(v: int, width: nat) -> Seq<char> {
    if v < 0 {
        seq!['-'] + zero_pad(decimal((-v) as nat), (width - 1) as nat)
    } else {
        zero_pad(decimal(v as nat), width)
    }
}

/// Truncating (round toward zero) integer division, as `/` on `i32`.
pub open spec fn trunc_div(a: int, b: int) -> int {
    if a >= 0 {
        a / b
    } else {
        -((-a) / b)
    }
}

/// Remainder of truncating division, as `%` on `i32` (sign of the dividend).
pub open spec fn trunc_rem(a: int, b: int) -> int {
    if a >= 0 {
        a % b
    } else {
        -((-a) % b)
    }
}

/// `format!("{:04}-{:02}-{:02}", d / 10000, d / 100 % 100, d % 100)`.
pub open spec fn spec_format_date(d: int) -> Seq<char> {
    fmt_padded(trunc_div(d, 10000), 4) + seq!['-'] + fmt_padded(
        trunc_rem(trunc_div(d, 100), 100),
        2,
    ) + seq!['-'] + fmt_padded(trunc_rem(d, 100), 2)
}

/// The text with every `'-'` removed.
pub open spec fn strip_dashes(s: Seq<char>) -> Seq<char>
    decreases s.len(),
{
    if s.len() == 0 {
        Seq::empty()
    } else if s.last() == '-' {
        strip_dashes(s.drop_last())
    } else {
        strip_dashes(s.drop_last()).push(s.last())
    }
}

/// `i32::from_str` on text that holds no `'-'`: an optional leading `'+'`,
/// then at least one ASCII digit, with the value in range.
pub open spec fn spec_parse_i32(t: Seq<char>) -> Option<i32> {
    let body = if t.len() > 0 && t[0] == '+' {
        t.subrange(1, t.len() as int)
    } else {
        t
    };
    if body.len() > 0 && all_digits(body) && digits_value(body) <= i32::MAX {
        Some(digits_value(body) as i32)
    } else {
        None
    }
}

/// The packed code of a date text, dashes optional.
pub open spec fn spec_date_code(s: Seq<char>) -> Option<i32> {
    spec_parse_i32(strip_dashes(s))
}

/// The message carried by a rejected date text.
pub open spec fn bad_date_message(s: Seq<char>) -> Seq<char> {
    "bad date '"@ + s + "'"@
}

// ---------------------------------------------------------------------------
// Lemmas about digit runs
// ---------------------------------------------------------------------------

proof fn lemma_zeros_value(k: nat)
    ensures
        digits_value(zeros(k)) == 0,
        all_digits(zeros(k)),
    decreases k,
{
    if k > 0 {
        assert(zeros(k).drop_last() =~= zeros((k - 1) as nat));
        lemma_zeros_value((k - 1) as nat);
    }
}

proof fn lemma_zero_pad(s: Seq<char>, width: nat)
    requires
        all_digits(s),
    ensures
        all_digits(zero_pad(s, width)),
        digits_value(zero_pad(s, width)) == digits_value(s),
        zero_pad(s, width).len() == if s.len() < width { width } else { s.len() },
{
    if s.len() < width {
        let k = (width - s.len()) as nat;
        lemma_zeros_value(k);
        lemma_digits_value_concat(zeros(k), s);
        let z = zeros(k) + s;
        assert forall|i: int| 0 <= i < z.len() implies is_digit(#[trigger] z[i]) by {
            if i < k {
                assert(z[i] == zeros(k)[i]);
            } else {
                assert(z[i] == s[i - k]);
            }
        }
    }
}

proof fn lemma_strip_dashes_concat(x: Seq<char>, y: Seq<char>)
    ensures
        strip_dashes(x + y) == strip_dashes(x) + strip_dashes(y),
    decreases y.len(),
{
    if y.len() == 0 {
        assert(x + y =~= x);
        assert(strip_dashes(x) + strip_dashes(y) =~= strip_dashes(x));
    } else {
        assert((x + y).drop_last() =~= x + y.drop_last());
        lemma_strip_dashes_concat(x, y.drop_last());
        if y.last() != '-' {
            assert(strip_dashes(x) + strip_dashes(y.drop_last()).push(y.last()) =~= (strip_dashes(x)
                + strip_dashes(y.drop_last())).push(y.last()));
        }
    }
}

proof fn lemma_strip_no_dash(s: Seq<char>)
    requires
        !s.contains('-'),
    ensures
        strip_dashes(s) == s,
    decreases s.len(),
{
    if s.len() > 0 {
        assert(s.drop_last().len() < s.len());
        if s.drop_last().contains('-') {
            let j = choose|j: int| 0 <= j < s.drop_last().len() && s.drop_last()[j] == '-';
            assert(s[j] == '-');
        }
        lemma_strip_no_dash(s.drop_last());
        assert(s.last() == s[s.len() - 1]);
        assert(s.drop_last().push(s.last()) =~= s);
    }
}

proof fn lemma_digits_no_dash(s: Seq<char>)
    requires
        all_digits(s),
    ensures
        !s.contains('-'),
{
    if s.contains('-') {
        let j = choose|j: int| 0 <= j < s.len() && s[j] == '-';
        assert(is_digit(s[j]));
    }
}

proof fn lemma_all_digits_concat(x: Seq<char>, y: Seq<char>)
    requires
        all_digits(x),
        all_digits(y),
    ensures
        all_digits(x + y),
{
    assert forall|i: int| 0 <= i < (x + y).len() implies is_digit(#[trigger] (x + y)[i]) by {
        if i < x.len() {
            assert((x + y)[i] == x[i]);
        } else {
            assert((x + y)[i] == y[i - x.len()]);
        }
    }
}

/// Formatting a non-negative code and parsing it back gives the code.
pub proof fn lemma_date_round_trip(d: int)
    requires
        0 <= d <= i32::MAX,
    ensures
        spec_date_code(spec_format_date(d)) == Some(d as i32),
{
    let a = d / 10000;
    let b = (d / 100) % 100;
    let c = d % 100;
    lemma_fundamental_div_mod(d, 100);
    lemma_fundamental_div_mod(d / 100, 100);
    lemma_div_denominator(d, 100, 100);
    assert(trunc_div(d, 10000) == a);
    assert(d / 100 >= 0);
    assert(trunc_rem(trunc_div(d, 100), 100) == b);
    assert(trunc_rem(d, 100) == c);
    assert(a >= 0 && 0 <= b < 100 && 0 <= c < 100);
    assert(d == a * 10000 + b * 100 + c) by (nonlinear_arith)
        requires
            d == 100 * (d / 100) + c,
            d / 100 == 100 * ((d / 100) / 100) + b,
            (d / 100) / 100 == a,
    ;
    lemma_decimal(a as nat);
    lemma_decimal(b as nat);
    lemma_decimal(c as nat);
    let pa = zero_pad(decimal(a as nat), 4);
    let pb = zero_pad(decimal(b as nat), 2);
    let pc = zero_pad(decimal(c as nat), 2);
    lemma_zero_pad(decimal(a as nat), 4);
    lemma_zero_pad(decimal(b as nat), 2);
    lemma_zero_pad(decimal(c as nat), 2);
    assert(pb.len() == 2 && pc.len() == 2);
    assert(pa.len() >= 1);
    let text = spec_format_date(d);
    assert(text == pa + seq!['-'] + pb + seq!['-'] + pc);
    // Stripping the two separators leaves the three digit runs.
    lemma_digits_no_dash(pa);
    lemma_digits_no_dash(pb);
    lemma_digits_no_dash(pc);
    lemma_strip_no_dash(pa);
    lemma_strip_no_dash(pb);
    lemma_strip_no_dash(pc);
    let dash = seq!['-'];
    assert(strip_dashes(dash) =~= Seq::<char>::empty()) by {
        assert(dash.drop_last() =~= Seq::<char>::empty());
        assert(dash.last() == '-');
        reveal_with_fuel(strip_dashes, 2);
    }
    lemma_strip_dashes_concat(pa + dash + pb + dash, pc);
    lemma_strip_dashes_concat(pa + dash + pb, dash);
    lemma_strip_dashes_concat(pa + dash, pb);
    lemma_strip_dashes_concat(pa, dash);
    let body = pa + pb + pc;
    assert(strip_dashes(text) =~= body);
    // Its value is the code.
    lemma_all_digits_concat(pa, pb);
    lemma_all_digits_concat(pa + pb, pc);
    lemma_digits_value_concat(pa + pb, pc);
    lemma_digits_value_concat(pa, pb);
    assert(pow10(2) == 100) by {
        reveal_with_fuel(pow10, 3);
    }
    assert(digits_value(body) == (a * 100 + b) * 100 + c);
    assert(digits_value(body) == d) by (nonlinear_arith)
        requires
            digits_value(body) == (a * 100 + b) * 100 + c,
            d == a * 10000 + b * 100 + c,
    ;
    // The text does not start with '+'.
    if decimal(a as nat).len() < 4 {
        assert(pa[0] == '0');
    } else {
        assert(pa == decimal(a as nat));
    }
    assert(body[0] == pa[0]);
    assert(body.len() > 0);
}

/// The text of a non-negative code is digit runs joined by `'-'`, with a
/// digit first and last.
pub proof fn lemma_format_date_shape(d: int)
    requires
        0 <= d <= i32::MAX,
    ensures
        spec_format_date(d).len() > 0,
        is_digit(spec_format_date(d)[0]),
        is_digit(spec_format_date(d).last()),
        forall|k: int| 0 <= k < spec_format_date(d).len() ==> is_digit(#[trigger] spec_format_date(d)[k])
            || spec_format_date(d)[k] == '-',
{
    let a = d / 10000;
    let b = (d / 100) % 100;
    let c = d % 100;
    assert(trunc_div(d, 10000) == a);
    assert(d / 100 >= 0);
    assert(trunc_rem(trunc_div(d, 100), 100) == b);
    assert(trunc_rem(d, 100) == c);
    lemma_decimal(a as nat);
    lemma_decimal(b as nat);
    lemma_decimal(c as nat);
    let pa = zero_pad(decimal(a as nat), 4);
    let pb = zero_pad(decimal(b as nat), 2);
    let pc = zero_pad(decimal(c as nat), 2);
    lemma_zero_pad(decimal(a as nat), 4);
    lemma_zero_pad(decimal(b as nat), 2);
    lemma_zero_pad(decimal(c as nat), 2);
    let dash = seq!['-'];
    let text = spec_format_date(d);
    assert(text == pa + dash + pb + dash + pc);
    assert(pa.len() >= 1 && pc.len() >= 1);
    assert(text[0] == pa[0]);
    assert(text.last() == pc.last());
    assert(is_digit(pc[pc.len() - 1]));
    assert forall|k: int| 0 <= k < text.len() implies is_digit(#[trigger] text[k]) || text[k] == '-' by {
        let la = pa.len() as int;
        let lb = pb.len() as int;
        if k < la {
            assert(text[k] == pa[k]);
        } else if k == la {
        } else if k < la + 1 + lb {
            assert(text[k] == pb[k - la - 1]);
        } else if k == la + 1 + lb {
        } else {
            assert(text[k] == pc[k - la - 2 - lb]);
        }
    }
}

// ---------------------------------------------------------------------------
// Executable parsing and formatting
// ---------------------------------------------------------------------------

/// Parse a date string into packed `YYYYMMDD`. Dashes are optional
/// (`2024-01-02` and `20240102` both work).
pub fn date_to_i32(s: &str) -> (r: Result<i32, DataError>)
    ensures
        r is Ok <==> spec_date_code(s@) is Some,
        r matches Ok(v) ==> spec_date_code(s@) == Some(v),
        r matches Err(e) ==> e matches DataError::Parse(m) && m@ == bad_date_message(s@),
{
    let n = s.unicode_len();
    let mut t: Vec<char> = Vec::new();
    let mut i: usize = 0;
    while i < n
        invariant
            n == s@.len(),
            i <= n,
            t@ == strip_dashes(s@.subrange(0, i as int)),
        decreases n - i,
    {
        let c = s.get_char(i);
        proof {
            assert(s@.subrange(0, i + 1).drop_last() =~= s@.subrange(0, i as int));
            assert(s@.subrange(0, i + 1).last() == c);
        }
        if c != '-' {
            t.push(c);
        }
        i = i + 1;
    }
    assert(s@.subrange(0, n as int) =~= s@);
    match parse_i32_digits(&t) {
        Some(v) => Ok(v),
        None => {
            let mut m = String::from_str("bad date '");
            m.append(s);
            m.append("'");
            Err(DataError::Parse(m))
        },
    }
}

/// `i32::from_str` on a character run that holds no `'-'`.
pub(crate) fn parse_i32_digits(t: &Vec<char>) -> (r: Option<i32>)
    ensures
        r == spec_parse_i32(t@),
{
    let len = t.len();
    let start: usize = if len > 0 && t[0] == '+' {
        1
    } else {
        0
    };
    let ghost body = if t@.len() > 0 && t@[0] == '+' {
        t@.subrange(1, t@.len() as int)
    } else {
        t@
    };
    assert(body =~= t@.subrange(start as int, len as int));
    if start >= len {
        return None;
    }
    let mut acc: i64 = 0;
    let mut i: usize = start;
    while i < len
        invariant
            start <= i <= len,
            len == t@.len(),
            body == t@.subrange(start as int, len as int),
            body == (if t@.len() > 0 && t@[0] == '+' {
                t@.subrange(1, t@.len() as int)
            } else {
                t@
            }),
            all_digits(t@.subrange(start as int, i as int)),
            acc == digits_value(t@.subrange(start as int, i as int)),
            0 <= acc <= i32::MAX,
        decreases len - i,
    {
        let c = t[i];
        let ghost pre = t@.subrange(start as int, i as int);
        let ghost next = t@.subrange(start as int, i + 1);
        assert(next.drop_last() =~= pre);
        assert(next.last() == c);
        if !('0' <= c && c <= '9') {
            assert(body[i - start] == c);
            assert(!is_digit(body[i - start]));
            return None;
        }
        let dv = (c as u32 - '0' as u32) as i64;
        assert(dv == digit_value(c));
        acc = acc * 10 + dv;
        assert(acc == digits_value(next));
        assert forall|j: int| 0 <= j < next.len() implies is_digit(#[trigger] next[j]) by {
            if j < pre.len() {
                assert(next[j] == pre[j]);
            }
        }
        if acc > i32::MAX as i64 {
            proof {
                // Every longer all-digit run has a value at least as large.
                let rest = t@.subrange(i + 1, len as int);
                assert(body =~= next + rest);
                lemma_digits_value_concat(next, rest);
                lemma_pow10_pos(rest.len());
                if all_digits(body) {
                    assert(all_digits(rest)) by {
                        assert forall|j: int| 0 <= j < rest.len() implies is_digit(#[trigger] rest[j]) by {
                            assert(rest[j] == body[j + next.len()]);
                        }
                    }
                    lemma_digits_value_nonneg(rest);
                    assert(digits_value(next) * pow10(rest.len()) >= digits_value(next))
                        by (nonlinear_arith)
                        requires
                            digits_value(next) >= 0,
                            pow10(rest.len()) >= 1,
                    ;
                    assert(digits_value(body) > i32::MAX);
                }
            }
            return None;
        }
        i = i + 1;
    }
    Some(acc as i32)
}

/// The one-character text of a decimal digit.
fn push_padded(out: &mut String, negative: bool, mag: u32, width: u32)
    requires
        1 <= width <= 4,
    ensures
        final(out)@ == old(out)@ + fmt_padded(if negative { -(mag as int) } else { mag as int }, width as nat),
{
    let neg = negative && mag > 0;
    let w = if neg {
        width - 1
    } else {
        width
    };
    if neg {
        proof { reveal_strlit("-"); }
        out.append("-");
    }
    let ghost mid = out@;
    proof { lemma_decimal(mag as nat); }
    let len = decimal_len(mag as u64) as u32;
    let mut k: u32 = len;
    while k < w
        invariant
            len as nat == decimal(mag as nat).len(),
            len <= k,
            k <= w || w < len,
            w < len ==> k == len,
            out@ == mid + zeros((k - len) as nat),
        decreases w - k,
    {
        proof { reveal_strlit("0"); }
        out.append("0");
        k = k + 1;
        assert(zeros((k - 1 - len) as nat).push('0') =~= zeros((k - len) as nat));
    }
    assert(out@ == mid + zeros((k - len) as nat));
    push_decimal(out, mag as u64);
    assert(out@ == mid + zeros((k - len) as nat) + decimal(mag as nat));
    proof {
        if neg {
            assert(mid == old(out)@ + seq!['-']);
        } else {
            assert(mid == old(out)@);
        }
        let v = if negative { -(mag as int) } else { mag as int };
        let dec = decimal(mag as nat);
        if len < w {
            assert(k == w);
            assert(zero_pad(dec, w as nat) == zeros((w - len) as nat) + dec);
        } else {
            assert(k == len);
            assert(zeros(0) =~= Seq::<char>::empty());
            assert(zero_pad(dec, w as nat) == dec);
        }
        assert(out@ =~= mid + zero_pad(dec, w as nat));
        if neg {
            assert(v < 0);
            assert(decimal((-v) as nat) == dec);
            assert(fmt_padded(v, width as nat) == seq!['-'] + zero_pad(decimal((-v) as nat), (width - 1) as nat));
            assert(out@ =~= old(out)@ + fmt_padded(v, width as nat));
        } else {
            assert(v >= 0);
            assert(decimal(v as nat) == dec);
            assert(fmt_padded(v, width as nat) == zero_pad(dec, width as nat));
            assert(out@ =~= old(out)@ + fmt_padded(v, width as nat));
        }
    }
}

/// Format a packed `YYYYMMDD` as `YYYY-MM-DD` (year padded to 4, month and
/// day to 2, each field taken with truncating division).
pub fn i32_to_date(d: i32) -> (r: String)
    ensures
        r@ == spec_format_date(d as int),
{
    let negative = d < 0;
    let mag: u32 = if negative {
        (-(d as i64)) as u32
    } else {
        d as u32
    };
    let y = mag / 10000;
    let m = (mag / 100) % 100;
    let dd = mag % 100;
    proof {
        let di = d as int;
        if negative {
            assert(trunc_div(di, 10000) == -(y as int));
            assert(trunc_div(di, 100) == -((mag / 100) as int));
            assert(trunc_rem(trunc_div(di, 100), 100) == -(m as int));
            assert(trunc_rem(di, 100) == -(dd as int));
        } else {
            assert(trunc_div(di, 10000) == y as int);
            assert(trunc_rem(trunc_div(di, 100), 100) == m as int);
            assert(trunc_rem(di, 100) == dd as int);
        }
    }
    let mut out = String::new();
    push_padded(&mut out, negative, y, 4);
    proof { reveal_strlit("-"); }
    out.append("-");
    push_padded(&mut out, negative, m, 2);
    out.append("-");
    push_padded(&mut out, negative, dd, 2);
    proof {
        assert(out@ =~= spec_format_date(d as int));
    }
    out
}

} // verus!

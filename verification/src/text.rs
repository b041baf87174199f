//! Small verified text helpers over the character view of `str`.

use vstd::prelude::*;
use vstd::string::*;

verus! {

/// Character-wise equality of two string slices.
pub fn str_eq(a: &str, b: &str) -> (r: bool)
    ensures
        r == (a@ == b@),
{
    let n = a.unicode_len();
    let m = b.unicode_len();
    if n != m {
        return false;
    }
    let mut i: usize = 0;
    while i < n
        invariant
            n == a@.len(),
            m == b@.len(),
            n == m,
            i <= n,
            forall|j: int| 0 <= j < i ==> a@[j] == b@[j],
        decreases n - i,
    {
        if a.get_char(i) != b.get_char(i) {
            return false;
        }
        i = i + 1;
    }
    assert(a@ =~= b@);
    true
}

// ---------------------------------------------------------------------------
// Decimal digit runs
// ---------------------------------------------------------------------------

pub open spec fn is_digit(c: char) -> bool {
    '0' <= c && c <= '9'
}

pub open spec fn all_digits(s: Seq<char>) -> bool {
    forall|i: int| 0 <= i < s.len() ==> is_digit(#[trigger] s[i])
}

pub open spec fn digit_value(c: char) -> int {
    (c as int) - ('0' as int)
}

/// The value of a big-endian run of decimal digits (0 for the empty run).
pub open spec fn digits_value(s: Seq<char>) -> int
    decreases s.len(),
{
    if s.len() == 0 {
        0
    } else {
        digits_value(s.drop_last()) * 10 + digit_value(s.last())
    }
}

pub open spec fn pow10(n: nat) -> int
    decreases n,
{
    if n == 0 {
        1
    } else {
        10 * pow10((n - 1) as nat)
    }
}

pub open spec fn digit_char(d: int) -> char {
    (d + ('0' as int)) as char
}

/// Shortest decimal rendering of a natural number (`"0"` for zero).
pub open spec fn decimal(n: nat) -> Seq<char>
    decreases n,
{
    if n < 10 {
        seq![digit_char(n as int)]
    } else {
        decimal(n / 10).push(digit_char((n % 10) as int))
    }
}

pub proof fn lemma_pow10_pos(n: nat)
    ensures
        pow10(n) >= 1,
    decreases n,
{
    if n > 0 {
        lemma_pow10_pos((n - 1) as nat);
    }
}

pub proof fn lemma_digits_value_nonneg(s: Seq<char>)
    requires
        all_digits(s),
    ensures
        digits_value(s) >= 0,
    decreases s.len(),
{
    if s.len() > 0 {
        assert(is_digit(s[s.len() - 1]));
        lemma_digits_value_nonneg(s.drop_last());
    }
}

/// Concatenating digit runs: `value(x ++ y) == value(x) * 10^|y| + value(y)`.
pub proof fn lemma_digits_value_concat(x: Seq<char>, y: Seq<char>)
    ensures
        digits_value(x + y) == digits_value(x) * pow10(y.len()) + digits_value(y),
    decreases y.len(),
{
    if y.len() == 0 {
        assert(x + y =~= x);
        assert(digits_value(y) == 0);
        assert(pow10(y.len()) == 1);
        assert(digits_value(x) * 1 == digits_value(x));
    } else {
        let y2 = y.drop_last();
        assert((x + y).drop_last() =~= x + y2);
        assert((x + y).last() == y.last());
        lemma_digits_value_concat(x, y2);
        let a = digits_value(x);
        let p = pow10(y2.len());
        let b = digits_value(y2);
        assert(pow10(y.len()) == 10 * p);
        assert((a * p + b) * 10 == a * (10 * p) + b * 10) by (nonlinear_arith);
        assert(digits_value(x + y) == digits_value(x + y2) * 10 + digit_value(y.last()));
        assert(digits_value(y) == b * 10 + digit_value(y.last()));
        assert(pow10(y.len()) == 10 * p);
        assert(digits_value(x + y) == a * pow10(y.len()) + digits_value(y));
    }
}

pub proof fn lemma_decimal(n: nat)
    ensures
        all_digits(decimal(n)),
        digits_value(decimal(n)) == n,
        decimal(n).len() >= 1,
        n < 10 ==> decimal(n).len() == 1,
        n < 100 ==> decimal(n).len() <= 2,
        !decimal(n).contains('-'),
        decimal(n)[0] != '+',
    decreases n,
{
    if n < 10 {
        assert(decimal(n) =~= seq![digit_char(n as int)]);
        assert(digits_value(decimal(n)) == digits_value(seq![digit_char(n as int)].drop_last()) * 10
            + digit_value(digit_char(n as int)));
        assert(seq![digit_char(n as int)].drop_last() =~= Seq::<char>::empty());
    } else {
        lemma_decimal(n / 10);
        let s = decimal(n / 10).push(digit_char((n % 10) as int));
        assert(s.drop_last() =~= decimal(n / 10));
        assert(n == 10 * (n / 10) + n % 10);
        assert forall|i: int| 0 <= i < s.len() implies is_digit(#[trigger] s[i]) by {
            if i < s.len() - 1 {
                assert(s[i] == decimal(n / 10)[i]);
            }
        }
        assert(s[0] == decimal(n / 10)[0]);
        if n < 100 {
            assert(n / 10 < 10);
        }
        if s.contains('-') {
            let j = choose|j: int| 0 <= j < s.len() && s[j] == '-';
            assert(is_digit(s[j]));
        }
    }
}

pub fn digit_str(d: u64) -> (r: &'static str)
    requires
        d < 10,
    ensures
        r@ == seq![digit_char(d as int)],
{
    proof {
        reveal_strlit("0");
        reveal_strlit("1");
        reveal_strlit("2");
        reveal_strlit("3");
        reveal_strlit("4");
        reveal_strlit("5");
        reveal_strlit("6");
        reveal_strlit("7");
        reveal_strlit("8");
        reveal_strlit("9");
    }
    let r = match d {
        0 => "0",
        1 => "1",
        2 => "2",
        3 => "3",
        4 => "4",
        5 => "5",
        6 => "6",
        7 => "7",
        8 => "8",
        _ => "9",
    };
    assert(r@ =~= seq![digit_char(d as int)]);
    r
}

/// Append the shortest decimal rendering of `n`.
pub fn push_decimal(out: &mut String, n: u64)
    ensures
        final(out)@ == old(out)@ + decimal(n as nat),
    decreases n,
{
    if n < 10 {
        out.append(digit_str(n));
    } else {
        push_decimal(out, n / 10);
        out.append(digit_str(n % 10));
        proof {
            assert(decimal(n as nat) == decimal((n / 10) as nat).push(digit_char((n % 10) as int)));
            assert(old(out)@ + decimal((n / 10) as nat) + seq![digit_char((n % 10) as int)]
                =~= old(out)@ + decimal(n as nat));
        }
    }
}

/// Append `format!("{:0width$}", v)` for a value of magnitude `mag`.
pub fn decimal_len(n: u64) -> (r: u64)
    ensures
        r as nat == decimal(n as nat).len(),
        1 <= r <= 20,
    decreases n,
{
    if n < 10 {
        1
    } else {
        let r = decimal_len(n / 10);
        proof {
            assert(pow10(19) == 10000000000000000000) by {
                reveal_with_fuel(pow10, 20);
            }
            lemma_decimal_len_bound((n / 10) as nat, 19);
        }
        r + 1
    }
}

pub proof fn lemma_decimal_len_bound(n: nat, k: nat)
    requires
        1 <= k,
        n < pow10(k),
    ensures
        decimal(n).len() <= k,
    decreases n,
{
    if n >= 10 {
        if k == 1 {
            assert(pow10(1) == 10) by {
                reveal_with_fuel(pow10, 2);
            }
        }
        assert(k >= 2);
        let p = pow10((k - 1) as nat);
        assert(pow10(k) == 10 * p);
        assert(n / 10 < p) by (nonlinear_arith)
            requires
                n < 10 * p,
                n >= 0,
        ;
        lemma_decimal_len_bound(n / 10, (k - 1) as nat);
    }
}

} // verus!

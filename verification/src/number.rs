//! The texts that denote numbers: 64-bit signed integers, and floating-point
//! numbers in decimal or exponential notation.

use vstd::prelude::*;
use vstd::slice::slice_subrange;
use crate::text::{lowered, spells, to_lowered};

verus! {

/// Whether `c` is one of the ten ASCII digits.
pub open spec fn is_digit(c: char) -> bool {
    '0' <= c <= '9'
}

/// The value of the digit `c`.
pub open spec fn digit_value(c: char) -> nat {
    if is_digit(c) {
        (c as nat - 48) as nat
    } else {
        0
    }
}

/// Whether `s` holds digits only.
pub open spec fn all_digits(s: Seq<char>) -> bool {
    forall|i: int| 0 <= i < s.len() ==> is_digit(#[trigger] s[i])
}

/// The number that the digits `s` write in decimal.
pub open spec fn digits_value(s: Seq<char>) -> nat
    decreases s.len(),
{
    if s.len() == 0 {
        0
    } else {
        digits_value(s.drop_last()) * 10 + digit_value(s.last())
    }
}

/// The largest value of a 64-bit signed integer.
pub open spec fn max_int() -> nat {
    0x7fff_ffff_ffff_ffff
}

/// Whether `s` denotes a 64-bit signed integer: an optional `-`, then one or
/// more digits whose value lies within the range of the type. No other
/// character is accepted, a leading `+` included.
pub open spec fn is_integer(s: Seq<char>) -> bool {
    if s.len() > 0 && s[0] == '-' {
        let digits = s.drop_first();
        digits.len() > 0 && all_digits(digits) && digits_value(digits) <= max_int() + 1
    } else {
        s.len() > 0 && all_digits(s) && digits_value(s) <= max_int()
    }
}

/// How many digits `s` starts with.
pub open spec fn digit_run(s: Seq<char>) -> nat
    decreases s.len(),
{
    if s.len() > 0 && is_digit(s[0]) {
        1 + digit_run(s.drop_first())
    } else {
        0
    }
}

/// Whether `s` has a sign at its front.
pub open spec fn has_sign(s: Seq<char>) -> bool {
    s.len() > 0 && (s[0] == '+' || s[0] == '-')
}

/// `s` without the sign at its front, if it has one.
pub open spec fn unsigned(s: Seq<char>) -> Seq<char> {
    if has_sign(s) {
        s.drop_first()
    } else {
        s
    }
}

/// Whether `s` is an exponent: `e` or `E`, an optional sign, and one or more
/// digits.
pub open spec fn is_exponent(s: Seq<char>) -> bool {
    &&& s.len() > 0
    &&& s[0] == 'e' || s[0] == 'E'
    &&& unsigned(s.drop_first()).len() > 0
    &&& all_digits(unsigned(s.drop_first()))
}

/// Whether `s` is a number in decimal or exponential notation: digits with
/// an optional `.` among, before or after them, at least one digit in all,
/// and then an optional exponent.
pub open spec fn is_decimal_number(s: Seq<char>) -> bool {
    let whole = digit_run(s);
    let after = s.skip(whole as int);
    if after.len() > 0 && after[0] == '.' {
        let fraction = digit_run(after.drop_first());
        let tail = after.drop_first().skip(fraction as int);
        whole + fraction > 0 && (tail.len() == 0 || is_exponent(tail))
    } else {
        whole > 0 && (after.len() == 0 || is_exponent(after))
    }
}

/// Whether `s` names infinity or not-a-number, in any mix of upper and
/// lower case.
pub open spec fn is_special_number(s: Seq<char>) -> bool {
    ||| lowered(s) == "inf"@
    ||| lowered(s) == "infinity"@
    ||| lowered(s) == "nan"@
}

/// Whether `s` denotes a floating-point number: an optional sign, then
/// either a special name or a number in decimal or exponential notation.
pub open spec fn is_float(s: Seq<char>) -> bool {
    is_special_number(unsigned(s)) || is_decimal_number(unsigned(s))
}

/// The value of the first digits of `s` is at most the value of all of them.
pub proof fn lemma_value_grows(s: Seq<char>, n: int)
    requires
        0 <= n <= s.len(),
    ensures
        digits_value(s.take(n)) <= digits_value(s),
    decreases s.len(),
{
    if n == s.len() {
        assert(s.take(n) =~= s);
    } else {
        assert(s.drop_last().take(n) =~= s.take(n));
        lemma_value_grows(s.drop_last(), n);
    }
}

/// Digits up to an index, and a digit at it, are digits up to the next.
proof fn lemma_digit_run_step(s: Seq<char>, n: int)
    requires
        0 <= n <= s.len(),
        forall|j: int| 0 <= j < n ==> is_digit(#[trigger] s[j]),
        n < s.len() ==> !is_digit(s[n]),
    ensures
        digit_run(s) == n,
    decreases n,
{
    if n > 0 {
        let rest = s.drop_first();
        assert forall|j: int| 0 <= j < n - 1 implies is_digit(#[trigger] rest[j]) by {
            assert(rest[j] == s[j + 1]);
        }
        lemma_digit_run_step(rest, n - 1);
    }
}

/// Whether `c` is a digit.
pub fn is_ascii_digit(c: char) -> (b: bool)
    ensures
        b == is_digit(c),
{
    '0' <= c && c <= '9'
}

/// How many digits `s` starts with.
pub fn count_digits(s: &[char]) -> (n: usize)
    ensures
        n == digit_run(s@),
        n <= s@.len(),
{
    let mut n: usize = 0;
    while n < s.len() && is_ascii_digit(s[n])
        invariant
            n <= s.len(),
            forall|j: int| 0 <= j < n ==> is_digit(#[trigger] s@[j]),
        decreases s.len() - n,
    {
        n += 1;
    }
    proof {
        lemma_digit_run_step(s@, n as int);
    }
    n
}

/// `s` without the sign at its front, if it has one.
pub fn skip_sign(s: &[char]) -> (r: &[char])
    ensures
        r@ == unsigned(s@),
{
    if s.len() > 0 && (s[0] == '+' || s[0] == '-') {
        let r = slice_subrange(s, 1, s.len());
        assert(r@ =~= s@.drop_first());
        r
    } else {
        s
    }
}

/// Whether `s` denotes a 64-bit signed integer.
pub fn is_integer_text(s: &[char]) -> (b: bool)
    ensures
        b == is_integer(s@),
{
    let negative = s.len() > 0 && s[0] == '-';
    let digits = if negative {
        slice_subrange(s, 1, s.len())
    } else {
        s
    };
    let limit: u64 = if negative {
        0x8000_0000_0000_0000
    } else {
        0x7fff_ffff_ffff_ffff
    };
    proof {
        if negative {
            assert(digits@ =~= s@.drop_first());
        }
    }
    assert(is_integer(s@) == (digits@.len() > 0 && all_digits(digits@) && digits_value(digits@)
        <= limit));
    if digits.len() == 0 {
        return false;
    }
    let mut value: u64 = 0;
    let mut i: usize = 0;
    while i < digits.len()
        invariant
            i <= digits.len(),
            0x7fff_ffff_ffff_ffff <= limit <= 0x8000_0000_0000_0000,
            is_integer(s@) == (digits@.len() > 0 && all_digits(digits@) && digits_value(digits@)
                <= limit),
            all_digits(digits@.take(i as int)),
            value == digits_value(digits@.take(i as int)),
            value <= limit,
        decreases digits.len() - i,
    {
        let c = digits[i];
        if !is_ascii_digit(c) {
            assert(!is_digit(digits@[i as int]));
            return false;
        }
        let d: u64 = ((c as u8) - 48) as u64;
        proof {
            assert(digits@.take(i + 1).drop_last() =~= digits@.take(i as int));
            assert(digits@.take(i + 1).last() == c);
            assert(digits_value(digits@.take(i + 1)) == value * 10 + d);
        }
        if value > (limit - d) / 10 {
            proof {
                lemma_value_grows(digits@, i + 1);
            }
            return false;
        }
        value = value * 10 + d;
        i += 1;
    }
    assert(digits@.take(i as int) =~= digits@);
    true
}

/// Whether `s` is an exponent.
pub fn is_exponent_text(s: &[char]) -> (b: bool)
    ensures
        b == is_exponent(s@),
{
    if s.len() == 0 || !(s[0] == 'e' || s[0] == 'E') {
        return false;
    }
    let rest = slice_subrange(s, 1, s.len());
    assert(rest@ =~= s@.drop_first());
    let digits = skip_sign(rest);
    let n = count_digits(digits);
    proof {
        if n == digits.len() {
            lemma_run_is_all(digits@);
        } else {
            lemma_run_stops(digits@);
        }
    }
    digits.len() > 0 && n == digits.len()
}

/// A run of digits as long as the sequence covers all of it.
proof fn lemma_run_is_all(s: Seq<char>)
    requires
        digit_run(s) == s.len(),
    ensures
        all_digits(s),
    decreases s.len(),
{
    if s.len() > 0 {
        let rest = s.drop_first();
        lemma_run_bound(rest);
        lemma_run_is_all(rest);
        assert forall|i: int| 0 <= i < s.len() implies is_digit(#[trigger] s[i]) by {
            if i > 0 {
                assert(s[i] == rest[i - 1]);
            }
        }
    }
}

/// A run of digits is no longer than the sequence.
proof fn lemma_run_bound(s: Seq<char>)
    ensures
        digit_run(s) <= s.len(),
    decreases s.len(),
{
    if s.len() > 0 && is_digit(s[0]) {
        lemma_run_bound(s.drop_first());
    }
}

/// A run of digits that ends inside the sequence ends at a non-digit.
proof fn lemma_run_stops(s: Seq<char>)
    requires
        digit_run(s) < s.len(),
    ensures
        !is_digit(s[digit_run(s) as int]),
        !all_digits(s),
    decreases s.len(),
{
    if s.len() > 0 && is_digit(s[0]) {
        let rest = s.drop_first();
        lemma_run_stops(rest);
        assert(rest[digit_run(rest) as int] == s[digit_run(s) as int]);
    }
}

/// Whether `s` is a number in decimal or exponential notation.
pub fn is_decimal_text(s: &[char]) -> (b: bool)
    ensures
        b == is_decimal_number(s@),
{
    let whole = count_digits(s);
    let after = slice_subrange(s, whole, s.len());
    assert(after@ =~= s@.skip(whole as int));
    if after.len() > 0 && after[0] == '.' {
        let rest = slice_subrange(after, 1, after.len());
        assert(rest@ =~= after@.drop_first());
        let fraction = count_digits(rest);
        let tail = slice_subrange(rest, fraction, rest.len());
        assert(tail@ =~= rest@.skip(fraction as int));
        (whole > 0 || fraction > 0) && (tail.len() == 0 || is_exponent_text(tail))
    } else {
        whole > 0 && (after.len() == 0 || is_exponent_text(after))
    }
}

/// Whether `s` names infinity or not-a-number.
pub fn is_special_text(s: &[char]) -> (b: bool)
    ensures
        b == is_special_number(s@),
{
    let low = to_lowered(s);
    spells(low.as_slice(), "inf") || spells(low.as_slice(), "infinity") || spells(
        low.as_slice(),
        "nan",
    )
}

/// Whether `s` denotes a floating-point number.
pub fn is_float_text(s: &[char]) -> (b: bool)
    ensures
        b == is_float(s@),
{
    let body = skip_sign(s);
    is_special_text(body) || is_decimal_text(body)
}

} // verus!

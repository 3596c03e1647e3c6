//! Decimal notation of 32-bit unsigned numbers.

use crate::text::chars_of;
use vstd::prelude::*;
use vstd::string::StrSliceExecFns;

verus! {

/// The character for the digit `d`.
pub open spec fn digit(d: nat) -> char
    recommends
        d < 10,
{
    (48 + d) as char
}

/// Whether `c` is one of the ten ASCII digits.
pub open spec fn is_digit(c: char) -> bool {
    '0' <= c <= '9'
}

/// The decimal notation of `n`, without leading zeros.
pub open spec fn decimal(n: nat) -> Seq<char>
    decreases n,
{
    if n < 10 {
        seq![digit(n)]
    } else {
        decimal(n / 10).push(digit(n % 10))
    }
}

/// The number that the digits `s` stand for.
pub open spec fn decimal_value(s: Seq<char>) -> nat
    decreases s.len(),
{
    if s.len() == 0 {
        0
    } else {
        10 * decimal_value(s.drop_last()) + (s.last() as nat - 48) as nat
    }
}

/// Whether `s` is one or more digits and nothing else.
pub open spec fn is_numeral(s: Seq<char>) -> bool {
    s.len() > 0 && forall|i: int| 0 <= i < s.len() ==> is_digit(#[trigger] s[i])
}

/// `s` without the one plus sign that may stand before a number.
pub open spec fn without_plus(s: Seq<char>) -> Seq<char> {
    if s.len() > 1 && s[0] == '+' {
        s.skip(1)
    } else {
        s
    }
}

/// The number that `s` denotes: a numeral, with or without a plus sign before
/// it, whose value fits in 32 bits.
pub open spec fn parsed(s: Seq<char>) -> Option<u32> {
    let numeral = without_plus(s);
    if is_numeral(numeral) && decimal_value(numeral) <= u32::MAX {
        Some(decimal_value(numeral) as u32)
    } else {
        None
    }
}

/// The decimal notation of `n`, as characters.
pub fn decimal_chars(n: u32) -> (v: Vec<char>)
    ensures
        v@ == decimal(n as nat),
    decreases n,
{
    if n < 10 {
        let mut v: Vec<char> = Vec::new();
        v.push((48 + n as u8) as char);
        assert(v@ =~= seq![digit(n as nat)]);
        v
    } else {
        let mut v = decimal_chars(n / 10);
        v.push((48 + (n % 10) as u8) as char);
        v
    }
}

/// Parses `s` as a 32-bit unsigned number.
pub fn parse_u32(s: &str) -> (r: Option<u32>)
    ensures
        r == parsed(s@),
{
    let v = chars_of(s);
    let start: usize = if v.len() > 1 && v[0] == '+' {
        1
    } else {
        0
    };
    let ghost numeral = without_plus(s@);
    assert(numeral =~= s@.skip(start as int));
    if v.len() == start {
        return None;
    }
    let mut total: u64 = 0;
    let mut too_big: bool = false;
    let mut i: usize = start;
    assert(numeral.take(0) =~= Seq::empty());
    while i < v.len()
        invariant
            v@ == s@,
            start <= i <= v.len(),
            numeral == without_plus(s@),
            numeral == s@.skip(start as int),
            forall|j: int| 0 <= j < i - start ==> is_digit(#[trigger] numeral[j]),
            too_big ==> decimal_value(numeral.take(i - start)) > u32::MAX,
            !too_big ==> total == decimal_value(numeral.take(i - start)) && total <= u32::MAX,
        decreases v.len() - i,
    {
        let c = v[i];
        assert(numeral[i - start] == c);
        if !('0' <= c && c <= '9') {
            return None;
        }
        assert(numeral.take(i + 1 - start).drop_last() =~= numeral.take(i - start));
        if !too_big {
            total = total * 10 + (c as u64 - 48);
            if total > 0xffff_ffff {
                too_big = true;
            }
        }
        i = i + 1;
    }
    assert(numeral.take(i - start) =~= numeral);
    if too_big {
        None
    } else {
        Some(total as u32)
    }
}

/// The digits that `s` begins with, up to the first character that is none.
pub open spec fn leading_digits(s: Seq<char>) -> Seq<char>
    decreases s.len(),
{
    if s.len() > 0 && is_digit(s.first()) {
        seq![s.first()] + leading_digits(s.drop_first())
    } else {
        Seq::empty()
    }
}

/// Digits before anything but a digit are the leading ones.
pub proof fn lemma_leading_digits(digits: Seq<char>, rest: Seq<char>)
    requires
        forall|i: int| 0 <= i < digits.len() ==> is_digit(#[trigger] digits[i]),
        rest.len() > 0 ==> !is_digit(rest[0]),
    ensures
        leading_digits(digits + rest) == digits,
    decreases digits.len(),
{
    let s = digits + rest;
    if digits.len() == 0 {
        assert(s =~= rest);
        assert(digits =~= Seq::empty());
    } else {
        assert(s.first() == digits[0]);
        assert(s.drop_first() =~= digits.drop_first() + rest);
        lemma_leading_digits(digits.drop_first(), rest);
        assert(seq![digits[0]] + digits.drop_first() =~= digits);
    }
}

/// The number that `s` begins with; none if it begins with no digit, or the
/// number does not fit in 32 bits.
pub fn leading_number(s: &str) -> (r: Option<u32>)
    ensures
        r == parsed(leading_digits(s@)),
{
    let v = chars_of(s);
    let mut end: usize = 0;
    while end < v.len() && '0' <= v[end] && v[end] <= '9'
        invariant
            v@ == s@,
            end <= v.len(),
            forall|i: int| 0 <= i < end ==> is_digit(#[trigger] s@[i]),
        decreases v.len() - end,
    {
        end = end + 1;
    }
    proof {
        lemma_leading_digits(s@.take(end as int), s@.skip(end as int));
        assert(s@.take(end as int) + s@.skip(end as int) =~= s@);
    }
    let digits = s.substring_char(0, end);
    assert(digits@ =~= s@.take(end as int));
    parse_u32(digits)
}

/// Decimal notation is read back as the number it was written for.
pub proof fn decimal_round_trip(n: u32)
    ensures
        parsed(decimal(n as nat)) == Some(n),
{
    lemma_decimal(n as nat);
    assert(decimal(n as nat)[0] != '+');
}

/// A number is read digit by digit, as far as it fits in 32 bits; a plus sign
/// before it counts for nothing, and nothing but digits is a number.
pub proof fn numbers_are_read_digit_by_digit(s: Seq<char>, d: nat)
    requires
        d < 10,
    ensures
        parsed(seq![digit(d)]) == Some(d as u32),
        is_numeral(s) ==> parsed(s.push(digit(d))) == (match parsed(s) {
            Some(n) if 10 * n + d <= u32::MAX => Some((10 * n + d) as u32),
            _ => None,
        }),
        is_numeral(s) ==> parsed(seq!['+'] + s) == parsed(s),
        (s.len() > 0 && s[0] != '+' && !is_numeral(s)) || s.len() == 0 ==> parsed(s) is None,
        s.len() > 0 && s[0] == '+' && !is_numeral(s.skip(1)) ==> parsed(s) is None,
{
    let one = seq![digit(d)];
    assert(one.drop_last() =~= Seq::empty());
    assert(decimal_value(Seq::<char>::empty()) == 0);
    assert(is_numeral(one));
    if is_numeral(s) {
        let more = s.push(digit(d));
        assert(is_digit(s[0]));
        assert(more[0] == s[0]);
        assert(more.drop_last() =~= s);
        assert forall|i: int| 0 <= i < more.len() implies is_digit(#[trigger] more[i]) by {
            if i < s.len() {
                assert(is_digit(s[i]));
            }
        }
        assert((seq!['+'] + s).skip(1) =~= s);
    }
    if s.len() > 0 && s[0] == '+' && is_numeral(s) {
        assert(is_digit(s[0]));
    }
}

/// Decimal notation is positional: ten times a number and a digit is written as
/// that number and that digit, and a number below ten as one digit.
pub proof fn decimal_is_positional(n: nat, d: nat)
    requires
        d < 10,
    ensures
        decimal(d) == seq![(48 + d) as char],
        n > 0 ==> decimal(10 * n + d) == decimal(n).push((48 + d) as char),
{
    assert((10 * n + d) / 10 == n);
    assert((10 * n + d) % 10 == d);
}

/// What the digits of a number are, and what they stand for.
pub proof fn lemma_decimal(n: nat)
    ensures
        is_numeral(decimal(n)),
        decimal_value(decimal(n)) == n,
    decreases n,
{
    if n < 10 {
        assert(decimal(n).drop_last() =~= Seq::empty());
        assert(decimal_value(Seq::<char>::empty()) == 0);
    } else {
        lemma_decimal(n / 10);
        assert(decimal(n).drop_last() =~= decimal(n / 10));
    }
}

} // verus!

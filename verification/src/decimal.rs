//! Unsigned decimal numbers: how they are written and how they are read.

use crate::text::{digit, is_digit, string_of};
use vstd::prelude::*;
use vstd::slice::slice_subrange;

verus! {

/// The value of the decimal digit `c`.
pub open spec fn digit_value(c: char) -> int {
    c as int - '0' as int
}

/// The character of the decimal digit with value `d`.
pub open spec fn digit_char(d: int) -> char {
    ('0' as int + d) as char
}

/// Every character of `s` is a decimal digit.
pub open spec fn all_digits(s: Seq<char>) -> bool {
    forall|i: int| 0 <= i < s.len() ==> is_digit(#[trigger] s[i])
}

/// The value of a row of decimal digits.
pub open spec fn decimal_value(s: Seq<char>) -> int
    decreases s.len(),
{
    if s.len() == 0 {
        0
    } else {
        decimal_value(s.drop_last()) * 10 + digit_value(s.last())
    }
}

/// What reading `s` as an unsigned decimal number gives: an optional plus sign, then one digit or
/// more, with a value of at most `max`. Anything else is no number.
pub open spec fn read_decimal(s: Seq<char>, max: int) -> Option<int> {
    let digits = if s.len() > 0 && s[0] == '+' {
        s.skip(1)
    } else {
        s
    };
    if digits.len() > 0 && all_digits(digits) && decimal_value(digits) <= max {
        Some(decimal_value(digits))
    } else {
        None
    }
}

/// `n` in decimal digits, without leading zeros.
pub open spec fn decimal(n: int) -> Seq<char>
    decreases n,
{
    if n < 10 {
        seq![digit_char(n)]
    } else {
        decimal(n / 10).push(digit_char(n % 10))
    }
}

/// `n` in decimal digits, with a zero in front of a single digit.
pub open spec fn decimal_two(n: int) -> Seq<char> {
    if 0 <= n < 10 {
        seq!['0', digit_char(n)]
    } else {
        decimal(n)
    }
}

/// A row of digits is worth no less than any of its beginnings.
proof fn lemma_value_grows(s: Seq<char>, k: int)
    requires
        0 <= k <= s.len(),
        all_digits(s),
    ensures
        0 <= decimal_value(s.take(k)) <= decimal_value(s),
    decreases s.len(),
{
    if k < s.len() {
        let t = s.drop_last();
        assert forall|i: int| 0 <= i < t.len() implies is_digit(#[trigger] t[i]) by {
            assert(is_digit(s[i]));
        }
        lemma_value_grows(t, k);
        assert(t.take(k) =~= s.take(k));
        assert(is_digit(s[s.len() - 1]));
    } else {
        assert(s.take(k) =~= s);
        if s.len() > 0 {
            let t = s.drop_last();
            assert forall|i: int| 0 <= i < t.len() implies is_digit(#[trigger] t[i]) by {
                assert(is_digit(s[i]));
            }
            lemma_value_grows(t, t.len() as int);
            assert(t.take(t.len() as int) =~= t);
            assert(is_digit(s[s.len() - 1]));
        }
    }
}

/// The digits of `n` are digits, are worth `n`, and start with a zero only for zero itself.
pub proof fn lemma_decimal(n: int)
    requires
        0 <= n,
    ensures
        decimal(n).len() > 0,
        all_digits(decimal(n)),
        decimal_value(decimal(n)) == n,
        decimal(n)[0] == '0' ==> n == 0,
    decreases n,
{
    if n < 10 {
        let s = seq![digit_char(n)];
        assert(s.drop_last() =~= seq![]);
        assert(decimal_value(s.drop_last()) == 0);
        assert(s.last() == digit_char(n));
    } else {
        lemma_decimal(n / 10);
        let s = decimal(n);
        assert(s.drop_last() =~= decimal(n / 10));
        assert(s.last() == digit_char(n % 10));
        assert(is_digit(digit_char(n % 10)));
        assert forall|i: int| 0 <= i < s.len() implies is_digit(#[trigger] s[i]) by {
            if i < s.len() - 1 {
                assert(is_digit(decimal(n / 10)[i]));
            }
        }
        assert(s[0] == decimal(n / 10)[0]);
    }
}

/// The same for the padded form.
pub proof fn lemma_decimal_two(n: int)
    requires
        0 <= n,
    ensures
        decimal_two(n).len() >= 2,
        all_digits(decimal_two(n)),
        decimal_value(decimal_two(n)) == n,
{
    lemma_decimal(n);
    if n < 10 {
        let s = seq!['0', digit_char(n)];
        assert(s.drop_last() =~= seq!['0']);
        assert(seq!['0'].drop_last() =~= seq![]);
        assert(decimal_value(seq![]) == 0);
        assert(decimal_value(seq!['0']) == 0);
        assert(s.last() == digit_char(n));
    } else {
        lemma_decimal(n / 10);
    }
}

/// Reading a number as it is written gives the number back, with and without the padding.
pub proof fn law_decimal_round_trip(n: int, max: int)
    requires
        0 <= n <= max,
    ensures
        read_decimal(decimal(n), max) == Some(n),
        read_decimal(decimal_two(n), max) == Some(n),
{
    lemma_decimal(n);
    lemma_decimal_two(n);
    assert(is_digit(decimal(n)[0]));
    assert(is_digit(decimal_two(n)[0]));
}

/// A row of digits is worth nothing less than zero.
pub proof fn lemma_read_decimal_value(s: Seq<char>)
    requires
        all_digits(s),
    ensures
        0 <= decimal_value(s),
{
    lemma_value_grows(s, 0);
    assert(s.take(0) =~= seq![]);
}

/// A number that is read is within its bounds.
pub proof fn lemma_read_decimal_bounds(s: Seq<char>, max: int)
    ensures
        read_decimal(s, max) matches Some(n) ==> 0 <= n <= max,
{
    let digits = if s.len() > 0 && s[0] == '+' {
        s.skip(1)
    } else {
        s
    };
    if all_digits(digits) {
        lemma_value_grows(digits, 0);
        assert(digits.take(0) =~= seq![]);
    }
}

/// Reads an unsigned decimal number of at most `max`, as `str::parse` does for the unsigned
/// integer types.
pub(crate) fn parse_decimal(s: &[char], max: u64) -> (r: Option<u64>)
    ensures
        match r {
            Some(v) => read_decimal(s@, max as int) == Some(v as int),
            None => read_decimal(s@, max as int) is None,
        },
{
    let start: usize = if s.len() > 0 && s[0] == '+' {
        1
    } else {
        0
    };
    let t = slice_subrange(s, start, s.len());
    assert(start == 0 ==> t@ =~= s@);
    assert(start == 1 ==> t@ =~= s@.skip(1));
    if t.len() == 0 {
        return None;
    }
    let mut v: u64 = 0;
    for i in 0..t.len()
        invariant
            forall|j: int| 0 <= j < i ==> is_digit(#[trigger] t@[j]),
            v == decimal_value(t@.take(i as int)),
            v <= max,
            start == 0 ==> t@ == s@,
            start == 1 ==> t@ == s@.skip(1),
            start == (if s@.len() > 0 && s@[0] == '+' { 1int } else { 0int }),
            t@.len() > 0,
    {
        let c = t[i];
        if !digit(c) {
            assert(!is_digit(t@[i as int]));
            return None;
        }
        let d: u64 = (c as u32 - '0' as u32) as u64;
        proof {
            let u = t@.take(i + 1);
            assert(u.drop_last() =~= t@.take(i as int));
            assert(decimal_value(u) == v * 10 + d);
            if all_digits(t@) {
                lemma_value_grows(t@, i + 1);
            }
        }
        if v > (u64::MAX - d) / 10 {
            return None;
        }
        let next: u64 = v * 10 + d;
        if next > max {
            return None;
        }
        v = next;
    }
    assert(t@.take(t@.len() as int) =~= t@);
    Some(v)
}

/// Writes `n` in decimal digits.
pub(crate) fn write_decimal(n: u64) -> (r: Vec<char>)
    ensures
        r@ == decimal(n as int),
    decreases n,
{
    let d: u8 = (n % 10) as u8;
    let c: char = (48u8 + d) as char;
    assert(c == digit_char((n % 10) as int));
    if n < 10 {
        let mut r: Vec<char> = Vec::new();
        r.push(c);
        assert(r@ =~= seq![c]);
        r
    } else {
        let mut r = write_decimal(n / 10);
        r.push(c);
        r
    }
}

/// Writes `n` in decimal digits, with a zero in front of a single digit.
pub(crate) fn write_decimal_two(n: u64) -> (r: Vec<char>)
    ensures
        r@ == decimal_two(n as int),
{
    if n < 10 {
        let mut r: Vec<char> = Vec::new();
        r.push('0');
        let c: char = (48u8 + n as u8) as char;
        r.push(c);
        assert(r@ =~= seq!['0', digit_char(n as int)]);
        r
    } else {
        write_decimal(n)
    }
}

/// `n` as a string of decimal digits.
pub(crate) fn decimal_string(n: u64) -> (s: String)
    ensures
        s@ == decimal(n as int),
{
    string_of(write_decimal(n).as_slice())
}

/// `n` as a string of decimal digits, with a zero in front of a single digit.
pub(crate) fn decimal_two_string(n: u64) -> (s: String)
    ensures
        s@ == decimal_two(n as int),
{
    string_of(write_decimal_two(n).as_slice())
}

} // verus!

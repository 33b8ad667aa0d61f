//! Natural numbers written in decimal.

use crate::text::chars_of;
use vstd::prelude::*;

verus! {

/// Whether `c` is one of the digits `0` to `9`.
pub open spec fn is_digit(c: char) -> bool {
    '0' <= c <= '9'
}

/// The value of the digit `c`, and 0 for any other character.
pub open spec fn digit_value(c: char) -> nat {
    if is_digit(c) {
        (c as int - '0' as int) as nat
    } else {
        0
    }
}

/// Whether `text` consists of digits.
pub open spec fn all_digits(text: Seq<char>) -> bool {
    forall|i: int| 0 <= i < text.len() ==> is_digit(#[trigger] text[i])
}

/// The number that a sequence of digits writes, most significant digit first.
pub open spec fn decimal_value(digits: Seq<char>) -> nat
    decreases digits.len(),
{
    if digits.len() == 0 {
        0
    } else {
        decimal_value(digits.drop_last()) * 10 + digit_value(digits.last())
    }
}

/// The digits of `text`: all of it but a leading plus sign.
pub open spec fn unsigned_digits(text: Seq<char>) -> Seq<char> {
    if text.len() > 0 && text[0] == '+' {
        text.skip(1)
    } else {
        text
    }
}

/// The number that `text` writes, where it writes one that a `usize` holds: an optional plus
/// sign and then one or more digits, with nothing before, between or after them.
pub open spec fn unsigned_value(text: Seq<char>) -> Option<nat> {
    let digits = unsigned_digits(text);
    if digits.len() > 0 && all_digits(digits) && decimal_value(digits) <= usize::MAX {
        Some(decimal_value(digits))
    } else {
        None
    }
}

/// The value of `c`, if it is a digit.
fn digit_of(c: char) -> (r: Option<usize>)
    ensures
        match r {
            Some(d) => is_digit(c) && d == digit_value(c) && d <= 9,
            None => !is_digit(c),
        },
{
    if c >= '0' && c <= '9' {
        Some((c as u32 - '0' as u32) as usize)
    } else {
        None
    }
}

/// A number does not get smaller when more digits follow.
proof fn decimal_value_grows(digits: Seq<char>, n: int)
    requires
        0 <= n <= digits.len(),
    ensures
        decimal_value(digits.take(n)) <= decimal_value(digits),
    decreases digits.len() - n,
{
    if n == digits.len() {
        assert(digits.take(n) == digits);
    } else {
        decimal_value_grows(digits, n + 1);
        assert(digits.take(n + 1).drop_last() == digits.take(n));
    }
}

/// Reads the number that `text` writes.
pub fn parse_unsigned(text: &str) -> (r: Option<usize>)
    ensures
        match r {
            Some(n) => unsigned_value(text@) == Some(n as nat),
            None => unsigned_value(text@) is None,
        },
{
    let chars = chars_of(text);
    let start: usize = if chars.len() > 0 && chars[0] == '+' {
        1
    } else {
        0
    };
    let ghost digits = unsigned_digits(text@);
    assert(digits == chars@.skip(start as int));
    if start == chars.len() {
        return None;
    }
    let mut value: usize = 0;
    let mut i: usize = start;
    assert(digits.take(0).len() == 0);
    while i < chars.len()
        invariant
            start <= i <= chars.len(),
            digits == chars@.skip(start as int),
            digits == unsigned_digits(text@),
            all_digits(digits.take(i - start)),
            value == decimal_value(digits.take(i - start)),
        decreases chars.len() - i,
    {
        assert(chars@[i as int] == digits[i - start]);
        let d: usize = match digit_of(chars[i]) {
            Some(d) => d,
            None => {
                return None;
            },
        };
        assert(digits.take(i - start + 1).drop_last() == digits.take(i - start));
        if value > (usize::MAX - d) / 10 {
            proof {
                decimal_value_grows(digits, i - start + 1);
            }
            return None;
        }
        value = value * 10 + d;
        i += 1;
    }
    assert(digits.take(i - start) == digits);
    Some(value)
}

/// The ten digits, by value.
pub open spec fn digits() -> Seq<char> {
    seq!['0', '1', '2', '3', '4', '5', '6', '7', '8', '9']
}

/// How `n` is written in decimal: without sign, and without leading zeros but for 0 itself.
pub open spec fn decimal_text(n: nat) -> Seq<char>
    decreases n,
{
    if n < 10 {
        seq![digits()[n as int]]
    } else {
        decimal_text(n / 10).push(digits()[(n % 10) as int])
    }
}

/// The digit whose value is `d`.
fn digit_char(d: usize) -> (c: char)
    requires
        d < 10,
    ensures
        c == digits()[d as int],
{
    match d {
        0 => '0',
        1 => '1',
        2 => '2',
        3 => '3',
        4 => '4',
        5 => '5',
        6 => '6',
        7 => '7',
        8 => '8',
        _ => '9',
    }
}

/// Writes `n` in decimal.
pub fn decimal_chars(n: usize) -> (text: Vec<char>)
    ensures
        text@ == decimal_text(n as nat),
    decreases n,
{
    if n < 10 {
        let mut text: Vec<char> = Vec::new();
        text.push(digit_char(n));
        text
    } else {
        let mut text = decimal_chars(n / 10);
        text.push(digit_char(n % 10));
        text
    }
}

/// Each of the ten digits has its place in `digits` as its value.
proof fn digits_have_values(d: nat)
    requires
        d < 10,
    ensures
        is_digit(digits()[d as int]),
        digit_value(digits()[d as int]) == d,
{
    assert(digits()[0] == '0' && digits()[1] == '1' && digits()[2] == '2' && digits()[3] == '3'
        && digits()[4] == '4');
    assert(digits()[5] == '5' && digits()[6] == '6' && digits()[7] == '7' && digits()[8] == '8'
        && digits()[9] == '9');
}

/// What is written is digits only, and at least one.
pub proof fn decimal_text_is_digits(n: nat)
    ensures
        decimal_text(n).len() > 0,
        all_digits(decimal_text(n)),
        decimal_value(decimal_text(n)) == n,
    decreases n,
{
    if n < 10 {
        digits_have_values(n);
        assert(decimal_text(n).drop_last().len() == 0);
        assert(decimal_value(decimal_text(n).drop_last()) == 0);
    } else {
        digits_have_values(n % 10);
        decimal_text_is_digits(n / 10);
        assert(decimal_text(n).drop_last() == decimal_text(n / 10));
    }
}

/// Reading what was written gives the number back.
pub proof fn decimal_text_reads_back(n: nat)
    requires
        n <= usize::MAX,
    ensures
        unsigned_value(decimal_text(n)) == Some(n),
{
    decimal_text_is_digits(n);
}

} // verus!

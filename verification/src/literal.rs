//! Numeric literals: the text of a literal and the 32-bit integer it denotes.

use vstd::prelude::*;
use vstd::string::*;

verus! {

pub open spec fn is_digit(c: char) -> bool {
    '0' <= c <= '9'
}

pub open spec fn digit_value(c: char) -> int {
    c as int - '0' as int
}

pub open spec fn all_digits(digits: Seq<char>) -> bool {
    forall|i: int| 0 <= i < digits.len() ==> is_digit(#[trigger] digits[i])
}

/// The number that a string of decimal digits denotes, most significant
/// digit first.
pub open spec fn decimal(digits: Seq<char>) -> int
    decreases digits.len(),
{
    if digits.len() == 0 {
        0
    } else {
        10 * decimal(digits.drop_last()) + digit_value(digits.last())
    }
}

/// Whether the text starts with a sign.
pub open spec fn has_sign(text: Seq<char>) -> bool {
    text.len() > 0 && (text[0] == '-' || text[0] == '+')
}

/// The text without its sign, if it has one.
pub open spec fn digits_of(text: Seq<char>) -> Seq<char> {
    if has_sign(text) {
        text.subrange(1, text.len() as int)
    } else {
        text
    }
}

/// The integer that the text denotes, sign included, whatever its size.
pub open spec fn signed_value(text: Seq<char>) -> int {
    if text.len() > 0 && text[0] == '-' {
        -decimal(digits_of(text))
    } else {
        decimal(digits_of(text))
    }
}

/// The meaning of a literal: an optional `+` or `-`, then one or more decimal
/// digits and nothing else, denoting a number that fits in 32 bits signed.
/// Any other text denotes nothing.
pub open spec fn literal_value(text: Seq<char>) -> Option<i32> {
    if digits_of(text).len() > 0 && all_digits(digits_of(text)) && i32::MIN <= signed_value(text)
        <= i32::MAX {
        Some(signed_value(text) as i32)
    } else {
        None
    }
}

/// A string of digits denotes at least what any of its prefixes denotes.
proof fn lemma_decimal_grows(digits: Seq<char>, k: int)
    requires
        all_digits(digits),
        0 <= k <= digits.len(),
    ensures
        0 <= decimal(digits.take(k)) <= decimal(digits),
    decreases digits.len() - k,
{
    if k == digits.len() {
        assert(digits.take(k) =~= digits);
        lemma_decimal_nonnegative(digits);
    } else {
        lemma_decimal_grows(digits, k + 1);
        assert(digits.take(k + 1).drop_last() =~= digits.take(k));
        assert(digits.take(k + 1).last() == digits[k]);
        assert(is_digit(digits[k]));
        lemma_decimal_nonnegative(digits.take(k));
    }
}

proof fn lemma_decimal_nonnegative(digits: Seq<char>)
    requires
        all_digits(digits),
    ensures
        0 <= decimal(digits),
    decreases digits.len(),
{
    if digits.len() > 0 {
        assert(is_digit(digits.last()));
        lemma_decimal_nonnegative(digits.drop_last());
    }
}

/// Reads a literal.
pub fn parse_literal(text: &str) -> (value: Option<i32>)
    ensures
        value == literal_value(text@),
{
    let len = text.unicode_len();
    if len == 0 {
        return None;
    }
    let first = text.get_char(0);
    let negative = first == '-';
    let start: usize = if first == '-' || first == '+' {
        1
    } else {
        0
    };
    if start == len {
        return None;
    }
    let ghost digits = digits_of(text@);
    assert(digits.len() == len - start);
    assert(forall|i: int| 0 <= i < digits.len() ==> digits[i] == text@[i + start]);
    let mut magnitude: i64 = 0;
    let mut i: usize = start;
    while i < len
        invariant
            start <= i <= len,
            len == text@.len(),
            digits == digits_of(text@),
            digits.len() == len - start,
            forall|k: int| 0 <= k < digits.len() ==> digits[k] == text@[k + start],
            all_digits(digits.take(i - start)),
            magnitude == decimal(digits.take(i - start)),
            0 <= magnitude <= 0x8000_0000,
        decreases len - i,
    {
        let c = text.get_char(i);
        if !(c >= '0' && c <= '9') {
            assert(!is_digit(digits[i - start]));
            return None;
        }
        let d: i64 = (c as u32 - '0' as u32) as i64;
        let ghost seen = digits.take(i - start + 1);
        assert(seen.drop_last() =~= digits.take(i - start));
        assert(seen.last() == c);
        assert(all_digits(seen)) by {
            assert forall|k: int| 0 <= k < seen.len() implies is_digit(#[trigger] seen[k]) by {
                if k < seen.len() - 1 {
                    assert(seen[k] == digits.take(i - start)[k]);
                }
            }
        }
        assert(decimal(seen) == 10 * magnitude + d);
        if magnitude * 10 + d > 0x8000_0000 {
            proof {
                if all_digits(digits) {
                    lemma_decimal_grows(digits, i - start + 1);
                }
            }
            return None;
        }
        magnitude = magnitude * 10 + d;
        i = i + 1;
    }
    assert(digits.take(len - start) =~= digits);
    if negative {
        Some((-magnitude) as i32)
    } else if magnitude == 0x8000_0000 {
        None
    } else {
        Some(magnitude as i32)
    }
}

} // verus!

//! Decimal numbers in text.

use crate::text::bytes_of;
use vstd::prelude::*;

verus! {

/// Whether a byte is one of the digits `0` to `9`.
pub open spec fn is_digit(b: u8) -> bool {
    48 <= b && b <= 57
}

/// Whether every byte is a digit.
pub open spec fn all_digits(s: Seq<u8>) -> bool {
    forall|i: int| 0 <= i < s.len() ==> is_digit(#[trigger] s[i])
}

/// The number that a sequence of digits writes in base ten.
pub open spec fn digits_value(s: Seq<u8>) -> nat
    decreases s.len(),
{
    if s.len() == 0 {
        0
    } else {
        (digits_value(s.drop_last()) * 10 + (s.last() - 48)) as nat
    }
}

/// The digits of a number in text, without its sign.
pub open spec fn unsigned_part(s: Seq<u8>) -> Seq<u8> {
    if s.len() > 0 && (s[0] == 45 || s[0] == 43) {
        s.drop_first()
    } else {
        s
    }
}

/// The 16-bit number that a text writes: an optional sign `+` or `-`, then
/// one digit or more, and a value within range.
pub open spec fn parsed_i16(s: Seq<u8>) -> Option<i16> {
    let digits = unsigned_part(s);
    if digits.len() == 0 || !all_digits(digits) {
        None
    } else {
        let v = if s[0] == 45 {
            -(digits_value(digits) as int)
        } else {
            digits_value(digits) as int
        };
        if -32768 <= v && v <= 32767 {
            Some(v as i16)
        } else {
            None
        }
    }
}

/// More digits do not write a smaller number.
pub proof fn lemma_digits_value_grows(s: Seq<u8>, i: int)
    requires
        0 <= i <= s.len(),
        all_digits(s),
    ensures
        digits_value(s.subrange(0, i)) <= digits_value(s),
    decreases s.len() - i,
{
    if i < s.len() {
        lemma_digits_value_grows(s, i + 1);
        assert(s.subrange(0, i + 1).drop_last() == s.subrange(0, i));
        assert(is_digit(s[i]));
        assert(s.subrange(0, i + 1).last() == s[i]);
    } else {
        assert(s.subrange(0, i) == s);
    }
}

/// The 16-bit number that a text writes, if it writes one.
pub fn parse_i16(s: &str) -> (r: Option<i16>)
    ensures
        r == parsed_i16(bytes_of(s@)),
{
    let b = s.as_bytes();
    let n: usize = b.len();
    let negative = n > 0 && b[0] == 45;
    let first: usize = if n > 0 && (b[0] == 45 || b[0] == 43) {
        1
    } else {
        0
    };
    let ghost digits = unsigned_part(b@);
    assert(digits == b@.subrange(first as int, n as int));
    if first == n {
        return None;
    }
    let mut acc: i32 = 0;
    let mut i: usize = first;
    while i < n
        invariant
            first <= i <= n,
            first < n,
            n == b@.len(),
            b@ == bytes_of(s@),
            digits == unsigned_part(b@),
            digits == b@.subrange(first as int, n as int),
            all_digits(digits.subrange(0, i - first)),
            acc == digits_value(digits.subrange(0, i - first)),
            acc <= 32768,
        decreases n - i,
    {
        let d = b[i];
        assert(d == digits[i - first]);
        if d < 48 || d > 57 {
            assert(!is_digit(digits[i - first]));
            return None;
        }
        let ghost before = digits.subrange(0, i - first);
        let ghost after = digits.subrange(0, i - first + 1);
        proof {
            assert(after.drop_last() == before);
            assert(after.last() == d);
            assert forall|k: int| 0 <= k < after.len() implies is_digit(#[trigger] after[k]) by {
                if k < before.len() {
                    assert(after[k] == before[k]);
                }
            }
        }
        let next: i32 = acc * 10 + (d - 48) as i32;
        if next > 32768 {
            proof {
                // the rest is made of digits or not; either way no number in range is written
                if all_digits(digits) {
                    lemma_digits_value_grows(digits, i - first + 1);
                    assert(digits_value(digits) > 32768);
                }
            }
            return None;
        }
        acc = next;
        i += 1;
    }
    assert(digits.subrange(0, n - first) == digits);
    if negative {
        Some((0 - acc) as i16)
    } else if acc == 32768 {
        None
    } else {
        Some(acc as i16)
    }
}

} // verus!

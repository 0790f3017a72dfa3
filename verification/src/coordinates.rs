//! The place of a locode on the globe, and the text that writes it.

use crate::number::{digits_value, is_digit};
use crate::text::bytes_of;
use vstd::prelude::*;

verus! {

/// A latitude and a longitude in minutes of arc. North and east are
/// positive.
#[derive(Debug, Clone, Copy, PartialEq, Eq, Structural)]
pub struct Coordinates {
    pub lat: i32,
    pub lon: i32,
}

/// Whether a byte is a space or a tab.
pub open spec fn is_blank(b: u8) -> bool {
    b == 32 || b == 9
}

/// The number of digits that stand in a row from `from` on.
pub open spec fn digit_run(s: Seq<u8>, from: int) -> int
    decreases s.len() - from,
{
    if 0 <= from < s.len() && is_digit(s[from]) {
        1 + digit_run(s, from + 1)
    } else {
        0
    }
}

/// The number of spaces and tabs that stand in a row from `from` on.
pub open spec fn blank_run(s: Seq<u8>, from: int) -> int
    decreases s.len() - from,
{
    if 0 <= from < s.len() && is_blank(s[from]) {
        1 + blank_run(s, from + 1)
    } else {
        0
    }
}

/// The number that the `len` digits from `from` on write.
pub open spec fn number_at(s: Seq<u8>, from: int, len: int) -> int {
    digits_value(s.subrange(from, from + len)) as int
}

/// An angle that stands at `from`: `degrees` digits of degrees, one to
/// three digits of minutes, and a letter for the hemisphere. The result is
/// the index behind the letter and the angle in minutes, below zero for
/// the letter `negative`.
pub open spec fn parsed_angle(s: Seq<u8>, from: int, degrees: int, positive: u8, negative: u8)
    -> Option<(int, int)> {
    let run = digit_run(s, from);
    let at = from + run;
    if run < degrees + 1 || run > degrees + 3 {
        None
    } else if at >= s.len() || (s[at] != positive && s[at] != negative) {
        None
    } else {
        let minutes = 60 * number_at(s, from, degrees) + number_at(
            s,
            from + degrees,
            run - degrees,
        );
        Some(
            (
                at + 1,
                if s[at] == negative {
                    -minutes
                } else {
                    minutes
                },
            ),
        )
    }
}

/// The coordinates that a text writes at its start: a latitude of two
/// digits of degrees, one to three digits of minutes and `N` or `S`, then
/// spaces or tabs, then a longitude of three digits of degrees, one to
/// three digits of minutes and `E` or `W`. The result is the coordinates
/// and the number of bytes that write them.
pub open spec fn parsed_coordinates(s: Seq<u8>) -> Option<(int, Coordinates)> {
    match parsed_angle(s, 0, 2, 78, 83) {
        None => None,
        Some((mid, lat)) => {
            let blanks = blank_run(s, mid);
            if blanks < 1 {
                None
            } else {
                match parsed_angle(s, mid + blanks, 3, 69, 87) {
                    None => None,
                    Some((end, lon)) => Some((end, Coordinates { lat: lat as i32, lon: lon as i32 })),
                }
            }
        },
    }
}

/// The number of digits that stand in a row from `from` on.
fn digits_from(b: &[u8], from: usize) -> (n: usize)
    requires
        from <= b@.len(),
    ensures
        n == digit_run(b@, from as int),
        from + n <= b@.len(),
        forall|i: int| from <= i < from + n ==> is_digit(#[trigger] b@[i]),
{
    let len: usize = b.len();
    let mut n: usize = 0;
    while from + n < len && b[from + n] >= 48 && b[from + n] <= 57
        invariant
            len == b@.len(),
            from + n <= len,
            digit_run(b@, from as int) == n + digit_run(b@, from + n),
            forall|i: int| from <= i < from + n ==> is_digit(#[trigger] b@[i]),
        decreases len - from - n,
    {
        n += 1;
    }
    n
}

/// The number of spaces and tabs that stand in a row from `from` on.
fn blanks_from(b: &[u8], from: usize) -> (n: usize)
    requires
        from <= b@.len(),
    ensures
        n == blank_run(b@, from as int),
        from + n <= b@.len(),
{
    let len: usize = b.len();
    let mut n: usize = 0;
    while from + n < len && (b[from + n] == 32 || b[from + n] == 9)
        invariant
            len == b@.len(),
            from + n <= len,
            blank_run(b@, from as int) == n + blank_run(b@, from + n),
        decreases len - from - n,
    {
        n += 1;
    }
    n
}

/// The number that the `len` digits from `from` on write.
fn value_at(b: &[u8], from: usize, len: usize) -> (v: i32)
    requires
        len <= 3,
        from + len <= b@.len(),
        forall|i: int| from <= i < from + len ==> is_digit(#[trigger] b@[i]),
    ensures
        v == number_at(b@, from as int, len as int),
        0 <= v <= 999,
{
    let ghost digits = b@.subrange(from as int, from + len);
    // taken for the proof: a length fits a machine word
    let total: usize = b.len();
    let mut v: i32 = 0;
    let mut i: usize = 0;
    while i < len
        invariant
            total == b@.len(),
            i <= len,
            len <= 3,
            from + len <= b@.len(),
            digits == b@.subrange(from as int, from + len),
            forall|k: int| from <= k < from + len ==> is_digit(#[trigger] b@[k]),
            v == digits_value(digits.subrange(0, i as int)),
            i == 0 ==> v == 0,
            i == 1 ==> v <= 9,
            i == 2 ==> v <= 99,
            i == 3 ==> v <= 999,
        decreases len - i,
    {
        let d = b[from + i];
        proof {
            assert(is_digit(b@[from + i]));
            assert(digits.subrange(0, i + 1).drop_last() == digits.subrange(0, i as int));
            assert(digits.subrange(0, i + 1).last() == d);
        }
        v = v * 10 + (d - 48) as i32;
        i += 1;
    }
    proof {
        assert(digits.subrange(0, len as int) == digits);
    }
    v
}

/// Reads an angle that stands at `from`.
fn angle(b: &[u8], from: usize, degrees: usize, positive: u8, negative: u8) -> (r: Option<
    (usize, i32),
>)
    requires
        from <= b@.len(),
        degrees == 2 || degrees == 3,
    ensures
        match r {
            Some(found) => parsed_angle(b@, from as int, degrees as int, positive, negative)
                == Some((found.0 as int, found.1 as int)) && found.0 <= b@.len() && -60939
                <= found.1 <= 60939,
            None => parsed_angle(b@, from as int, degrees as int, positive, negative) is None,
        },
{
    // taken for the proof: a length fits a machine word
    let total: usize = b.len();
    let run = digits_from(b, from);
    if run < degrees + 1 || run > degrees + 3 {
        return None;
    }
    let at: usize = from + run;
    if at >= b.len() {
        return None;
    }
    let letter = b[at];
    if letter != positive && letter != negative {
        return None;
    }
    let whole = value_at(b, from, degrees);
    let part = value_at(b, from + degrees, run - degrees);
    let minutes: i32 = 60 * whole + part;
    if letter == negative {
        Some((at + 1, 0 - minutes))
    } else {
        Some((at + 1, minutes))
    }
}

/// Reads the coordinates that a text writes at its start, and says how
/// many bytes write them. What follows them in the text is left alone.
pub fn coordinate_parser(i: &str) -> (r: Option<(usize, Coordinates)>)
    ensures
        match r {
            Some(found) => parsed_coordinates(bytes_of(i@)) == Some((found.0 as int, found.1)),
            None => parsed_coordinates(bytes_of(i@)) is None,
        },
{
    let b = i.as_bytes();
    // taken for the proof: a length fits a machine word
    let total: usize = b.len();
    let (mid, lat) = match angle(b, 0, 2, 78, 83) {
        Some(found) => found,
        None => {
            return None;
        },
    };
    let blanks = blanks_from(b, mid);
    if blanks < 1 {
        return None;
    }
    match angle(b, mid + blanks, 3, 69, 87) {
        Some(found) => Some((found.0, Coordinates { lat, lon: found.1 })),
        None => None,
    }
}

} // verus!

//! Validation of request parameters.

use vstd::prelude::*;
use vstd::string::StringSliceAdditionalSpecFns;

verus! {

/// Whether `b` is the ASCII code of a decimal digit.
pub open spec fn is_digit(b: u8) -> bool {
    0x30 <= b <= 0x39
}

/// The number that two ASCII digits spell.
pub open spec fn two_digits(hi: u8, lo: u8) -> int {
    (hi - 0x30) * 10 + (lo - 0x30)
}

/// A timezone offset, as its UTF-8 bytes: a sign, two digits of hours up to 14,
/// then nothing, or a colon followed by at most two more bytes. When two bytes
/// follow the colon they are the minutes, two digits below 60; a single byte
/// after the colon is not looked at.
pub open spec fn timezone_ok(b: Seq<u8>) -> bool {
    &&& 3 <= b.len() <= 6
    &&& (b[0] == 0x2b || b[0] == 0x2d)
    &&& is_digit(b[1])
    &&& is_digit(b[2])
    &&& two_digits(b[1], b[2]) <= 14
    &&& (b.len() > 3 ==> b[3] == 0x3a)
    &&& (b.len() == 6 ==> is_digit(b[4]) && is_digit(b[5]) && two_digits(b[4], b[5]) < 60)
}

/// Tells whether `tz` is a timezone offset such as `+08:00`, `-05` or `+14:`.
/// Any text is accepted as input; text that is not plain ASCII in the places
/// that are looked at is not an offset.
pub fn validate_timezone(tz: &str) -> (ok: bool)
    ensures
        ok == timezone_ok(tz.spec_bytes()),
{
    let b = tz.as_bytes();
    let n: usize = b.len();
    if n < 3 || n > 6 {
        return false;
    }
    if b[0] != 0x2b && b[0] != 0x2d {
        return false;
    }
    if !digit(b[1]) || !digit(b[2]) {
        return false;
    }
    let hours: u8 = (b[1] - 0x30) * 10 + (b[2] - 0x30);
    if hours > 14 {
        return false;
    }
    if n > 3 {
        if b[3] != 0x3a {
            return false;
        }
        if n == 6 {
            if !digit(b[4]) || !digit(b[5]) {
                return false;
            }
            let minutes: u8 = (b[4] - 0x30) * 10 + (b[5] - 0x30);
            if minutes >= 60 {
                return false;
            }
        }
    }
    true
}

/// Whether a byte is an ASCII decimal digit.
pub fn digit(b: u8) -> (r: bool)
    ensures
        r == is_digit(b),
{
    0x30 <= b && b <= 0x39
}

} // verus!

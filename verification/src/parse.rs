//! Fixed-point parser for temperature tokens.
//!
//! A token is an optional `-` followed by one or two integer digits and an
//! optional `.` with exactly one fractional digit. The parsed result is the
//! decimal value scaled by ten, so `-3.2` parses to `-32` and `94.7` to
//! `947`. Every digit byte is validated; a token of any other shape is
//! rejected.

use vstd::prelude::*;

verus! {

/// ASCII `-`.
pub const MINUS: u8 = 45;

/// ASCII `.`.
pub const DOT: u8 = 46;

/// ASCII `0`.
pub const DIGIT_ZERO: u8 = 48;

/// ASCII `9`.
pub const DIGIT_NINE: u8 = 57;

/// True for the ASCII bytes `'0'` through `'9'`.
pub open spec fn is_digit(b: u8) -> bool {
    DIGIT_ZERO <= b && b <= DIGIT_NINE
}

/// Numeric value of an ASCII digit byte.
pub open spec fn digit_val(b: u8) -> int {
    b - DIGIT_ZERO
}

/// Scaled magnitude of an unsigned token: one or two integer digits with an
/// optional single fractional digit, or `None` for any other shape.
pub open spec fn spec_parse_magnitude(t: Seq<u8>) -> Option<int> {
    if t.len() == 1 && is_digit(t[0]) {
        Some(10 * digit_val(t[0]))
    } else if t.len() == 2 && is_digit(t[0]) && is_digit(t[1]) {
        Some(100 * digit_val(t[0]) + 10 * digit_val(t[1]))
    } else if t.len() == 3 && is_digit(t[0]) && t[1] == DOT && is_digit(t[2]) {
        Some(10 * digit_val(t[0]) + digit_val(t[2]))
    } else if t.len() == 4 && is_digit(t[0]) && is_digit(t[1]) && t[2] == DOT && is_digit(t[3]) {
        Some(100 * digit_val(t[0]) + 10 * digit_val(t[1]) + digit_val(t[3]))
    } else {
        None
    }
}

/// Scaled value of a full token: an optional leading `-` applied to the
/// magnitude of the rest.
pub open spec fn spec_parse_temperature(s: Seq<u8>) -> Option<int> {
    if s.len() > 0 && s[0] == MINUS {
        match spec_parse_magnitude(s.skip(1)) {
            Some(m) => Some(-m),
            None => None,
        }
    } else {
        match spec_parse_magnitude(s) {
            Some(m) => Some(m),
            None => None,
        }
    }
}

/// Parse a trimmed token into its scaled fixed-point value.
pub fn parse_temperature(input: &[u8]) -> (r: Option<i16>)
    ensures
        match r {
            Some(v) => spec_parse_temperature(input@) == Some(v as int),
            None => spec_parse_temperature(input@) is None,
        },
{
    let n = input.len();
    let negative = n > 0 && input[0] == MINUS;
    let off: usize = if negative { 1 } else { 0 };
    let ghost t = if negative { input@.skip(1) } else { input@ };
    let m = n - off;
    proof {
        assert(t.len() == m);
        assert(forall|i: int| 0 <= i < t.len() ==> t[i] == input@[off + i]);
    }
    let mag: i16;
    if m == 1 {
        let d0 = input[off];
        if !(DIGIT_ZERO <= d0 && d0 <= DIGIT_NINE) {
            return None;
        }
        mag = 10 * ((d0 - DIGIT_ZERO) as i16);
    } else if m == 2 {
        let d0 = input[off];
        let d1 = input[off + 1];
        if !(DIGIT_ZERO <= d0 && d0 <= DIGIT_NINE) || !(DIGIT_ZERO <= d1 && d1 <= DIGIT_NINE) {
            return None;
        }
        mag = 100 * ((d0 - DIGIT_ZERO) as i16) + 10 * ((d1 - DIGIT_ZERO) as i16);
    } else if m == 3 {
        let d0 = input[off];
        let dot = input[off + 1];
        let d2 = input[off + 2];
        if !(DIGIT_ZERO <= d0 && d0 <= DIGIT_NINE) || dot != DOT || !(DIGIT_ZERO <= d2 && d2 <= DIGIT_NINE) {
            return None;
        }
        mag = 10 * ((d0 - DIGIT_ZERO) as i16) + ((d2 - DIGIT_ZERO) as i16);
    } else if m == 4 {
        let d0 = input[off];
        let d1 = input[off + 1];
        let dot = input[off + 2];
        let d3 = input[off + 3];
        if !(DIGIT_ZERO <= d0 && d0 <= DIGIT_NINE) || !(DIGIT_ZERO <= d1 && d1 <= DIGIT_NINE) || dot != DOT
            || !(DIGIT_ZERO <= d3 && d3 <= DIGIT_NINE) {
            return None;
        }
        mag = 100 * ((d0 - DIGIT_ZERO) as i16) + 10 * ((d1 - DIGIT_ZERO) as i16) + ((d3 - DIGIT_ZERO) as i16);
    } else {
        return None;
    }
    if negative {
        Some(-mag)
    } else {
        Some(mag)
    }
}

} // verus!

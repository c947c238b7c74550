use vstd::prelude::*;

verus! {

/// ASCII `-`.
pub const MINUS: u8 = 45;

/// ASCII `.`.
pub const DOT: u8 = 46;

/// ASCII `0`.
pub const ZERO: u8 = 48;

pub open spec fn is_digit(b: u8) -> bool {
    48 <= b <= 57
}

pub open spec fn digit_value(b: u8) -> int {
    b as int - 48
}

pub open spec fn has_sign(s: Seq<u8>) -> bool {
    s.len() > 0 && s[0] == MINUS
}

/// The part of a reading after its optional minus sign.
pub open spec fn unsigned_part(s: Seq<u8>) -> Seq<u8> {
    if has_sign(s) {
        s.skip(1)
    } else {
        s
    }
}

/// A reading as the measurement files write it: an optional minus sign,
/// one or two digits, a dot and one fractional digit (`-99.9` to `99.9`).
pub open spec fn is_temperature_text(s: Seq<u8>) -> bool {
    let body = unsigned_part(s);
    &&& body.len() == 3 || body.len() == 4
    &&& body[body.len() - 2] == DOT
    &&& is_digit(body[body.len() - 1])
    &&& is_digit(body[body.len() - 3])
    &&& body.len() == 4 ==> is_digit(body[0])
}

/// The value of a reading in tenths of a degree, read from its digits
/// (the byte before the fractional digit is taken to be the dot).
pub open spec fn temperature_text_value(s: Seq<u8>) -> int {
    let body = unsigned_part(s);
    let magnitude = if body.len() == 4 {
        100 * digit_value(body[0]) + 10 * digit_value(body[1]) + digit_value(body[3])
    } else {
        10 * digit_value(body[0]) + digit_value(body[2])
    };
    if has_sign(s) {
        -magnitude
    } else {
        magnitude
    }
}

/// The inputs on which the branch-free reading parser neither panics nor
/// reads out of bounds: three bytes at least, and the fractional digit and
/// the ones digit are not below `0`.
pub open spec fn branch_free_accepts(s: Seq<u8>) -> bool {
    &&& s.len() >= 3
    &&& s[s.len() - 1] >= ZERO
    &&& s[s.len() - 3] >= ZERO
}

/// What the branch-free reading parser computes on any input it accepts:
/// the fractional digit is the last byte, the ones digit the third from the
/// end, and a tens digit (taken modulo 256) is read four bytes from the end
/// when the text is long enough to hold one after the sign.
pub open spec fn branch_free_value(s: Seq<u8>) -> int {
    let len = s.len();
    let neg: int = if s[0] == MINUS { 1 } else { 0 };
    let frac = digit_value(s[len - 1]);
    let ones = digit_value(s[len - 3]);
    let tens = if len >= 4 + neg {
        (s[len - 4] as int - 48) % 256
    } else {
        0
    };
    if neg == 1 {
        -(tens * 100 + ones * 10 + frac)
    } else {
        tens * 100 + ones * 10 + frac
    }
}

/// On a well-formed reading the branch-free formula gives its value.
pub proof fn lemma_branch_free_reads_text(s: Seq<u8>)
    requires
        is_temperature_text(s),
    ensures
        branch_free_accepts(s),
        branch_free_value(s) == temperature_text_value(s),
        -999 <= temperature_text_value(s) <= 999,
{
    let len = s.len();
    let body = unsigned_part(s);
    if has_sign(s) {
        assert(body[body.len() - 1] == s[len - 1]);
        assert(body[body.len() - 3] == s[len - 3]);
        if body.len() == 4 {
            assert(body[0] == s[len - 4]);
            assert(body[1] == s[len - 3]);
            assert(body[3] == s[len - 1]);
            assert((s[len - 4] as int - 48) % 256 == s[len - 4] as int - 48);
        } else {
            assert(body[0] == s[len - 3]);
            assert(body[2] == s[len - 1]);
        }
    } else {
        if body.len() == 4 {
            assert((s[len - 4] as int - 48) % 256 == s[len - 4] as int - 48);
        }
    }
}

} // verus!

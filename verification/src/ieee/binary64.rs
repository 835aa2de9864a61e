//! The 64-bit format: one sign bit, eleven exponent bits, 52 fraction bits.

use vstd::arithmetic::power2::pow2;
use vstd::prelude::*;

verus! {

/// The sign bit is set.
pub open spec fn sign(b: u64) -> bool {
    b >= 0x8000_0000_0000_0000
}

/// The exponent field.
pub open spec fn exponent(b: u64) -> int {
    (b as int / 0x10_0000_0000_0000) % 0x800
}

/// The fraction field.
pub open spec fn fraction(b: u64) -> int {
    b as int % 0x10_0000_0000_0000
}

/// Not a number: the exponent field is all ones and the fraction is not zero.
pub open spec fn is_nan(b: u64) -> bool {
    exponent(b) == 0x7ff && fraction(b) != 0
}

/// A NaN whose quiet bit, the top bit of the fraction, is clear.
pub open spec fn is_signaling(b: u64) -> bool {
    is_nan(b) && fraction(b) < 0x8_0000_0000_0000
}

/// An infinity of either sign.
pub open spec fn is_infinite(b: u64) -> bool {
    exponent(b) == 0x7ff && fraction(b) == 0
}

/// A zero of either sign.
pub open spec fn is_zero(b: u64) -> bool {
    exponent(b) == 0 && fraction(b) == 0
}

/// Neither a NaN nor an infinity.
pub open spec fn is_finite(b: u64) -> bool {
    exponent(b) < 0x7ff
}

/// The number that the fields `e` and `f` stand for, in units of 2^-1074: the
/// fraction itself where the exponent field is zero, and otherwise the
/// fraction with its hidden bit, scaled by the exponent.
pub open spec fn scaled(e: int, f: int) -> int {
    if e <= 0 {
        f
    } else {
        (0x10_0000_0000_0000 + f) * pow2((e - 1) as nat)
    }
}

/// The absolute value of `b` in units of 2^-1074.
pub open spec fn scaled_magnitude(b: u64) -> int {
    scaled(exponent(b), fraction(b))
}

/// The pattern with the sign `s`, the exponent field `e` and the fraction
/// field `f`.
pub open spec fn pattern(s: bool, e: int, f: int) -> u64 {
    ((if s { 0x8000_0000_0000_0000int } else { 0 }) + e * 0x10_0000_0000_0000 + f) as u64
}

/// The fields of a pattern are the fields that it was made of.
pub proof fn lemma_pattern_fields(s: bool, e: int, f: int)
    requires
        0 <= e < 0x800,
        0 <= f < 0x10_0000_0000_0000,
    ensures
        sign(pattern(s, e, f)) == s,
        exponent(pattern(s, e, f)) == e,
        fraction(pattern(s, e, f)) == f,
{
}

} // verus!

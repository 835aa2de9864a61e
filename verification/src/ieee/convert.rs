//! Promotion from the 32-bit format to the 64-bit format.
//!
//! Every 32-bit number is a 64-bit number, so promotion is exact: it never
//! rounds. A subnormal becomes a normal number. A NaN keeps its sign and its
//! payload and comes out quiet.

use crate::ieee::binary32;
use crate::ieee::binary64;
use vstd::arithmetic::power2::{
    lemma2_to64, lemma2_to64_rest, lemma_pow2_adds, lemma_pow2_pos,
    lemma_pow2_strictly_increases, pow2,
};
use vstd::prelude::*;

verus! {

/// `b` in the 64-bit format.
pub open spec fn widened(b: u32) -> u64 {
    let s = binary32::sign(b);
    let e = binary32::exponent(b);
    let f = binary32::fraction(b);
    if e == 0xff {
        if f == 0 {
            binary64::pattern(s, 0x7ff, 0)
        } else {
            binary64::pattern(s, 0x7ff, 0x8_0000_0000_0000 + (f % 0x40_0000) * 0x2000_0000)
        }
    } else if e == 0 {
        if f == 0 {
            binary64::pattern(s, 0, 0)
        } else {
            let k = binary32::floor_log2(f) as int;
            binary64::pattern(s, 874 + k, (f - pow2(k as nat)) * pow2((52 - k) as nat))
        }
    } else {
        binary64::pattern(s, e + 896, f * 0x2000_0000)
    }
}

/// `b` in the 64-bit format.
pub fn widen(b: u32) -> (r: u64)
    ensures
        r == widened(b),
{
    let s: u64 = if b >= 0x8000_0000 { 0x8000_0000_0000_0000 } else { 0 };
    let e: u32 = b / 0x80_0000 % 0x100;
    let f: u32 = b % 0x80_0000;
    if e == 0xff {
        if f == 0 {
            s + 0x7ff0_0000_0000_0000
        } else {
            let payload: u64 = (f % 0x40_0000) as u64;
            s + 0x7ff8_0000_0000_0000 + payload * 0x2000_0000
        }
    } else if e == 0 {
        if f == 0 {
            s
        } else {
            let (m, k) = binary32::normalize(f);
            proof {
                lemma2_to64();
                lemma2_to64_rest();
                lemma_pow2_adds((23 - k) as nat, 29);
                lemma_pow2_adds(k as nat, (52 - k) as nat);
                let p = pow2((23 - k) as nat) as int;
                let q = pow2((52 - k) as nat) as int;
                let t = pow2(k as nat) as int;
                assert((m - 0x80_0000) * 0x2000_0000 == (f - t) * q) by (nonlinear_arith)
                    requires
                        m == f * p,
                        q == p * 0x2000_0000,
                        t * q == 0x10_0000_0000_0000,
                ;
            }
            s + (874 + k as u64) * 0x10_0000_0000_0000 + (m as u64 - 0x80_0000) * 0x2000_0000
        }
    } else {
        s + (e as u64 + 896) * 0x10_0000_0000_0000 + f as u64 * 0x2000_0000
    }
}

/// Promotion is exact. It keeps the sign and the class of every pattern. A
/// finite number keeps its value: one unit of 2^-149 is 2^925 units of
/// 2^-1074. A NaN comes out quiet, with the low 22 bits of its fraction moved
/// to the top of the payload of the result.
pub proof fn lemma_widened_exact(b: u32)
    ensures
        binary64::sign(widened(b)) == binary32::sign(b),
        binary64::is_nan(widened(b)) == binary32::is_nan(b),
        binary64::is_infinite(widened(b)) == binary32::is_infinite(b),
        binary64::is_zero(widened(b)) == binary32::is_zero(b),
        binary64::is_finite(widened(b)) == binary32::is_finite(b),
        !binary64::is_signaling(widened(b)),
        binary32::is_finite(b) ==> binary64::scaled_magnitude(widened(b))
            == binary32::scaled_magnitude(b) * pow2(925),
        binary32::is_nan(b) ==> binary64::fraction(widened(b)) == 0x8_0000_0000_0000 + (
        binary32::fraction(b) % 0x40_0000) * 0x2000_0000,
{
    binary32::lemma_fields(b);
    let s = binary32::sign(b);
    let e = binary32::exponent(b);
    let f = binary32::fraction(b);
    lemma2_to64();
    lemma2_to64_rest();
    if e == 0xff {
        if f == 0 {
            binary64::lemma_pattern_fields(s, 0x7ff, 0);
        } else {
            binary64::lemma_pattern_fields(
                s,
                0x7ff,
                0x8_0000_0000_0000 + (f % 0x40_0000) * 0x2000_0000,
            );
        }
    } else if e == 0 {
        if f == 0 {
            binary64::lemma_pattern_fields(s, 0, 0);
        } else {
            let k = binary32::floor_log2(f);
            binary32::lemma_floor_log2_bounds(f);
            if k >= 23 {
                if k > 23 {
                    lemma_pow2_strictly_increases(23, k);
                }
            }
            let t = pow2(k) as int;
            let q = pow2((52 - k) as nat) as int;
            let h = pow2((873 + k) as nat) as int;
            lemma_pow2_pos((52 - k) as nat);
            lemma_pow2_adds(k, (52 - k) as nat);
            lemma_pow2_adds((52 - k) as nat, (873 + k) as nat);
            let wide = (f - t) * q;
            assert(0 <= wide < 0x10_0000_0000_0000 && 0x10_0000_0000_0000 + wide == f * q)
                by (nonlinear_arith)
                requires
                    wide == (f - t) * q,
                    t <= f < 2 * t,
                    q > 0,
                    t * q == 0x10_0000_0000_0000,
            ;
            binary64::lemma_pattern_fields(s, (874 + k) as int, wide);
            assert((f * q) * h == f * pow2(925)) by (nonlinear_arith)
                requires
                    q * h == pow2(925),
            ;
        }
    } else {
        binary64::lemma_pattern_fields(s, e + 896, f * 0x2000_0000);
        let h = pow2((e + 895) as nat) as int;
        let g = pow2((e - 1) as nat) as int;
        lemma_pow2_adds(29, (e + 895) as nat);
        lemma_pow2_adds((e - 1) as nat, 925);
        assert((0x10_0000_0000_0000 + f * 0x2000_0000) * h == ((0x80_0000 + f) * g) * pow2(925))
            by (nonlinear_arith)
            requires
                0x2000_0000 * h == g * pow2(925),
        ;
    }
}

} // verus!

//! The reciprocal estimate and the reciprocal square root estimate in the
//! 32-bit format.
//!
//! Both are the estimates that the architecture defines. They read the
//! leading eight or nine bits of the operand and give a result of eight
//! significant bits, which is close to the exact value and seldom equal to
//! it. They are meant as the start of a refinement that the caller performs;
//! nothing here refines them.

use crate::ieee::binary32::{
    exponent, floor_log2, fraction, holds_nan, is_infinite, is_nan, is_zero, lemma_fields,
    lemma_floor_log2_bounds, lemma_pattern_fields, magnitude, pattern, quiet, quieted,
    scaled_magnitude, sign, DEFAULT_NAN, INFINITY,
};
use crate::ieee::sqrt::{
    integer_sqrt, is_nearest_square, lemma_neighbours, significand_and_exponent,
};
use vstd::arithmetic::power2::{
    lemma2_to64, lemma2_to64_rest, lemma_pow2_adds, lemma_pow2_pos,
    lemma_pow2_strictly_increases, pow2,
};
use vstd::prelude::*;

verus! {

/// The estimate of a reciprocal on nine bits. The operand `a`, in `256..512`,
/// stands for the numbers from `a / 512` up to `(a + 1) / 512`; the result,
/// in `256..512`, stands for itself divided by 256.
pub open spec fn reciprocal_step(a: int) -> int {
    (0x8_0000int / (2 * a + 1) + 1) / 2
}

/// `b` is the largest integer with `d * b * b < 2^28`.
pub open spec fn is_root_below(d: int, b: int) -> bool {
    0 <= b && d * (b * b) < 0x1000_0000 <= d * ((b + 1) * (b + 1))
}

/// The largest `b` with `d * b * b < 2^28`.
pub open spec fn root_below(d: int) -> int {
    choose|b: int| is_root_below(d, b)
}

/// The estimate of a reciprocal square root on nine bits. The operand `a`,
/// in `128..512`, stands for the numbers from `a / 512` up to `(a + 1) / 512`,
/// or up to `(a + 2) / 512` from 256 on, where the lowest bit of `a` is not
/// read; the result, in `256..512`, stands for itself divided by 256.
pub open spec fn rsqrt_step(a: int) -> int {
    let d = if a < 256 {
        2 * a + 1
    } else {
        2 * (a / 2 * 2 + 1)
    };
    (root_below(d) + 1) / 2
}

/// The estimate of the reciprocal of `x`.
///
/// A NaN is made quiet. The reciprocal of an infinity is the zero of its
/// sign. The reciprocal of a zero, and of a number below 2^-128, whose
/// reciprocal is beyond the largest number, is the infinity of its sign. The
/// estimate of a number from 2^126 on is subnormal.
pub open spec fn reciprocal_estimated(x: u32) -> u32 {
    let s = sign(x);
    let e = exponent(x);
    let f = fraction(x);
    if is_nan(x) {
        quieted(x)
    } else if is_infinite(x) {
        pattern(s, 0, 0)
    } else if magnitude(x) < 0x20_0000 {
        pattern(s, 0xff, 0)
    } else {
        // The exponent and the fraction of the operand, with the leading bit
        // of a subnormal operand made the hidden bit.
        let (e1, f1) = if e > 0 {
            (e, f)
        } else if f >= 0x40_0000 {
            (0int, (2 * f) % 0x80_0000)
        } else {
            (-1int, (4 * f) % 0x80_0000)
        };
        let estimate = reciprocal_step(256 + f1 / 0x8000) - 256;
        let result_exponent = 253 - e1;
        if result_exponent > 0 {
            pattern(s, result_exponent, estimate * 0x8000)
        } else if result_exponent == 0 {
            pattern(s, 0, 0x40_0000 + estimate * 0x4000)
        } else {
            pattern(s, 0, 0x20_0000 + estimate * 0x2000)
        }
    }
}

/// The estimate of the reciprocal of the square root of `x`.
///
/// A NaN is made quiet. For a zero it is the infinity of its sign, for a
/// number below zero the default NaN, for positive infinity positive zero.
pub open spec fn rsqrt_estimated(x: u32) -> u32 {
    let e = exponent(x);
    let f = fraction(x);
    if is_nan(x) {
        quieted(x)
    } else if is_zero(x) {
        pattern(sign(x), 0xff, 0)
    } else if sign(x) {
        DEFAULT_NAN
    } else if is_infinite(x) {
        0
    } else {
        // The exponent and the fraction of the operand, with the leading bit
        // of a subnormal operand made the hidden bit.
        let (e1, f1) = if e > 0 {
            (e, f)
        } else {
            let k = floor_log2(f) as int;
            (k - 22, f * pow2((23 - k) as nat) - 0x80_0000)
        };
        let a = if e1 % 2 == 0 {
            256 + f1 / 0x8000
        } else {
            128 + f1 / 0x1_0000
        };
        pattern(false, (380 - e1) / 2, (rsqrt_step(a) - 256) * 0x8000)
    }
}

/// The nine-bit estimate of a reciprocal.
fn reciprocal_table(a: u32) -> (r: u32)
    requires
        256 <= a < 512,
    ensures
        r == reciprocal_step(a as int),
        256 <= r < 512,
{
    let d: u32 = 2 * a + 1;
    let b: u32 = 0x8_0000 / d;
    assert(512 <= b <= 1022) by (nonlinear_arith)
        requires
            513 <= d <= 1023,
            b == 0x8_0000int / (d as int),
    ;
    (b + 1) / 2
}

/// `b` is the largest integer with `d * b * b < 2^28`.
proof fn lemma_root_below(d: int, b: int)
    requires
        d > 0,
        is_root_below(d, b),
    ensures
        root_below(d) == b,
{
    let c = root_below(d);
    if c < b {
        assert(d * ((c + 1) * (c + 1)) <= d * (b * b)) by (nonlinear_arith)
            requires
                0 <= c + 1 <= b,
                d > 0,
        ;
    } else if b < c {
        assert(d * ((b + 1) * (b + 1)) <= d * (c * c)) by (nonlinear_arith)
            requires
                0 <= b + 1 <= c,
                d > 0,
        ;
    }
}

/// The nine-bit estimate of a reciprocal square root.
fn rsqrt_table(a: u32) -> (r: u32)
    requires
        128 <= a < 512,
    ensures
        r == rsqrt_step(a as int),
        256 <= r < 512,
{
    let d: u32 = if a < 256 {
        2 * a + 1
    } else {
        2 * (a / 2 * 2 + 1)
    };
    let n: u32 = 0xfff_ffff / d;
    let b = integer_sqrt(n as u64);
    proof {
        assert(n * d <= 0xfff_ffff < (n + 1) * d) by (nonlinear_arith)
            requires
                n == 0xfff_ffffint / (d as int),
                d > 0,
        ;
        assert(d * (b * b) < 0x1000_0000 <= d * ((b + 1) * (b + 1))) by (nonlinear_arith)
            requires
                b * b <= n < (b + 1) * (b + 1),
                n * d <= 0xfff_ffff < (n + 1) * d,
                d > 0,
        ;
        lemma_root_below(d as int, b as int);
        assert(511 <= b <= 1022) by (nonlinear_arith)
            requires
                257 <= d <= 1022,
                0 <= b,
                d * (b * b) < 0x1000_0000 <= d * ((b + 1) * (b + 1)),
        ;
    }
    ((b + 1) / 2) as u32
}

/// The estimate of the reciprocal of `x`.
pub fn reciprocal_estimate(x: u32) -> (r: u32)
    ensures
        r == reciprocal_estimated(x),
{
    proof {
        lemma_fields(x);
    }
    let s: u32 = if x >= 0x8000_0000 { 0x8000_0000 } else { 0 };
    let mag: u32 = x % 0x8000_0000;
    if mag > INFINITY {
        return quiet(x);
    }
    if mag == INFINITY {
        return s;
    }
    if mag < 0x20_0000 {
        return s + INFINITY;
    }
    let e: u32 = mag / 0x80_0000;
    let f: u32 = mag % 0x80_0000;
    // One more than the exponent field of the result, which may be -1.
    let lifted: u32;
    let f1: u32;
    if e > 0 {
        lifted = 254 - e;
        f1 = f;
    } else if f >= 0x40_0000 {
        lifted = 254;
        f1 = (2 * f) % 0x80_0000;
    } else {
        lifted = 255;
        f1 = (4 * f) % 0x80_0000;
    }
    let estimate: u32 = reciprocal_table(256 + f1 / 0x8000) - 256;
    if lifted >= 2 {
        s + (lifted - 1) * 0x80_0000 + estimate * 0x8000
    } else if lifted == 1 {
        s + 0x40_0000 + estimate * 0x4000
    } else {
        s + 0x20_0000 + estimate * 0x2000
    }
}

/// The estimate of the reciprocal of the square root of `x`.
pub fn rsqrt_estimate(x: u32) -> (r: u32)
    ensures
        r == rsqrt_estimated(x),
{
    proof {
        lemma_fields(x);
    }
    if holds_nan(x) {
        return quiet(x);
    }
    if x % 0x8000_0000 == 0 {
        return x + INFINITY;
    }
    if x >= 0x8000_0000 {
        return DEFAULT_NAN;
    }
    if x == INFINITY {
        return 0;
    }
    // The significand with its leading bit at position 23, and the exponent
    // that goes with it, lifted by 22 to stay above zero.
    let (m, lifted) = significand_and_exponent(x);
    let f1: u32 = m - 0x80_0000;
    let a: u32 = if lifted % 2 == 0 {
        256 + f1 / 0x8000
    } else {
        128 + f1 / 0x1_0000
    };
    let estimate: u32 = rsqrt_table(a) - 256;
    (402 - lifted) / 2 * 0x80_0000 + estimate * 0x8000
}

/// The nine-bit estimate of a reciprocal, times its operand, is 2^17 to
/// within 511, at both ends of the numbers that the operand stands for.
proof fn lemma_reciprocal_step_bounds(a: int)
    requires
        256 <= a < 512,
    ensures
        256 <= reciprocal_step(a) < 512,
        0x2_0000 - 511 <= a * reciprocal_step(a),
        (a + 1) * reciprocal_step(a) <= 0x2_0000 + 511,
{
    let d = 2 * a + 1;
    let b = 0x8_0000int / d;
    let r = (b + 1) / 2;
    assert(b * d <= 0x8_0000 < (b + 1) * d && 512 <= b <= 1022) by (nonlinear_arith)
        requires
            513 <= d <= 1023,
            b == 0x8_0000int / d,
    ;
    assert(0x2_0000 - 511 <= a * r && (a + 1) * r <= 0x2_0000 + 511) by (nonlinear_arith)
        requires
            d == 2 * a + 1,
            256 <= a < 512,
            b * d <= 0x8_0000 < (b + 1) * d,
            2 * r <= b + 1 <= 2 * r + 1,
            256 <= r < 512,
    ;
}

/// Where the significand `m` has the leading nine bits `a`, the product of
/// `m` and the estimate `r` for `a` is 2^32 to within 2^24.
proof fn lemma_reciprocal_product(m: int, a: int, r: int)
    by (nonlinear_arith)
    requires
        a * 0x8000 <= m < (a + 1) * 0x8000,
        256 <= r < 512,
        0x2_0000 - 511 <= a * r,
        (a + 1) * r <= 0x2_0000 + 511,
    ensures
        0x1_0000_0000 - 0x100_0000 < m * r < 0x1_0000_0000 + 0x100_0000,
{
}

/// The estimate of a reciprocal is accurate to eight bits: the product of a
/// number and its estimate differs from one by less than 2^-8. This holds of
/// every finite number from 2^-128 on, the numbers whose estimate is finite
/// and not zero. (Both values are in units of 2^-149, so that one is 2^298.)
pub proof fn lemma_reciprocal_estimate_accurate(x: u32)
    requires
        0x20_0000 <= magnitude(x) < INFINITY,
    ensures
        sign(reciprocal_estimated(x)) == sign(x),
        pow2(298) - pow2(290) < scaled_magnitude(x) * scaled_magnitude(reciprocal_estimated(x))
            < pow2(298) + pow2(290),
{
    lemma_fields(x);
    lemma2_to64();
    let s = sign(x);
    let e = exponent(x);
    let f = fraction(x);
    let y = reciprocal_estimated(x);
    // The significand with its leading bit at position 23.
    let m = if e > 0 {
        0x80_0000 + f
    } else if f >= 0x40_0000 {
        2 * f
    } else {
        4 * f
    };
    let a = m / 0x8000;
    let r = reciprocal_step(a);
    lemma_reciprocal_step_bounds(a);
    lemma_reciprocal_product(m, a, r);
    let big_x = scaled_magnitude(x);
    let big_y = scaled_magnitude(y);
    let unit = pow2(266) as int;
    assert(big_x * big_y == (m * r) * unit) by {
        if e == 0 {
            let re = if f >= 0x40_0000 { 253int } else { 254int };
            lemma_pattern_fields(s, re, (r - 256) * 0x8000);
            let p = pow2((re - 1) as nat) as int;
            assert(big_y == (r * 0x8000) * p) by (nonlinear_arith)
                requires
                    big_y == (0x80_0000 + (r - 256) * 0x8000) * p,
            ;
            if f >= 0x40_0000 {
                lemma_pow2_adds(14, 252);
                assert(f * ((r * 0x8000) * p) == ((2 * f) * r) * unit) by (nonlinear_arith)
                    requires
                        0x4000 * p == unit,
                ;
            } else {
                lemma_pow2_adds(13, 253);
                assert(f * ((r * 0x8000) * p) == ((4 * f) * r) * unit) by (nonlinear_arith)
                    requires
                        0x2000 * p == unit,
                ;
            }
        } else if e <= 252 {
            lemma_pattern_fields(s, 253 - e, (r - 256) * 0x8000);
            let p = pow2((e - 1) as nat) as int;
            let q = pow2((252 - e) as nat) as int;
            lemma_pow2_adds((e - 1) as nat, (252 - e) as nat);
            lemma_pow2_adds(15, 251);
            assert((m * p) * ((0x80_0000 + (r - 256) * 0x8000) * q) == (m * r) * unit)
                by (nonlinear_arith)
                requires
                    p * q == pow2(251),
                    0x8000 * pow2(251) == unit,
            ;
        } else if e == 253 {
            lemma_pattern_fields(s, 0, 0x40_0000 + (r - 256) * 0x4000);
            let p = pow2(252) as int;
            lemma_pow2_adds(14, 252);
            assert((m * p) * (0x40_0000 + (r - 256) * 0x4000) == (m * r) * unit)
                by (nonlinear_arith)
                requires
                    0x4000 * p == unit,
            ;
        } else {
            lemma_pattern_fields(s, 0, 0x20_0000 + (r - 256) * 0x2000);
            let p = pow2(253) as int;
            lemma_pow2_adds(13, 253);
            assert((m * p) * (0x20_0000 + (r - 256) * 0x2000) == (m * r) * unit)
                by (nonlinear_arith)
                requires
                    0x2000 * p == unit,
            ;
        }
    }
    assert(sign(y) == s) by {
        if e == 0 {
            let re = if f >= 0x40_0000 { 253int } else { 254int };
            lemma_pattern_fields(s, re, (r - 256) * 0x8000);
        } else if e <= 252 {
            lemma_pattern_fields(s, 253 - e, (r - 256) * 0x8000);
        } else if e == 253 {
            lemma_pattern_fields(s, 0, 0x40_0000 + (r - 256) * 0x4000);
        } else {
            lemma_pattern_fields(s, 0, 0x20_0000 + (r - 256) * 0x2000);
        }
    }
    lemma_pow2_adds(32, 266);
    lemma_pow2_adds(24, 266);
    lemma_pow2_pos(266);
    assert(pow2(298) - pow2(290) < (m * r) * unit < pow2(298) + pow2(290)) by (nonlinear_arith)
        requires
            0x1_0000_0000 - 0x100_0000 < m * r < 0x1_0000_0000 + 0x100_0000,
            0x1_0000_0000 * unit == pow2(298),
            0x100_0000 * unit == pow2(290),
            unit > 0,
    ;
}

/// There is a largest `b` with `d * b * b < 2^28`, and it is not below any
/// `b` that is known to qualify.
proof fn lemma_root_below_exists(d: int, b: int) -> (w: int)
    requires
        d > 0,
        0 <= b,
        d * (b * b) < 0x1000_0000,
    ensures
        is_root_below(d, w),
        w >= b,
    decreases 0x1000_0000 - b,
{
    assert(b < 0x1000_0000) by (nonlinear_arith)
        requires
            d > 0,
            0 <= b,
            d * (b * b) < 0x1000_0000,
    ;
    if d * ((b + 1) * (b + 1)) >= 0x1000_0000 {
        b
    } else {
        lemma_root_below_exists(d, b + 1)
    }
}

/// The nine-bit estimate of a reciprocal square root, squared and multiplied
/// by the middle of the numbers that its operand stands for, is 2^26 to
/// within 2^19.
proof fn lemma_rsqrt_step_bounds(d: int)
    requires
        257 <= d <= 1022,
    ensures
        256 <= (root_below(d) + 1) / 2 < 512,
        0x400_0000 - 0x8_0000 <= d * (((root_below(d) + 1) / 2) * ((root_below(d) + 1) / 2))
            <= 0x400_0000 + 0x8_0000,
{
    let w = lemma_root_below_exists(d, 0);
    lemma_root_below(d, w);
    let b = root_below(d);
    let r = (b + 1) / 2;
    assert(511 <= b <= 1022) by (nonlinear_arith)
        requires
            257 <= d <= 1022,
            0 <= b,
            d * (b * b) < 0x1000_0000 <= d * ((b + 1) * (b + 1)),
    ;
    assert(0x1000_0000 - 0x20_0000 <= d * (b * b) && d * ((b + 1) * (b + 1)) <= 0x1000_0000
        + 0x20_0000) by (nonlinear_arith)
        requires
            257 <= d <= 1022,
            511 <= b <= 1022,
            d * (b * b) < 0x1000_0000 <= d * ((b + 1) * (b + 1)),
    ;
    assert(d * (b * b) <= 4 * (d * (r * r)) <= d * ((b + 1) * (b + 1))) by (nonlinear_arith)
        requires
            d > 0,
            0 <= b <= 2 * r <= b + 1,
    ;
}

/// Where the significand `m` has the leading bits `h` and the estimate `r`
/// squared, times `d`, is near 2^26, `r` squared times `m` is near 2^40 if
/// `d` stands for a number from 1/2 up, and near 2^41 if it stands for one
/// below 1/2.
proof fn lemma_rsqrt_product(m: int, h: int, d: int, r: int, even: bool)
    by (nonlinear_arith)
    requires
        128 <= h <= 255,
        h * 0x1_0000 <= m < (h + 1) * 0x1_0000,
        d == (if even { 4 * h + 2 } else { 2 * h + 1 }),
        256 <= r < 512,
        0x400_0000 - 0x8_0000 <= d * (r * r) <= 0x400_0000 + 0x8_0000,
    ensures
        even ==> 0x100_0000_0000 - 0x4_0000_0000 <= (r * r) * m <= 0x100_0000_0000
            + 0x4_0000_0000,
        !even ==> 0x200_0000_0000 - 0x8_0000_0000 <= (r * r) * m <= 0x200_0000_0000
            + 0x8_0000_0000,
{
    let rr = r * r;
    assert(0 <= rr < 0x4_0000);
    if even {
        assert(rr * m == (d * rr) * 0x4000 + rr * (m - d * 0x4000));
        assert(-0x8000 <= m - d * 0x4000 < 0x8000);
        assert(-0x8000 * rr <= rr * (m - d * 0x4000) <= 0x8000 * rr);
    } else {
        assert(rr * m == (d * rr) * 0x8000 + rr * (m - d * 0x8000));
        assert(-0x8000 <= m - d * 0x8000 < 0x8000);
        assert(-0x8000 * rr <= rr * (m - d * 0x8000) <= 0x8000 * rr);
    }
}

/// The estimate of a reciprocal square root is accurate to seven bits and
/// more: the square of the estimate, times the number, differs from one by no
/// more than 2^-6. This holds of every finite number above zero. (All values
/// are in units of 2^-149, so that one is 2^447.)
pub proof fn lemma_rsqrt_estimate_accurate(x: u32)
    requires
        0 < x < INFINITY,
    ensures
        pow2(447) - pow2(441) <= scaled_magnitude(rsqrt_estimated(x)) * scaled_magnitude(
            rsqrt_estimated(x),
        ) * scaled_magnitude(x) <= pow2(447) + pow2(441),
{
    lemma_fields(x);
    lemma2_to64();
    let e = exponent(x);
    let f = fraction(x);
    let y = rsqrt_estimated(x);
    let big_x = scaled_magnitude(x);
    let big_y = scaled_magnitude(y);
    // The significand with its leading bit at position 23, and the exponent
    // that goes with it, lifted by 22.
    let k = floor_log2(f) as int;
    let t = if e > 0 { e + 22 } else { k };
    let m = if e > 0 { 0x80_0000 + f } else { f * pow2((23 - k) as nat) };
    assert(0 <= t <= 276 && 0x80_0000 <= m < 0x100_0000 && big_x * pow2(23) == m * pow2(t as nat))
        by {
        if e > 0 {
            lemma_pow2_adds((e - 1) as nat, 23);
            assert((m * pow2((e - 1) as nat)) * pow2(23) == m * pow2(t as nat))
                by (nonlinear_arith)
                requires
                    pow2((e - 1) as nat) * pow2(23) == pow2(t as nat),
            ;
        } else {
            lemma_floor_log2_bounds(f);
            if k >= 23 {
                if k > 23 {
                    lemma_pow2_strictly_increases(23, k as nat);
                }
            }
            lemma_pow2_adds(k as nat, (23 - k) as nat);
            lemma_pow2_pos((23 - k) as nat);
            let p = pow2(k as nat) as int;
            let q = pow2((23 - k) as nat) as int;
            assert(0x80_0000 <= f * q < 0x100_0000 && f * pow2(23) == (f * q) * p)
                by (nonlinear_arith)
                requires
                    p <= f < 2 * p,
                    p * q == 0x80_0000,
                    q > 0,
                    pow2(23) == 0x80_0000,
            ;
        }
    }
    let even = t % 2 == 0;
    let h = m / 0x1_0000;
    let a = if even { m / 0x8000 } else { m / 0x1_0000 };
    let d = if even { 4 * h + 2 } else { 2 * h + 1 };
    let r = (root_below(d) + 1) / 2;
    assert(r == rsqrt_step(a));
    lemma_rsqrt_step_bounds(d);
    lemma_rsqrt_product(m, h, d, r, even);
    let re = (402 - t) / 2;
    assert(y == pattern(false, re, (r - 256) * 0x8000));
    lemma_pattern_fields(false, re, (r - 256) * 0x8000);
    let p = pow2((re - 1) as nat) as int;
    assert(big_y == (r * 0x8000) * p) by (nonlinear_arith)
        requires
            big_y == (0x80_0000 + (r - 256) * 0x8000) * p,
    ;
    let goal = big_y * big_y * big_x;
    let rrm = (r * r) * m;
    let unit = (if even { pow2(430) } else { pow2(429) }) as int;
    assert(goal * pow2(23) == rrm * unit) by {
        lemma_pow2_adds((re - 1) as nat, (re - 1) as nat);
        lemma_pow2_adds((2 * re - 2) as nat, t as nat);
        lemma_pow2_adds(30, (2 * re - 2 + t) as nat);
        let pp = pow2((2 * re - 2) as nat) as int;
        let pt = pow2(t as nat) as int;
        assert(goal * pow2(23) == rrm * unit) by (nonlinear_arith)
            requires
                goal == big_y * big_y * big_x,
                big_y == (r * 0x8000) * p,
                p * p == pp,
                big_x * pow2(23) == m * pt,
                rrm == (r * r) * m,
                0x4000_0000 * (pp * pt) == unit,
        ;
    }
    lemma_pow2_adds(40, 430);
    lemma_pow2_adds(34, 430);
    lemma_pow2_adds(41, 429);
    lemma_pow2_adds(35, 429);
    lemma_pow2_adds(447, 23);
    lemma_pow2_adds(441, 23);
    lemma_pow2_pos(429);
    lemma_pow2_pos(430);
    lemma2_to64_rest();
    assert(pow2(470) - pow2(464) <= rrm * unit <= pow2(470) + pow2(464)) by (nonlinear_arith)
        requires
            unit > 0,
            even ==> 0x100_0000_0000 - 0x4_0000_0000 <= rrm <= 0x100_0000_0000 + 0x4_0000_0000,
            !even ==> 0x200_0000_0000 - 0x8_0000_0000 <= rrm <= 0x200_0000_0000 + 0x8_0000_0000,
            even ==> 0x100_0000_0000 * unit == pow2(470) && 0x4_0000_0000 * unit == pow2(464),
            !even ==> 0x200_0000_0000 * unit == pow2(470) && 0x8_0000_0000 * unit == pow2(464),
    ;
    assert(pow2(447) - pow2(441) <= goal <= pow2(447) + pow2(441)) by (nonlinear_arith)
        requires
            pow2(470) - pow2(464) <= goal * pow2(23) <= pow2(470) + pow2(464),
            pow2(470) == pow2(447) * pow2(23),
            pow2(464) == pow2(441) * pow2(23),
            pow2(23) > 0,
    ;
}

/// The estimate of the reciprocal square root of a square approximates the
/// reciprocal of the number that was squared: where `s` is a normal number
/// nearest to the square of `v`, the product of the estimate for `s` and the
/// absolute value of `v`, squared, differs from one by less than 2^-5, so the
/// product itself differs from one by less than 2^-6. (Both values are in
/// units of 2^-149, so that the square of one is 2^596.)
pub proof fn lemma_rsqrt_estimate_of_square(v: u32, s: u32)
    requires
        is_nearest_square(v, s),
    ensures
        ({
            let product = scaled_magnitude(rsqrt_estimated(s)) * scaled_magnitude(v);
            pow2(596) - pow2(591) < product * product < pow2(596) + pow2(591)
        }),
{
    lemma_rsqrt_estimate_accurate(s);
    lemma_neighbours(s);
    lemma_fields(s);
    lemma2_to64();
    let ms = 0x80_0000 + fraction(s);
    let us = pow2((exponent(s) - 1) as nat) as int;
    let unit = pow2(149) as int;
    let big_s = scaled_magnitude(s);
    let big_v = scaled_magnitude(v);
    let big_y = scaled_magnitude(rsqrt_estimated(s));
    let down = scaled_magnitude((s - 1) as u32);
    let up = scaled_magnitude((s + 1) as u32);
    let square = big_v * big_v;
    lemma_pow2_pos(149);
    // The square of `v` is the value of `s` to within 2^-24.
    assert(-(big_s * unit) <= 0x100_0000 * (square - big_s * unit) <= big_s * unit)
        by (nonlinear_arith)
        requires
            (down + big_s) * unit <= 2 * square <= (big_s + up) * unit,
            big_s == ms * us,
            up == (ms + 1) * us,
            down >= (ms - 1) * us,
            ms >= 0x80_0000,
            us > 0,
            unit > 0,
    ;
    let e = big_y * big_y;
    let g = e * big_s;
    let product = big_y * big_v;
    assert(product * product == e * square && e >= 0) by (nonlinear_arith)
        requires
            product == big_y * big_v,
            e == big_y * big_y,
            square == big_v * big_v,
    ;
    lemma_pow2_adds(447, 149);
    lemma_pow2_adds(441, 149);
    // `e * square` is `e * d + g * unit`, with both terms bounded.
    let d = square - big_s * unit;
    let ed = e * d;
    let gu = g * unit;
    assert(-gu <= 0x100_0000 * ed <= gu) by (nonlinear_arith)
        requires
            -(big_s * unit) <= 0x100_0000 * d <= big_s * unit,
            e >= 0,
            ed == e * d,
            gu == (e * big_s) * unit,
    ;
    assert(pow2(596) - pow2(590) <= gu <= pow2(596) + pow2(590)) by (nonlinear_arith)
        requires
            gu == g * unit,
            pow2(447) - pow2(441) <= g <= pow2(447) + pow2(441),
            pow2(447) * unit == pow2(596),
            pow2(441) * unit == pow2(590),
            unit > 0,
    ;
    assert(e * square == ed + gu) by (nonlinear_arith)
        requires
            ed == e * d,
            d == square - big_s * unit,
            gu == (e * big_s) * unit,
    ;
    // 2^24 times the difference from 2^596 is below 2^596 + 2^590 + 2^614,
    // which is below 2^615.
    lemma_pow2_adds(24, 590);
    lemma_pow2_adds(24, 591);
    lemma_pow2_adds(1, 614);
    lemma_pow2_adds(1, 596);
    lemma_pow2_strictly_increases(590, 596);
    lemma_pow2_strictly_increases(597, 614);
    assert(pow2(596) + pow2(590) < pow2(614));
}

} // verus!

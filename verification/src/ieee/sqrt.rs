//! Square root in the 32-bit format, rounded to nearest.

use crate::ieee::binary32::{
    exponent, floor_log2, fraction, holds_nan, is_infinite, is_nan, is_zero, lemma_fields,
    lemma_magnitude_order, normalize, quiet, quieted, scaled_magnitude, sign, DEFAULT_NAN,
    INFINITY,
};
use vstd::arithmetic::power2::{
    lemma2_to64, lemma_pow2_adds, lemma_pow2_pos, lemma_pow2_strictly_increases,
    lemma_pow2_unfold, pow2,
};
use vstd::prelude::*;

verus! {

/// `r` is a positive number, and the square root of `x` lies nearer to it
/// than to any other number of the format: strictly between the midpoint of
/// `r` and the pattern below it and the midpoint of `r` and the pattern above
/// it. (The square root of a number of the format is never such a midpoint.)
///
/// With `X` and `R` the two values in units of 2^-149, and `L` and `H` the
/// values of the neighbours of `r`, this is
/// `((L + R) / 2)^2 < 2^149 * X < ((R + H) / 2)^2`.
pub open spec fn is_nearest_root(x: u32, r: u32) -> bool {
    let below = scaled_magnitude((r - 1) as u32) + scaled_magnitude(r);
    let above = scaled_magnitude(r) + scaled_magnitude((r + 1) as u32);
    &&& 0 < r < INFINITY
    &&& below * below < 4 * pow2(149) * scaled_magnitude(x) < above * above
}

/// `r` is the square root of `x`: a NaN made quiet, a zero as it is, the
/// default NaN for a number below zero, positive infinity as it is, and else
/// the number nearest to the root.
pub open spec fn is_square_root(x: u32, r: u32) -> bool {
    if is_nan(x) {
        r == quieted(x)
    } else if is_zero(x) {
        r == x
    } else if sign(x) {
        r == DEFAULT_NAN
    } else if is_infinite(x) {
        r == x
    } else {
        is_nearest_root(x, r)
    }
}

/// `s` is a normal number as near to the square of `x` as any other number of
/// the format: the square lies between the midpoint of `s` and the pattern
/// below it and the midpoint of `s` and the pattern above it, the midpoints
/// included. It is what a multiplication of `x` by itself gives, rounded in
/// any way that rounds to nearest, where the product neither overflows nor
/// falls below the normal numbers.
pub open spec fn is_nearest_square(x: u32, s: u32) -> bool {
    let exact = scaled_magnitude(x) * scaled_magnitude(x);
    let below = scaled_magnitude((s - 1) as u32) + scaled_magnitude(s);
    let above = scaled_magnitude(s) + scaled_magnitude((s + 1) as u32);
    &&& 0x80_0000 <= s < INFINITY
    &&& below * pow2(149) <= 2 * exact <= above * pow2(149)
}

/// The square root of `x`.
pub open spec fn square_root(x: u32) -> u32 {
    choose|r: u32| is_square_root(x, r)
}

/// The integer part of the square root of `n`.
pub fn integer_sqrt(n: u64) -> (q: u64)
    ensures
        q * q <= n < (q + 1) * (q + 1),
        q < 0x1_0000_0000,
{
    let mut q: u64 = 0;
    let mut w: u64 = 0x1_0000_0000;
    let ghost mut k: nat = 32;
    proof {
        lemma2_to64();
        assert(0x1_0000_0000int * 0x1_0000_0000int == 0x1_0000_0000_0000_0000int);
    }
    while w > 1
        invariant
            w == pow2(k),
            w >= 1,
            q + w <= 0x1_0000_0000,
            q * q <= n < (q + w) * (q + w),
        decreases w,
    {
        proof {
            if k == 0 {
                lemma2_to64();
            }
            lemma_pow2_unfold(k);
            lemma_pow2_pos((k - 1) as nat);
            k = (k - 1) as nat;
        }
        let ghost old_w = w;
        w = w / 2;
        let c: u64 = q + w;
        assert(c * c < 0x1_0000_0000_0000_0000) by (nonlinear_arith)
            requires
                0 <= c < 0x1_0000_0000,
        ;
        assert(q + old_w == c + w);
        if c * c <= n {
            q = c;
        }
    }
    q
}

/// `2^a <= 2^b` for `a <= b`.
proof fn lemma_pow2_increases(a: nat, b: nat)
    requires
        a <= b,
    ensures
        pow2(a) <= pow2(b),
{
    if a < b {
        lemma_pow2_strictly_increases(a, b);
    }
}

/// The values of a normal pattern and of the patterns next to it, by the
/// significand `m` and the unit in the last place `u` of the pattern.
pub proof fn lemma_neighbours(p: u32)
    requires
        0x80_0000 <= p < INFINITY,
    ensures
        ({
            let e = exponent(p);
            let m = 0x80_0000 + fraction(p);
            let u = pow2((e - 1) as nat) as int;
            &&& 1 <= e <= 254
            &&& u > 0
            &&& scaled_magnitude(p) == m * u
            &&& scaled_magnitude((p + 1) as u32) == (m + 1) * u
            &&& scaled_magnitude((p - 1) as u32) >= (m - 1) * u
            &&& m > 0x80_0000 ==> scaled_magnitude((p - 1) as u32) == (m - 1) * u
            &&& m == 0x80_0000 && e >= 2 ==> scaled_magnitude((p - 1) as u32) == 0xff_ffff * pow2(
                (e - 2) as nat,
            ) && u == 2 * pow2((e - 2) as nat)
        }),
{
    lemma_fields(p);
    lemma_fields((p - 1) as u32);
    lemma_fields((p + 1) as u32);
    lemma2_to64();
    let e = exponent(p);
    let m = 0x80_0000 + fraction(p);
    let u = pow2((e - 1) as nat) as int;
    lemma_pow2_pos((e - 1) as nat);
    if m + 1 == 0x100_0000 {
        assert(exponent((p + 1) as u32) == e + 1 && fraction((p + 1) as u32) == 0);
        lemma_pow2_unfold(e as nat);
        assert(0x80_0000 * (2 * u) == (m + 1) * u) by (nonlinear_arith)
            requires
                m + 1 == 0x100_0000,
        ;
    } else {
        assert(exponent((p + 1) as u32) == e && fraction((p + 1) as u32) == m + 1 - 0x80_0000);
    }
    if m > 0x80_0000 {
        assert(exponent((p - 1) as u32) == e && fraction((p - 1) as u32) == m - 1 - 0x80_0000);
    } else if e >= 2 {
        assert(exponent((p - 1) as u32) == e - 1 && fraction((p - 1) as u32) == 0x7f_ffff);
        lemma_pow2_unfold((e - 1) as nat);
        let half = pow2((e - 2) as nat) as int;
        assert(0xff_ffff * half >= 0x7f_ffff * (2 * half)) by (nonlinear_arith)
            requires
                half >= 0,
        ;
    } else {
        assert(exponent((p - 1) as u32) == 0 && fraction((p - 1) as u32) == 0x7f_ffff);
        assert(0x7f_ffff * u == 0x7f_ffff) by (nonlinear_arith)
            requires
                u == 1,
        ;
    }
}

/// Rounding the integer root `q0` of `n` up where the remainder exceeds it
/// gives the integer nearest to the root of `n`.
proof fn lemma_nearest_integer_root(n: int, q0: int, q: int)
    by (nonlinear_arith)
    requires
        1 <= q0,
        q0 * q0 <= n < (q0 + 1) * (q0 + 1),
        q == (if n - q0 * q0 > q0 { q0 + 1 } else { q0 }),
    ensures
        (2 * q - 1) * (2 * q - 1) < 4 * n < (2 * q + 1) * (2 * q + 1),
{
}

/// The number under the root in the units of the comparison. The value of
/// the operand is `m * 2^t` in units of 2^-172; it is cut to `n`, which is
/// `m * 2^(c + 22)`, with `c` of the parity of `t`; the exponent field of the
/// root is `u`, and `p` is the unit in its last place.
proof fn lemma_root_scale(big_x: int, m: int, t: nat, c: nat, n: int, u: nat, p: int)
    requires
        big_x * pow2(23) == m * pow2(t),
        n == m * pow2(c + 22),
        2 * u == t + 106 - c,
        u >= 1,
        p == pow2((u - 1) as nat),
    ensures
        4 * pow2(149) * big_x == (4 * n) * (p * p),
{
    lemma2_to64();
    lemma_pow2_adds((u - 1) as nat, (u - 1) as nat);
    lemma_pow2_adds(c + 22, (2 * u - 2) as nat);
    lemma_pow2_adds(2, t + 126);
    lemma_pow2_adds(t, 128);
    lemma_pow2_adds(2, 149);
    lemma_pow2_adds(128, 23);
    lemma_pow2_pos(23);
    let goal = 4 * pow2(149) * big_x;
    let pp = pow2((2 * u - 2) as nat) as int;
    let pc = pow2(c + 22) as int;
    let pt = pow2(t) as int;
    let p23 = pow2(23) as int;
    let p128 = pow2(128) as int;
    assert((4 * n) * (p * p) * p23 == goal * p23) by (nonlinear_arith)
        requires
            n == m * pc,
            pc * pp == pow2(t + 126),
            pp == p * p,
            4 * pow2(t + 126) == pow2(t + 128),
            pow2(t + 128) == pt * p128,
            big_x * p23 == m * pt,
            goal == 4 * pow2(149) * big_x,
            4 * pow2(149) == pow2(151),
            p128 * p23 == pow2(151),
    ;
    assert(goal == (4 * n) * (p * p)) by (nonlinear_arith)
        requires
            (4 * n) * (p * p) * p23 == goal * p23,
            p23 > 0,
    ;
}

/// The pattern with the exponent field `u` and the significand `q`, the
/// integer nearest to the root of `n`, is the number nearest to the root of
/// `x`, where `goal`, the value of `x` in the units of the comparison, is `n`
/// times the square of the unit in the last place of that pattern.
proof fn lemma_nearest_root(x: u32, r: u32, n: int, q: int, u: int)
    requires
        2 <= u <= 253,
        0x80_0000 <= q < 0x100_0000,
        r == u * 0x80_0000 + (q - 0x80_0000),
        (2 * q - 1) * (2 * q - 1) < 4 * n < (2 * q + 1) * (2 * q + 1),
        n >= 0x4000_0000_0000,
        4 * pow2(149) * scaled_magnitude(x) == (4 * n) * (pow2((u - 1) as nat) * pow2(
            (u - 1) as nat,
        )),
    ensures
        is_nearest_root(x, r),
{
    lemma_fields(r);
    lemma_neighbours(r);
    let p = pow2((u - 1) as nat) as int;
    let half = pow2((u - 2) as nat) as int;
    lemma_pow2_pos((u - 2) as nat);
    let mid = scaled_magnitude(r);
    let above = mid + scaled_magnitude((r + 1) as u32);
    let below = scaled_magnitude((r - 1) as u32) + mid;
    let goal = 4 * pow2(149) * scaled_magnitude(x);
    assert(goal < above * above) by (nonlinear_arith)
        requires
            above == q * p + (q + 1) * p,
            p > 0,
            goal == (4 * n) * (p * p),
            4 * n < (2 * q + 1) * (2 * q + 1),
    ;
    if q > 0x80_0000 {
        assert(below * below < goal) by (nonlinear_arith)
            requires
                below == (q - 1) * p + q * p,
                p > 0,
                q >= 1,
                goal == (4 * n) * (p * p),
                (2 * q - 1) * (2 * q - 1) < 4 * n,
        ;
    } else {
        assert(below * below < goal) by (nonlinear_arith)
            requires
                below == 0xff_ffff * half + q * p,
                q == 0x80_0000,
                p == 2 * half,
                half > 0,
                goal == (4 * n) * (p * p),
                n >= 0x4000_0000_0000,
        ;
    }
}

/// The square root of `x`, rounded to nearest.
pub fn sqrt(x: u32) -> (r: u32)
    ensures
        is_square_root(x, r),
        r == square_root(x),
{
    let r = rounded_root(x);
    proof {
        lemma_square_root_unique(x, r, square_root(x));
    }
    r
}

/// The significand of a positive number with its leading bit at position 23,
/// and the exponent `t` that goes with it: the value of `x` in units of
/// 2^-172 is `m * 2^t`.
pub(crate) fn significand_and_exponent(x: u32) -> (r: (u32, u32))
    requires
        0 < x < INFINITY,
    ensures
        0x80_0000 <= r.0 < 0x100_0000,
        r.1 <= 276,
        scaled_magnitude(x) * pow2(23) == r.0 * pow2(r.1 as nat),
        exponent(x) > 0 ==> r.0 == 0x80_0000 + fraction(x) && r.1 == exponent(x) + 22,
        exponent(x) == 0 ==> r.0 == fraction(x) * pow2((23 - floor_log2(fraction(x))) as nat)
            && r.1 == floor_log2(fraction(x)),
{
    proof {
        lemma_fields(x);
        lemma2_to64();
    }
    let e: u32 = x / 0x80_0000;
    let f: u32 = x % 0x80_0000;
    let ghost big_x = scaled_magnitude(x);
    if e == 0 {
        let (m, k) = normalize(f);
        proof {
            lemma_pow2_adds((23 - k) as nat, k as nat);
            assert(m * pow2(k as nat) == big_x * pow2(23)) by (nonlinear_arith)
                requires
                    m == big_x * pow2((23 - k) as nat),
                    pow2((23 - k) as nat) * pow2(k as nat) == pow2(23),
            ;
        }
        (m, k)
    } else {
        let m: u32 = 0x80_0000 + f;
        proof {
            lemma_pow2_adds((e - 1) as nat, 23);
            assert(big_x * pow2(23) == m * pow2((e + 22) as nat)) by (nonlinear_arith)
                requires
                    big_x == m * pow2((e - 1) as nat),
                    pow2((e - 1) as nat) * pow2(23) == pow2((e + 22) as nat),
            ;
        }
        (m, e + 22)
    }
}

/// The case analysis and the arithmetic of the square root.
fn rounded_root(x: u32) -> (r: u32)
    ensures
        is_square_root(x, r),
{
    proof {
        lemma_fields(x);
    }
    if holds_nan(x) {
        return quiet(x);
    }
    if x % 0x8000_0000 == 0 {
        return x;
    }
    if x >= 0x8000_0000 {
        return DEFAULT_NAN;
    }
    if x == INFINITY {
        return x;
    }
    let (m, t) = significand_and_exponent(x);
    // An even number of bits is left for the exponent of the root.
    let c: u32 = if t % 2 == 0 { 2 } else { 1 };
    let n: u64 = if c == 2 { m as u64 * 0x100_0000 } else { m as u64 * 0x80_0000 };
    let u: u32 = (t + 106 - c) / 2;
    let q0 = integer_sqrt(n);
    assert(0x80_0000 <= q0 < 0x100_0000) by (nonlinear_arith)
        requires
            q0 * q0 <= n < (q0 + 1) * (q0 + 1),
            0x4000_0000_0000 <= n < 0x1_0000_0000_0000,
    ;
    assert(q0 * q0 <= 0x1_0000_0000_0000) by (nonlinear_arith)
        requires
            q0 < 0x100_0000,
    ;
    let q: u64 = if n - q0 * q0 > q0 { q0 + 1 } else { q0 };
    proof {
        // The largest `n` is too small to round up to 2^24.
        assert(q < 0x100_0000) by (nonlinear_arith)
            requires
                q0 * q0 <= n,
                n <= 0x1_0000_0000_0000 - 0x100_0000,
                q0 < 0x100_0000,
                q == (if n - q0 * q0 > q0 { q0 + 1 } else { q0 as int }),
        ;
    }
    let r: u32 = u * 0x80_0000 + (q - 0x80_0000) as u32;
    proof {
        lemma2_to64();
        lemma_nearest_integer_root(n as int, q0 as int, q as int);
        lemma_root_scale(
            scaled_magnitude(x),
            m as int,
            t as nat,
            c as nat,
            n as int,
            u as nat,
            pow2((u - 1) as nat) as int,
        );
        lemma_nearest_root(x, r, n as int, q as int, u as int);
    }
    r
}

/// For two positive patterns, the lower below the upper, the midpoint above
/// the lower one is no greater than the midpoint below the upper one.
proof fn lemma_midpoints_ordered(r1: u32, r2: u32)
    requires
        0 < r1 < r2 < INFINITY,
    ensures
        0 <= scaled_magnitude(r1) + scaled_magnitude((r1 + 1) as u32) <= scaled_magnitude(
            (r2 - 1) as u32,
        ) + scaled_magnitude(r2),
{
    lemma_fields(r1);
    lemma_fields(r2);
    lemma_fields((r1 + 1) as u32);
    lemma_fields((r2 - 1) as u32);
    lemma_magnitude_order(r1, (r2 - 1) as u32);
    lemma_magnitude_order((r1 + 1) as u32, r2);
}

/// A pattern has one square root.
pub proof fn lemma_square_root_unique(x: u32, r1: u32, r2: u32)
    requires
        is_square_root(x, r1),
        is_square_root(x, r2),
    ensures
        r1 == r2,
{
    if !is_nan(x) && !is_zero(x) && !sign(x) && !is_infinite(x) && r1 != r2 {
        let (lo, hi) = if r1 < r2 { (r1, r2) } else { (r2, r1) };
        lemma_midpoints_ordered(lo, hi);
        let a = scaled_magnitude(lo) + scaled_magnitude((lo + 1) as u32);
        let b = scaled_magnitude((hi - 1) as u32) + scaled_magnitude(hi);
        assert(a * a <= b * b) by (nonlinear_arith)
            requires
                0 <= a <= b,
        ;
    }
}

/// The square root of an exact square is exact: where the value of `s` is the
/// square of the value of `x`, and `x` is finite and not negative, the square
/// root of `s` is `x`, bit for bit.
pub proof fn lemma_square_root_of_square(x: u32, s: u32)
    requires
        x < INFINITY,
        s < INFINITY,
        scaled_magnitude(s) * pow2(149) == scaled_magnitude(x) * scaled_magnitude(x),
    ensures
        is_square_root(s, x),
{
    lemma_fields(x);
    lemma_fields(s);
    lemma_magnitude_order(x, s);
    lemma_magnitude_order(s, x);
    lemma_pow2_pos(149);
    let big_x = scaled_magnitude(x);
    let big_s = scaled_magnitude(s);
    if x == 0 {
        assert(big_s == 0) by (nonlinear_arith)
            requires
                big_s * pow2(149) == big_x * big_x,
                big_x == 0,
                pow2(149) > 0,
        ;
    } else {
        assert(big_s != 0) by (nonlinear_arith)
            requires
                big_s * pow2(149) == big_x * big_x,
                big_x > 0,
        ;
        lemma_fields((x - 1) as u32);
        lemma_fields((x + 1) as u32);
        lemma_magnitude_order((x - 1) as u32, x);
        lemma_magnitude_order(x, (x + 1) as u32);
        let down = scaled_magnitude((x - 1) as u32);
        let up = scaled_magnitude((x + 1) as u32);
        assert((down + big_x) * (down + big_x) < 4 * pow2(149) * big_s < (big_x + up) * (big_x
            + up)) by (nonlinear_arith)
            requires
                0 <= down < big_x < up,
                big_s * pow2(149) == big_x * big_x,
        ;
    }
}

/// The square root undoes a squaring that rounds to nearest: where `x` is
/// finite and not negative and `s` is a normal number nearest to the square
/// of `x`, the square root of `s` is `x`, bit for bit.
pub proof fn lemma_square_root_of_rounded_square(x: u32, s: u32)
    requires
        x < INFINITY,
        is_nearest_square(x, s),
    ensures
        is_square_root(s, x),
{
    lemma_fields(x);
    lemma_fields(s);
    lemma_neighbours(s);
    lemma2_to64();
    let ex = exponent(x);
    let es = exponent(s);
    let ms = 0x80_0000 + fraction(s);
    let us = pow2((es - 1) as nat) as int;
    let unit = pow2(149) as int;
    let big_x = scaled_magnitude(x);
    let big_s = scaled_magnitude(s);
    let down = scaled_magnitude((s - 1) as u32);
    let up = scaled_magnitude((s + 1) as u32);
    lemma_pow2_increases(32, 149);
    // In units of 2^-298: the unit in the last place of `s`, and `s` itself.
    let big_u = us * unit;
    let w = ms * big_u;
    assert(big_u > 0 && w == big_s * unit && (down + big_s) * unit >= 2 * w - big_u && (big_s
        + up) * unit == 2 * w + big_u) by (nonlinear_arith)
        requires
            big_u == us * unit,
            w == ms * big_u,
            big_s == ms * us,
            up == (ms + 1) * us,
            down >= (ms - 1) * us,
            us > 0,
            unit > 0,
    ;
    // A subnormal number has no normal square.
    assert(ex > 0) by (nonlinear_arith)
        requires
            ex == 0 ==> 0 <= big_x < 0x80_0000,
            ex >= 0,
            2 * w - big_u <= 2 * (big_x * big_x),
            w == ms * big_u,
            ms >= 0x80_0000,
            big_u == us * unit,
            us >= 1,
            unit >= 0x1_0000_0000,
    ;
    lemma_neighbours(x);
    let m = 0x80_0000 + fraction(x);
    let u = pow2((ex - 1) as nat) as int;
    let uu = u * u;
    assert(big_x * big_x == (m * m) * uu && uu > 0) by (nonlinear_arith)
        requires
            big_x == m * u,
            uu == u * u,
            u > 0,
    ;
    // The unit in the last place of `s` is 2^23 or 2^24 times `u * u`.
    let a = (es + 148) as nat;
    let b = (2 * ex - 2) as nat;
    lemma_pow2_adds((es - 1) as nat, 149);
    lemma_pow2_adds((ex - 1) as nat, (ex - 1) as nat);
    assert(big_u == pow2(a) && uu == pow2(b));
    if a >= b + 25 {
        lemma_pow2_increases(b + 25, a);
        lemma_pow2_adds(25, b);
    }
    assert(a < b + 25) by (nonlinear_arith)
        requires
            a >= b + 25 ==> big_u >= 0x200_0000 * uu,
            w == ms * big_u,
            ms >= 0x80_0000,
            2 * w - big_u <= 2 * ((m * m) * uu),
            0 <= m < 0x100_0000,
            uu > 0,
    ;
    if a <= b + 22 {
        lemma_pow2_increases(a, b + 22);
        lemma_pow2_adds(22, b);
    }
    assert(a > b + 22) by (nonlinear_arith)
        requires
            a <= b + 22 ==> big_u <= 0x40_0000 * uu,
            0 < big_u,
            w == ms * big_u,
            ms < 0x100_0000,
            2 * ((m * m) * uu) <= 2 * w + big_u,
            m >= 0x80_0000,
            uu > 0,
    ;
    lemma_pow2_adds(23, b);
    lemma_pow2_adds(24, b);
    assert(big_u == 0x80_0000 * uu || big_u == 0x100_0000 * uu);
    if m == 0x80_0000 {
        // The square of a power of two is a number of the format.
        if ms > 0x80_0000 {
            assert((down + big_s) * unit == (2 * ms - 1) * big_u) by (nonlinear_arith)
                requires
                    down == (ms - 1) * us,
                    big_s == ms * us,
                    big_u == us * unit,
            ;
        }
        assert(w == (m * m) * uu) by (nonlinear_arith)
            requires
                m == 0x80_0000,
                big_u == 0x80_0000 * uu || big_u == 0x100_0000 * uu,
                w == ms * big_u,
                0x80_0000 <= ms < 0x100_0000,
                uu > 0,
                2 * w - big_u <= 2 * ((m * m) * uu) <= 2 * w + big_u,
                ms > 0x80_0000 ==> (2 * ms - 1) * big_u <= 2 * ((m * m) * uu),
        ;
        lemma_square_root_of_square(x, s);
    } else {
        let below = scaled_magnitude((x - 1) as u32) + big_x;
        let above = big_x + scaled_magnitude((x + 1) as u32);
        assert(below * below < 4 * unit * big_s < above * above) by (nonlinear_arith)
            requires
                below == (m - 1) * u + m * u,
                above == m * u + (m + 1) * u,
                uu == u * u,
                uu > 0,
                w == big_s * unit,
                big_u == 0x80_0000 * uu || big_u == 0x100_0000 * uu,
                2 * w - big_u <= 2 * ((m * m) * uu) <= 2 * w + big_u,
                0x80_0000 < m < 0x100_0000,
        ;
    }
}

} // verus!

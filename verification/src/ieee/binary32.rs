//! The 32-bit format: one sign bit, eight exponent bits, 23 fraction bits.

use vstd::arithmetic::power2::{
    lemma2_to64, lemma_pow2_pos, lemma_pow2_strictly_increases, lemma_pow2_unfold, pow2,
};
use vstd::prelude::*;

verus! {

/// The pattern of positive infinity.
pub const INFINITY: u32 = 0x7f80_0000;

/// The NaN that an invalid operation produces: positive, quiet, no payload.
pub const DEFAULT_NAN: u32 = 0x7fc0_0000;

/// The sign bit is set.
pub open spec fn sign(b: u32) -> bool {
    b >= 0x8000_0000
}

/// The exponent field.
pub open spec fn exponent(b: u32) -> int {
    (b as int / 0x80_0000) % 0x100
}

/// The fraction field.
pub open spec fn fraction(b: u32) -> int {
    b as int % 0x80_0000
}

/// The pattern without its sign bit.
pub open spec fn magnitude(b: u32) -> int {
    b as int % 0x8000_0000
}

/// Not a number: the exponent field is all ones and the fraction is not zero.
pub open spec fn is_nan(b: u32) -> bool {
    exponent(b) == 0xff && fraction(b) != 0
}

/// A NaN whose quiet bit, the top bit of the fraction, is clear.
pub open spec fn is_signaling(b: u32) -> bool {
    is_nan(b) && fraction(b) < 0x40_0000
}

/// An infinity of either sign.
pub open spec fn is_infinite(b: u32) -> bool {
    exponent(b) == 0xff && fraction(b) == 0
}

/// A zero of either sign.
pub open spec fn is_zero(b: u32) -> bool {
    exponent(b) == 0 && fraction(b) == 0
}

/// Neither a NaN nor an infinity.
pub open spec fn is_finite(b: u32) -> bool {
    exponent(b) < 0xff
}

/// The number that the fields `e` and `f` stand for, in units of 2^-149: the
/// fraction itself where the exponent field is zero, and otherwise the
/// fraction with its hidden bit, scaled by the exponent.
pub open spec fn scaled(e: int, f: int) -> int {
    if e <= 0 {
        f
    } else {
        (0x80_0000 + f) * pow2((e - 1) as nat)
    }
}

/// The absolute value of `b` in units of 2^-149. An infinity stands one
/// binade above the largest finite value.
pub open spec fn scaled_magnitude(b: u32) -> int {
    scaled(exponent(b), fraction(b))
}

/// The value of `b` in units of 2^-149.
pub open spec fn scaled_value(b: u32) -> int {
    if sign(b) {
        -scaled_magnitude(b)
    } else {
        scaled_magnitude(b)
    }
}

/// The pattern with the sign `s`, the exponent field `e` and the fraction
/// field `f`.
pub open spec fn pattern(s: bool, e: int, f: int) -> u32 {
    ((if s { 0x8000_0000int } else { 0 }) + e * 0x80_0000 + f) as u32
}

/// The position of the highest set bit of `n`: the `k` with
/// `2^k <= n < 2^(k+1)`.
pub open spec fn floor_log2(n: int) -> nat
    decreases n,
{
    if n <= 1 {
        0
    } else {
        1 + floor_log2(n / 2)
    }
}

/// `b` with its quiet bit set.
pub open spec fn quieted(b: u32) -> u32 {
    if fraction(b) < 0x40_0000 {
        (b + 0x40_0000) as u32
    } else {
        b
    }
}

/// The NaN that an operation on `a` and `b` returns when one of them is a
/// NaN: a signaling operand, the first before the second, with its quiet bit
/// set; else the quiet operand, the first before the second, unchanged.
pub open spec fn propagated_nan(a: u32, b: u32) -> u32 {
    if is_signaling(a) {
        quieted(a)
    } else if is_signaling(b) {
        quieted(b)
    } else if is_nan(a) {
        a
    } else {
        b
    }
}

/// The larger of `a` and `b`. A NaN operand is propagated. Of two zeros the
/// positive one is the larger.
pub open spec fn maximum(a: u32, b: u32) -> u32 {
    if is_nan(a) || is_nan(b) {
        propagated_nan(a, b)
    } else if scaled_value(a) > scaled_value(b) {
        a
    } else if scaled_value(a) < scaled_value(b) {
        b
    } else if sign(a) {
        b
    } else {
        a
    }
}

/// The smaller of `a` and `b`. A NaN operand is propagated. Of two zeros the
/// negative one is the smaller.
pub open spec fn minimum(a: u32, b: u32) -> u32 {
    if is_nan(a) || is_nan(b) {
        propagated_nan(a, b)
    } else if scaled_value(a) < scaled_value(b) {
        a
    } else if scaled_value(a) > scaled_value(b) {
        b
    } else if sign(a) {
        a
    } else {
        b
    }
}

/// A pattern is its sign bit, its exponent field and its fraction field.
pub proof fn lemma_fields(b: u32)
    ensures
        0 <= exponent(b) < 0x100,
        0 <= fraction(b) < 0x80_0000,
        magnitude(b) == exponent(b) * 0x80_0000 + fraction(b),
        b == (if sign(b) { 0x8000_0000int } else { 0 }) + magnitude(b),
{
}

/// The fields of a pattern are the fields that it was made of.
pub proof fn lemma_pattern_fields(s: bool, e: int, f: int)
    requires
        0 <= e < 0x100,
        0 <= f < 0x80_0000,
    ensures
        sign(pattern(s, e, f)) == s,
        exponent(pattern(s, e, f)) == e,
        fraction(pattern(s, e, f)) == f,
{
}

/// `floor_log2(n)` is the position of the highest set bit of `n`.
pub proof fn lemma_floor_log2_bounds(n: int)
    requires
        n >= 1,
    ensures
        pow2(floor_log2(n)) <= n < 2 * pow2(floor_log2(n)),
    decreases n,
{
    if n > 1 {
        lemma_floor_log2_bounds(n / 2);
        lemma_pow2_unfold(floor_log2(n));
    } else {
        lemma2_to64();
    }
}

/// The only `k` with `2^k <= n < 2^(k+1)` is `floor_log2(n)`.
proof fn lemma_floor_log2_unique(n: int, k: nat)
    requires
        pow2(k) <= n < 2 * pow2(k),
    ensures
        floor_log2(n) == k,
{
    lemma_pow2_pos(k);
    lemma_floor_log2_bounds(n);
    let j = floor_log2(n);
    if j < k {
        lemma_pow2_unfold(j + 1);
        if j + 1 < k {
            lemma_pow2_strictly_increases(j + 1, k);
        }
    } else if k < j {
        lemma_pow2_unfold(k + 1);
        if k + 1 < j {
            lemma_pow2_strictly_increases(k + 1, j);
        }
    }
}

/// The scaled number grows with the fields, the exponent before the fraction.
proof fn lemma_scaled_increases(e1: int, f1: int, e2: int, f2: int)
    requires
        0 <= e1 <= e2,
        0 <= f1 < 0x80_0000,
        0 <= f2 < 0x80_0000,
        e1 < e2 || f1 < f2,
    ensures
        0 <= scaled(e1, f1) < scaled(e2, f2),
{
    if e1 == e2 {
        if e1 > 0 {
            let p = pow2((e1 - 1) as nat) as int;
            lemma_pow2_pos((e1 - 1) as nat);
            assert(0 <= (0x80_0000 + f1) * p < (0x80_0000 + f2) * p) by (nonlinear_arith)
                requires
                    p > 0,
                    0 <= f1 < f2,
            ;
        }
    } else {
        let high = pow2((e2 - 1) as nat) as int;
        let q = pow2(e1 as nat) as int;
        lemma_pow2_pos(e1 as nat);
        if e1 < e2 - 1 {
            lemma_pow2_strictly_increases(e1 as nat, (e2 - 1) as nat);
        }
        assert(q <= high);
        assert(0x80_0000 * q <= (0x80_0000 + f2) * high) by (nonlinear_arith)
            requires
                0 < q <= high,
                0 <= f2,
        ;
        if e1 > 0 {
            let low = pow2((e1 - 1) as nat) as int;
            lemma_pow2_pos((e1 - 1) as nat);
            lemma_pow2_unfold(e1 as nat);
            assert(0 <= (0x80_0000 + f1) * low < 0x80_0000 * (2 * low)) by (nonlinear_arith)
                requires
                    low > 0,
                    0 <= f1 < 0x80_0000,
            ;
        } else {
            assert(0x80_0000 * q >= 0x80_0000) by (nonlinear_arith)
                requires
                    q >= 1,
            ;
        }
    }
}

/// Patterns without their sign are ordered as the absolute values they stand
/// for.
pub proof fn lemma_magnitude_order(a: u32, b: u32)
    ensures
        magnitude(a) < magnitude(b) <==> scaled_magnitude(a) < scaled_magnitude(b),
        magnitude(a) == magnitude(b) <==> scaled_magnitude(a) == scaled_magnitude(b),
        scaled_magnitude(a) >= 0,
        scaled_magnitude(a) == 0 <==> magnitude(a) == 0,
{
    lemma_fields(a);
    lemma_fields(b);
    let (ea, fa) = (exponent(a), fraction(a));
    let (eb, fb) = (exponent(b), fraction(b));
    if ea < eb || (ea == eb && fa < fb) {
        lemma_scaled_increases(ea, fa, eb, fb);
    } else if eb < ea || (ea == eb && fb < fa) {
        lemma_scaled_increases(eb, fb, ea, fa);
    }
    if ea > 0 || fa > 0 {
        lemma_scaled_increases(0, 0, ea, fa);
    }
}

/// The significand `f` of a subnormal number, moved up until its highest set
/// bit is the hidden bit, and the position `k` that the bit came from.
pub(crate) fn normalize(f: u32) -> (r: (u32, u32))
    requires
        1 <= f < 0x100_0000,
    ensures
        r.1 == floor_log2(f as int),
        r.1 <= 23,
        r.0 == f * pow2((23 - r.1) as nat),
        0x80_0000 <= r.0 < 0x100_0000,
{
    let mut m: u32 = f;
    let mut k: u32 = 23;
    proof {
        lemma2_to64();
        assert(f * pow2(0) == f) by (nonlinear_arith)
            requires
                pow2(0) == 1,
        ;
    }
    while m < 0x80_0000
        invariant
            1 <= f,
            1 <= m < 0x100_0000,
            k <= 23,
            m == f * pow2((23 - k) as nat),
            floor_log2(m as int) == floor_log2(f as int) + 23 - k,
        decreases 0x100_0000 - m,
    {
        proof {
            let j = (23 - k) as nat;
            lemma_pow2_unfold(j + 1);
            assert(2 * (f * pow2(j)) == f * (2 * pow2(j))) by (nonlinear_arith);
            assert((2 * m) as int / 2 == m);
            if k == 0 {
                lemma2_to64();
                assert(f * pow2(23) >= pow2(23)) by (nonlinear_arith)
                    requires
                        f >= 1,
                ;
            }
        }
        m = m * 2;
        k = k - 1;
    }
    proof {
        lemma2_to64();
        lemma_floor_log2_unique(m as int, 23);
    }
    (m, k)
}

/// Whether `b` is a NaN.
pub fn holds_nan(b: u32) -> (r: bool)
    ensures
        r == is_nan(b),
{
    b % 0x8000_0000 > INFINITY
}

/// Whether the value of `a` is less than the value of `b`. The two zeros are
/// equal; a NaN pattern is ordered as if it were a number beyond infinity.
pub fn below(a: u32, b: u32) -> (r: bool)
    ensures
        r == (scaled_value(a) < scaled_value(b)),
{
    proof {
        lemma_magnitude_order(a, b);
        lemma_magnitude_order(b, a);
    }
    let ma: u32 = a % 0x8000_0000;
    let mb: u32 = b % 0x8000_0000;
    if a >= 0x8000_0000 {
        if b >= 0x8000_0000 {
            mb < ma
        } else {
            ma != 0 || mb != 0
        }
    } else {
        if b >= 0x8000_0000 {
            false
        } else {
            ma < mb
        }
    }
}

/// `b` with its quiet bit set.
pub fn quiet(b: u32) -> (r: u32)
    ensures
        r == quieted(b),
{
    if b % 0x80_0000 < 0x40_0000 {
        b + 0x40_0000
    } else {
        b
    }
}

/// The NaN that an operation on `a` and `b` returns.
pub fn propagate_nan(a: u32, b: u32) -> (r: u32)
    ensures
        r == propagated_nan(a, b),
{
    if holds_nan(a) && a % 0x80_0000 < 0x40_0000 {
        quiet(a)
    } else if holds_nan(b) && b % 0x80_0000 < 0x40_0000 {
        quiet(b)
    } else if holds_nan(a) {
        a
    } else {
        b
    }
}

/// The larger of `a` and `b`.
pub fn max(a: u32, b: u32) -> (r: u32)
    ensures
        r == maximum(a, b),
{
    if holds_nan(a) || holds_nan(b) {
        propagate_nan(a, b)
    } else if below(b, a) {
        a
    } else if below(a, b) {
        b
    } else if a >= 0x8000_0000 {
        b
    } else {
        a
    }
}

/// The smaller of `a` and `b`.
pub fn min(a: u32, b: u32) -> (r: u32)
    ensures
        r == minimum(a, b),
{
    if holds_nan(a) || holds_nan(b) {
        propagate_nan(a, b)
    } else if below(a, b) {
        a
    } else if below(b, a) {
        b
    } else if a >= 0x8000_0000 {
        a
    } else {
        b
    }
}

/// Two patterns that stand for the same value are the same pattern,
/// or the two zeros.
pub proof fn lemma_equal_values(a: u32, b: u32)
    requires
        scaled_value(a) == scaled_value(b),
    ensures
        a == b || (is_zero(a) && is_zero(b)),
{
    lemma_magnitude_order(a, b);
    lemma_magnitude_order(b, a);
    lemma_fields(a);
    lemma_fields(b);
}

/// The larger and the smaller of two numbers do not depend on the order of
/// the operands.
pub proof fn lemma_max_min_commute(a: u32, b: u32)
    requires
        !is_nan(a),
        !is_nan(b),
    ensures
        maximum(a, b) == maximum(b, a),
        minimum(a, b) == minimum(b, a),
{
    if scaled_value(a) == scaled_value(b) {
        lemma_equal_values(a, b);
        lemma_fields(a);
        lemma_fields(b);
    }
}

/// The larger of two numbers is one of the two and is not below either; the
/// smaller is one of the two and is not above either.
pub proof fn lemma_max_min_select(a: u32, b: u32)
    requires
        !is_nan(a),
        !is_nan(b),
    ensures
        maximum(a, b) == a || maximum(a, b) == b,
        scaled_value(maximum(a, b)) >= scaled_value(a),
        scaled_value(maximum(a, b)) >= scaled_value(b),
        minimum(a, b) == a || minimum(a, b) == b,
        scaled_value(minimum(a, b)) <= scaled_value(a),
        scaled_value(minimum(a, b)) <= scaled_value(b),
{
}

/// With a NaN among the operands the result is a quiet NaN: the first
/// signaling operand with its quiet bit set, else the first NaN operand.
pub proof fn lemma_max_min_nan(a: u32, b: u32)
    requires
        is_nan(a) || is_nan(b),
    ensures
        maximum(a, b) == propagated_nan(a, b),
        minimum(a, b) == propagated_nan(a, b),
        is_nan(propagated_nan(a, b)),
        !is_signaling(propagated_nan(a, b)),
        is_signaling(a) ==> propagated_nan(a, b) == a + 0x40_0000,
        !is_signaling(a) && is_signaling(b) ==> propagated_nan(a, b) == b + 0x40_0000,
        !is_signaling(a) && !is_signaling(b) && is_nan(a) ==> propagated_nan(a, b) == a,
        !is_nan(a) && !is_signaling(b) ==> propagated_nan(a, b) == b,
{
    lemma_fields(a);
    lemma_fields(b);
}

} // verus!

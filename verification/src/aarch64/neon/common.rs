//! The operations under the names that portable code calls them by.

use crate::aarch64::neon::{
    aarch64_vmaxq_f32, aarch64_vmaxvq_u16, aarch64_vmaxvq_u32, aarch64_vmaxvq_u8,
    aarch64_vminq_f32, aarch64_vminvq_u16, aarch64_vminvq_u32, aarch64_vminvq_u8,
    aarch64_vrecpeq_f32, aarch64_vrsqrteq_f32, aarch64_vsqrtq_f32,
};
use crate::float::f32x4;
use crate::ieee::binary32;
use crate::ieee::estimate;
use crate::ieee::sqrt;
use crate::mask::{all_true, any_true, bool16ix8, bool32fx4, bool32ix4, bool8ix16};
use vstd::prelude::*;

verus! {

/// Lane by lane, the square root of `x`, rounded to nearest. The root of a
/// lane below zero is the default NaN; the root of a zero is that zero.
pub fn f32x4_sqrt(x: f32x4) -> (r: f32x4)
    ensures
        r@ == Seq::new(4, |i: int| sqrt::square_root(x@[i])),
{
    aarch64_vsqrtq_f32(x)
}

/// Lane by lane, an estimate of the reciprocal of the square root of `x`, of
/// eight significant bits. It is not the nearest number to the exact value,
/// and nothing here refines it.
pub fn f32x4_approx_rsqrt(x: f32x4) -> (r: f32x4)
    ensures
        r@ == Seq::new(4, |i: int| estimate::rsqrt_estimated(x@[i])),
{
    aarch64_vrsqrteq_f32(x)
}

/// Lane by lane, an estimate of the reciprocal of `x`, of eight significant
/// bits. It is not the nearest number to the exact value, and nothing here
/// refines it.
pub fn f32x4_approx_reciprocal(x: f32x4) -> (r: f32x4)
    ensures
        r@ == Seq::new(4, |i: int| estimate::reciprocal_estimated(x@[i])),
{
    aarch64_vrecpeq_f32(x)
}

/// Lane by lane, the larger of `x` and `y`. Where one of the two lanes is a
/// NaN the result lane is a quiet NaN made from it, and of two zeros the
/// positive one is the larger.
pub fn f32x4_max(x: f32x4, y: f32x4) -> (r: f32x4)
    ensures
        r@ == Seq::new(4, |i: int| binary32::maximum(x@[i], y@[i])),
{
    aarch64_vmaxq_f32(x, y)
}

/// Lane by lane, the smaller of `x` and `y`. Where one of the two lanes is a
/// NaN the result lane is a quiet NaN made from it, and of two zeros the
/// negative one is the smaller.
pub fn f32x4_min(x: f32x4, y: f32x4) -> (r: f32x4)
    ensures
        r@ == Seq::new(4, |i: int| binary32::minimum(x@[i], y@[i])),
{
    aarch64_vminq_f32(x, y)
}

/// Whether every lane of `x` is true: the smallest lane, read as an unsigned
/// integer, is not zero.
pub fn bool32fx4_all(x: bool32fx4) -> (r: bool)
    ensures
        r == all_true(x@),
{
    let least = aarch64_vminvq_u32(x.to_bits());
    proof {
        x.lemma_all_by_least(least);
    }
    least != 0
}

/// Whether some lane of `x` is true: the largest lane, read as an unsigned
/// integer, is not zero.
pub fn bool32fx4_any(x: bool32fx4) -> (r: bool)
    ensures
        r == any_true(x@),
{
    let greatest = aarch64_vmaxvq_u32(x.to_bits());
    proof {
        x.lemma_any_by_greatest(greatest);
    }
    greatest != 0
}

/// Whether every lane of `x` is true: the smallest lane, read as an unsigned
/// integer, is not zero.
pub fn bool8ix16_all(x: bool8ix16) -> (r: bool)
    ensures
        r == all_true(x@),
{
    let least = aarch64_vminvq_u8(x.to_bits());
    proof {
        x.lemma_all_by_least(least);
    }
    least != 0
}

/// Whether some lane of `x` is true: the largest lane, read as an unsigned
/// integer, is not zero.
pub fn bool8ix16_any(x: bool8ix16) -> (r: bool)
    ensures
        r == any_true(x@),
{
    let greatest = aarch64_vmaxvq_u8(x.to_bits());
    proof {
        x.lemma_any_by_greatest(greatest);
    }
    greatest != 0
}

/// Whether every lane of `x` is true: the smallest lane, read as an unsigned
/// integer, is not zero.
pub fn bool16ix8_all(x: bool16ix8) -> (r: bool)
    ensures
        r == all_true(x@),
{
    let least = aarch64_vminvq_u16(x.to_bits());
    proof {
        x.lemma_all_by_least(least);
    }
    least != 0
}

/// Whether some lane of `x` is true: the largest lane, read as an unsigned
/// integer, is not zero.
pub fn bool16ix8_any(x: bool16ix8) -> (r: bool)
    ensures
        r == any_true(x@),
{
    let greatest = aarch64_vmaxvq_u16(x.to_bits());
    proof {
        x.lemma_any_by_greatest(greatest);
    }
    greatest != 0
}

/// Whether every lane of `x` is true: the smallest lane, read as an unsigned
/// integer, is not zero.
pub fn bool32ix4_all(x: bool32ix4) -> (r: bool)
    ensures
        r == all_true(x@),
{
    let least = aarch64_vminvq_u32(x.to_bits());
    proof {
        x.lemma_all_by_least(least);
    }
    least != 0
}

/// Whether some lane of `x` is true: the largest lane, read as an unsigned
/// integer, is not zero.
pub fn bool32ix4_any(x: bool32ix4) -> (r: bool)
    ensures
        r == any_true(x@),
{
    let greatest = aarch64_vmaxvq_u32(x.to_bits());
    proof {
        x.lemma_any_by_greatest(greatest);
    }
    greatest != 0
}

} // verus!

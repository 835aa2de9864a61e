//! Floating-point vectors of 32-bit lanes.
//!
//! A lane holds the bit pattern of an IEEE-754 value, in the sense of
//! [`crate::ieee`]. The view of a vector is the sequence of its patterns.

use crate::vector::u32x4;
use vstd::prelude::*;

verus! {

/// Four lanes in the 32-bit format.
#[allow(non_camel_case_types)]
#[derive(Clone, Copy, Debug, PartialEq, Eq)]
pub struct f32x4 {
    pub bits: u32x4,
}

impl View for f32x4 {
    type V = Seq<u32>;

    open spec fn view(&self) -> Seq<u32> {
        self.bits@
    }
}

impl f32x4 {
    /// The vector whose lane `i` has the pattern `bits[i]`.
    pub fn from_bits(bits: [u32; 4]) -> (r: Self)
        ensures
            r@ == bits@,
    {
        f32x4 { bits: u32x4::from_array(bits) }
    }

    /// The patterns of the lanes, lane 0 first.
    pub fn to_bits(self) -> (r: [u32; 4])
        ensures
            r@ == self@,
    {
        self.bits.to_array()
    }

    /// The vector with the pattern `bits` in every lane.
    pub fn splat(bits: u32) -> (r: Self)
        ensures
            r@ == Seq::new(4, |i: int| bits),
    {
        f32x4 { bits: u32x4::splat(bits) }
    }
}

} // verus!

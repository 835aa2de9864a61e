//! Vectors of two 64-bit lanes.

use crate::mask::Mask;
use crate::vector::Simd;
use vstd::prelude::*;

verus! {

/// Two unsigned 64-bit lanes.
#[allow(non_camel_case_types)]
pub type u64x2 = Simd<u64, 2>;

/// Two signed 64-bit lanes.
#[allow(non_camel_case_types)]
pub type i64x2 = Simd<i64, 2>;

/// Two boolean lanes of 64 bits, the result of comparing integer lanes.
#[allow(non_camel_case_types)]
pub type bool64ix2 = Mask<u64, 2, false>;

/// Two boolean lanes of 64 bits, the result of comparing floating-point
/// lanes.
#[allow(non_camel_case_types)]
pub type bool64fx2 = Mask<u64, 2, true>;

/// Two floating-point lanes in the 64-bit format, each held as its bit
/// pattern.
#[allow(non_camel_case_types)]
#[derive(Clone, Copy, Debug, PartialEq, Eq)]
pub struct f64x2 {
    pub bits: u64x2,
}

impl View for f64x2 {
    type V = Seq<u64>;

    open spec fn view(&self) -> Seq<u64> {
        self.bits@
    }
}

impl f64x2 {
    /// The vector whose lane `i` has the pattern `bits[i]`.
    pub fn from_bits(bits: [u64; 2]) -> (r: Self)
        ensures
            r@ == bits@,
    {
        f64x2 { bits: u64x2::from_array(bits) }
    }

    /// The patterns of the lanes, lane 0 first.
    pub fn to_bits(self) -> (r: [u64; 2])
        ensures
            r@ == self@,
    {
        self.bits.to_array()
    }
}

} // verus!

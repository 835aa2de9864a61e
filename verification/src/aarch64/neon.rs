//! The NEON instructions that the vector operations rest on, each as a
//! function from lanes to lanes, and the capabilities built on them.
//!
//! Every function here is total: no instruction traps, and none reads anything
//! but its operands.

use crate::float::f32x4;
use crate::ieee::binary32;
use crate::ieee::convert;
use crate::ieee::estimate;
use crate::ieee::sqrt;
use crate::vector::{horizontal_max, horizontal_min, i8x16, u16x8, u32x4, u8x16};
use vstd::prelude::*;

pub mod common;

pub use crate::sixty_four::{bool64fx2, bool64ix2, f64x2, i64x2, u64x2};

verus! {

/// `UMAXV` on 8-bit lanes: the largest lane of `x`.
pub fn aarch64_vmaxvq_u8(x: u8x16) -> (r: u8)
    ensures
        x@.contains(r),
        forall|i: int| 0 <= i < 16 ==> r >= #[trigger] x@[i],
{
    horizontal_max(x)
}

/// `UMAXV` on 16-bit lanes: the largest lane of `x`.
pub fn aarch64_vmaxvq_u16(x: u16x8) -> (r: u16)
    ensures
        x@.contains(r),
        forall|i: int| 0 <= i < 8 ==> r >= #[trigger] x@[i],
{
    horizontal_max(x)
}

/// `UMAXV` on 32-bit lanes: the largest lane of `x`.
pub fn aarch64_vmaxvq_u32(x: u32x4) -> (r: u32)
    ensures
        x@.contains(r),
        forall|i: int| 0 <= i < 4 ==> r >= #[trigger] x@[i],
{
    horizontal_max(x)
}

/// `UMINV` on 8-bit lanes: the smallest lane of `x`.
pub fn aarch64_vminvq_u8(x: u8x16) -> (r: u8)
    ensures
        x@.contains(r),
        forall|i: int| 0 <= i < 16 ==> r <= #[trigger] x@[i],
{
    horizontal_min(x)
}

/// `UMINV` on 16-bit lanes: the smallest lane of `x`.
pub fn aarch64_vminvq_u16(x: u16x8) -> (r: u16)
    ensures
        x@.contains(r),
        forall|i: int| 0 <= i < 8 ==> r <= #[trigger] x@[i],
{
    horizontal_min(x)
}

/// `UMINV` on 32-bit lanes: the smallest lane of `x`.
pub fn aarch64_vminvq_u32(x: u32x4) -> (r: u32)
    ensures
        x@.contains(r),
        forall|i: int| 0 <= i < 4 ==> r <= #[trigger] x@[i],
{
    horizontal_min(x)
}

/// `FSQRT`: lane by lane, the square root, rounded to nearest.
pub fn aarch64_vsqrtq_f32(x: f32x4) -> (r: f32x4)
    ensures
        r@ == Seq::new(4, |i: int| sqrt::square_root(x@[i])),
{
    let lanes = x.to_bits();
    let r = f32x4::from_bits(
        [
            sqrt::sqrt(lanes[0]),
            sqrt::sqrt(lanes[1]),
            sqrt::sqrt(lanes[2]),
            sqrt::sqrt(lanes[3]),
        ],
    );
    assert(r@ =~= Seq::new(4, |i: int| sqrt::square_root(x@[i])));
    r
}

/// `FRSQRTE`: lane by lane, the estimate of the reciprocal of the square root.
pub fn aarch64_vrsqrteq_f32(x: f32x4) -> (r: f32x4)
    ensures
        r@ == Seq::new(4, |i: int| estimate::rsqrt_estimated(x@[i])),
{
    let lanes = x.to_bits();
    let r = f32x4::from_bits(
        [
            estimate::rsqrt_estimate(lanes[0]),
            estimate::rsqrt_estimate(lanes[1]),
            estimate::rsqrt_estimate(lanes[2]),
            estimate::rsqrt_estimate(lanes[3]),
        ],
    );
    assert(r@ =~= Seq::new(4, |i: int| estimate::rsqrt_estimated(x@[i])));
    r
}

/// `FRECPE`: lane by lane, the estimate of the reciprocal.
pub fn aarch64_vrecpeq_f32(x: f32x4) -> (r: f32x4)
    ensures
        r@ == Seq::new(4, |i: int| estimate::reciprocal_estimated(x@[i])),
{
    let lanes = x.to_bits();
    let r = f32x4::from_bits(
        [
            estimate::reciprocal_estimate(lanes[0]),
            estimate::reciprocal_estimate(lanes[1]),
            estimate::reciprocal_estimate(lanes[2]),
            estimate::reciprocal_estimate(lanes[3]),
        ],
    );
    assert(r@ =~= Seq::new(4, |i: int| estimate::reciprocal_estimated(x@[i])));
    r
}

/// `FMIN`: lane by lane, the smaller of the two lanes.
pub fn aarch64_vminq_f32(x: f32x4, y: f32x4) -> (r: f32x4)
    ensures
        r@ == Seq::new(4, |i: int| binary32::minimum(x@[i], y@[i])),
{
    let a = x.to_bits();
    let b = y.to_bits();
    let r = f32x4::from_bits(
        [
            binary32::min(a[0], b[0]),
            binary32::min(a[1], b[1]),
            binary32::min(a[2], b[2]),
            binary32::min(a[3], b[3]),
        ],
    );
    assert(r@ =~= Seq::new(4, |i: int| binary32::minimum(x@[i], y@[i])));
    r
}

/// `FMAX`: lane by lane, the larger of the two lanes.
pub fn aarch64_vmaxq_f32(x: f32x4, y: f32x4) -> (r: f32x4)
    ensures
        r@ == Seq::new(4, |i: int| binary32::maximum(x@[i], y@[i])),
{
    let a = x.to_bits();
    let b = y.to_bits();
    let r = f32x4::from_bits(
        [
            binary32::max(a[0], b[0]),
            binary32::max(a[1], b[1]),
            binary32::max(a[2], b[2]),
            binary32::max(a[3], b[3]),
        ],
    );
    assert(r@ =~= Seq::new(4, |i: int| binary32::maximum(x@[i], y@[i])));
    r
}

/// What a table lookup puts in a lane whose index is `index`: the table's
/// lane of that number, and zero where the table has no such lane.
pub open spec fn table_lane_u8(table: Seq<u8>, index: u8) -> u8 {
    if index < 16 {
        table[index as int]
    } else {
        0
    }
}

/// The same for signed lanes. An index lane is read as an unsigned byte, so a
/// negative index is one past the table, and selects zero.
pub open spec fn table_lane_i8(table: Seq<i8>, index: i8) -> i8 {
    if 0 <= index < 16 {
        table[index as int]
    } else {
        0
    }
}

/// The lanes that a lookup of `indices` in the sixteen-lane `table` gives.
pub open spec fn table_lookup_u8(table: Seq<u8>, indices: Seq<u8>) -> Seq<u8> {
    Seq::new(16, |i: int| table_lane_u8(table, indices[i]))
}

/// The lanes that a lookup of `indices` in the sixteen-lane `table` gives.
pub open spec fn table_lookup_i8(table: Seq<i8>, indices: Seq<i8>) -> Seq<i8> {
    Seq::new(16, |i: int| table_lane_i8(table, indices[i]))
}

/// Looking the indices 0, 1, up to 15 up gives the table back. In any lookup,
/// a lane whose index is below 16 holds the table's lane of that number, and a
/// lane whose index is 16 or more holds zero.
pub proof fn lemma_table_lookup_u8(table: Seq<u8>, indices: Seq<u8>, k: int)
    requires
        table.len() == 16,
        indices.len() == 16,
        0 <= k < 16,
    ensures
        table_lookup_u8(table, Seq::new(16, |i: int| i as u8)) == table,
        indices[k] < 16 ==> table_lookup_u8(table, indices)[k] == table[indices[k] as int],
        indices[k] >= 16 ==> table_lookup_u8(table, indices)[k] == 0,
{
    assert(table_lookup_u8(table, Seq::new(16, |i: int| i as u8)) =~= table);
}

/// Looking the indices 0, 1, up to 15 up gives the table back. In any lookup,
/// a lane whose index is in `0..16` holds the table's lane of that number, and
/// a lane whose index is negative or 16 or more holds zero.
pub proof fn lemma_table_lookup_i8(table: Seq<i8>, indices: Seq<i8>, k: int)
    requires
        table.len() == 16,
        indices.len() == 16,
        0 <= k < 16,
    ensures
        table_lookup_i8(table, Seq::new(16, |i: int| i as i8)) == table,
        0 <= indices[k] < 16 ==> table_lookup_i8(table, indices)[k] == table[indices[k] as int],
        indices[k] < 0 || indices[k] >= 16 ==> table_lookup_i8(table, indices)[k] == 0,
{
    assert(table_lookup_i8(table, Seq::new(16, |i: int| i as i8)) =~= table);
}

/// `TBL` with a one-register table. The table comes first, the indices second.
/// An index of 16 or more selects zero.
pub fn aarch64_vqtbl1q_u8(table: u8x16, indices: u8x16) -> (r: u8x16)
    ensures
        r@ == table_lookup_u8(table@, indices@),
{
    let mut out: [u8; 16] = [0; 16];
    let mut i: usize = 0;
    while i < 16
        invariant
            i <= 16,
            forall|j: int| 0 <= j < i ==> out@[j] == table_lane_u8(table@, #[trigger] indices@[j]),
        decreases 16 - i,
    {
        let index: u8 = indices.lanes[i];
        if index < 16 {
            out[i] = table.lanes[index as usize];
        } else {
            out[i] = 0;
        }
        i += 1;
    }
    let r = u8x16::from_array(out);
    assert(r@ =~= table_lookup_u8(table@, indices@));
    r
}

/// `TBL` with a one-register table, on signed lanes. The table comes first,
/// the indices second. An index outside `0..16` selects zero.
pub fn aarch64_vqtbl1q_s8(table: i8x16, indices: i8x16) -> (r: i8x16)
    ensures
        r@ == table_lookup_i8(table@, indices@),
{
    let mut out: [i8; 16] = [0; 16];
    let mut i: usize = 0;
    while i < 16
        invariant
            i <= 16,
            forall|j: int| 0 <= j < i ==> out@[j] == table_lane_i8(table@, #[trigger] indices@[j]),
        decreases 16 - i,
    {
        let index: i8 = indices.lanes[i];
        if 0 <= index && index < 16 {
            out[i] = table.lanes[index as usize];
        } else {
            out[i] = 0;
        }
        i += 1;
    }
    let r = i8x16::from_array(out);
    assert(r@ =~= table_lookup_i8(table@, indices@));
    r
}

/// Promotion of four 32-bit floating-point lanes to the 64-bit format.
pub trait Aarch64F32x4: Sized {
    /// The patterns of the four lanes of `self`.
    spec fn lane_bits(self) -> Seq<u32>;

    /// Lanes 0 and 1 of `self` in the 64-bit format, exactly. Lanes 2 and 3
    /// are dropped: the result has two lanes, not four.
    fn to_f64(self) -> (r: f64x2)
        ensures
            r@ == seq![
                convert::widened(self.lane_bits()[0]),
                convert::widened(self.lane_bits()[1]),
            ],
    ;
}

impl Aarch64F32x4 for f32x4 {
    open spec fn lane_bits(self) -> Seq<u32> {
        self@
    }

    fn to_f64(self) -> (r: f64x2) {
        let lo = convert::widen(self.bits.lanes[0]);
        let hi = convert::widen(self.bits.lanes[1]);
        let r = f64x2::from_bits([lo, hi]);
        assert(r@ =~= seq![convert::widened(self@[0]), convert::widened(self@[1])]);
        r
    }
}

/// Byte-table lookup for sixteen unsigned lanes.
pub trait Aarch64U8x16: Sized {
    /// The sixteen index lanes that `self` supplies.
    spec fn index_lanes(self) -> Seq<u8>;

    /// Looks each lane of `self` up in the table `t0`: lane `i` of the result
    /// is lane `self[i]` of `t0`, and zero where `self[i]` is 16 or more.
    /// The receiver holds the indices; the argument is the table.
    fn table_lookup_1(self, t0: u8x16) -> (r: u8x16)
        ensures
            r@ == table_lookup_u8(t0@, self.index_lanes()),
    ;
}

impl Aarch64U8x16 for u8x16 {
    open spec fn index_lanes(self) -> Seq<u8> {
        self@
    }

    fn table_lookup_1(self, t0: u8x16) -> (r: u8x16) {
        aarch64_vqtbl1q_u8(t0, self)
    }
}

/// Byte-table lookup for sixteen signed lanes.
pub trait Aarch64I8x16: Sized {
    /// The sixteen index lanes that `self` supplies.
    spec fn index_lanes(self) -> Seq<i8>;

    /// Looks each lane of `self` up in the table `t0`: lane `i` of the result
    /// is lane `self[i]` of `t0`, and zero where `self[i]` is negative or 16
    /// or more. The receiver holds the indices; the argument is the table.
    fn table_lookup_1(self, t0: i8x16) -> (r: i8x16)
        ensures
            r@ == table_lookup_i8(t0@, self.index_lanes()),
    ;
}

impl Aarch64I8x16 for i8x16 {
    open spec fn index_lanes(self) -> Seq<i8> {
        self@
    }

    fn table_lookup_1(self, t0: i8x16) -> (r: i8x16) {
        aarch64_vqtbl1q_s8(t0, self)
    }
}

} // verus!

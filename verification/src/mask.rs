//! Boolean vectors.
//!
//! A boolean lane is a bit pattern as wide as the lanes it was compared from.
//! It is true when the pattern is not zero. The vectors that this module
//! builds hold only the two canonical patterns, all ones and all zeros.

use crate::vector::{Lane, Simd};
use vstd::prelude::*;

verus! {

/// `N` boolean lanes with patterns of type `T`. `FLOAT` tells the vectors that
/// come from comparing floating-point lanes from those that come from
/// comparing integer lanes.
#[derive(Copy, Debug, PartialEq, Eq)]
pub struct Mask<T, const N: usize, const FLOAT: bool> {
    pub bits: Simd<T, N>,
}

/// Four boolean lanes of 32 bits, the result of comparing floating-point
/// lanes.
#[allow(non_camel_case_types)]
pub type bool32fx4 = Mask<u32, 4, true>;

/// Sixteen boolean lanes of 8 bits, the result of comparing integer lanes.
#[allow(non_camel_case_types)]
pub type bool8ix16 = Mask<u8, 16, false>;

/// Eight boolean lanes of 16 bits, the result of comparing integer lanes.
#[allow(non_camel_case_types)]
pub type bool16ix8 = Mask<u16, 8, false>;

/// Four boolean lanes of 32 bits, the result of comparing integer lanes.
#[allow(non_camel_case_types)]
pub type bool32ix4 = Mask<u32, 4, false>;

/// Every lane is true.
pub open spec fn all_true(lanes: Seq<bool>) -> bool {
    forall|i: int| 0 <= i < lanes.len() ==> #[trigger] lanes[i]
}

/// Some lane is true.
pub open spec fn any_true(lanes: Seq<bool>) -> bool {
    exists|i: int| 0 <= i < lanes.len() && #[trigger] lanes[i]
}

impl<T: Copy, const N: usize, const FLOAT: bool> Clone for Mask<T, N, FLOAT> {
    fn clone(&self) -> (r: Self)
        ensures
            r == *self,
    {
        *self
    }
}

impl<T: Lane, const N: usize, const FLOAT: bool> View for Mask<T, N, FLOAT> {
    type V = Seq<bool>;

    open spec fn view(&self) -> Seq<bool> {
        Seq::new(N as nat, |i: int| self.bits@[i].value() != 0)
    }
}

impl<T: Lane, const N: usize, const FLOAT: bool> Mask<T, N, FLOAT> {
    /// Every lane holds one of the two canonical patterns.
    pub open spec fn wf(self) -> bool {
        forall|i: int|
            0 <= i < N ==> (#[trigger] self.bits@[i]).value() == 0 || self.bits@[i].value()
                == T::all_ones()
    }

    /// The canonical vector whose lane `i` is `lanes[i]`.
    pub fn from_array(lanes: [bool; N]) -> (r: Self)
        ensures
            r.wf(),
            r@ == lanes@,
    {
        let mut bits: [T; N] = [T::filled(false); N];
        let mut i: usize = 0;
        while i < N
            invariant
                i <= N,
                T::all_ones() > 0,
                forall|j: int|
                    0 <= j < i ==> (#[trigger] bits@[j]).value() == (if lanes@[j] {
                        T::all_ones()
                    } else {
                        0
                    }),
                forall|j: int| i <= j < N ==> (#[trigger] bits@[j]).value() == 0,
            decreases N - i,
        {
            bits[i] = T::filled(lanes[i]);
            i += 1;
        }
        let r = Mask { bits: Simd::from_array(bits) };
        assert(r@ =~= lanes@);
        r
    }

    /// The canonical vector with `b` in every lane.
    pub fn splat(b: bool) -> (r: Self)
        ensures
            r.wf(),
            r@ == Seq::new(N as nat, |i: int| b),
    {
        let r = Mask { bits: Simd::splat(T::filled(b)) };
        assert(r@ =~= Seq::new(N as nat, |i: int| b));
        r
    }

    /// Lane `idx`.
    pub fn extract(self, idx: u32) -> (r: bool)
        requires
            idx < N,
        ensures
            r == self@[idx as int],
    {
        self.bits.extract(idx).is_set()
    }

    /// The vector with lane `idx` set to the canonical pattern of `b` and
    /// every other lane kept.
    pub fn replace(self, idx: u32, b: bool) -> (r: Self)
        requires
            idx < N,
        ensures
            r@ == self@.update(idx as int, b),
            self.wf() ==> r.wf(),
    {
        let r = Mask { bits: self.bits.replace(idx, T::filled(b)) };
        assert(r@ =~= self@.update(idx as int, b));
        r
    }

    /// The lanes as unsigned integers of the same width, bit for bit.
    pub fn to_bits(self) -> (r: Simd<T, N>)
        ensures
            r == self.bits,
    {
        self.bits
    }

    /// The boolean vector with the bit patterns of `bits`, canonical or not.
    pub fn from_bits(bits: Simd<T, N>) -> (r: Self)
        ensures
            r.bits == bits,
    {
        Mask { bits }
    }

    /// Every lane is true exactly if the smallest pattern is not zero.
    pub proof fn lemma_all_by_least(self, least: T)
        requires
            self.bits@.contains(least),
            forall|i: int| 0 <= i < N ==> least.value() <= (#[trigger] self.bits@[i]).value(),
        ensures
            all_true(self@) == (least.value() != 0),
    {
        let k = choose|k: int| 0 <= k < N && self.bits@[k] == least;
        assert(self@[k] == (least.value() != 0));
        assert forall|i: int| 0 <= i < N && least.value() != 0 implies #[trigger] self@[i] by {
            assert(least.value() <= self.bits@[i].value());
        }
    }

    /// Some lane is true exactly if the largest pattern is not zero.
    pub proof fn lemma_any_by_greatest(self, greatest: T)
        requires
            self.bits@.contains(greatest),
            forall|i: int| 0 <= i < N ==> greatest.value() >= (#[trigger] self.bits@[i]).value(),
        ensures
            any_true(self@) == (greatest.value() != 0),
    {
        let k = choose|k: int| 0 <= k < N && self.bits@[k] == greatest;
        assert(self@[k] == (greatest.value() != 0));
        assert forall|i: int| 0 <= i < N && greatest.value() == 0 implies !#[trigger] self@[i] by {
            assert(greatest.value() >= self.bits@[i].value());
        }
    }
}

/// A vector of equal lanes is all true exactly if the lane is true, and holds a
/// true lane exactly if the lane is true. One false lane makes a vector not all
/// true, and one true lane gives it a true lane.
pub proof fn lemma_all_any(v: Seq<bool>, k: int, n: nat, b: bool)
    requires
        0 <= k < v.len(),
        n > 0,
    ensures
        all_true(Seq::new(n, |i: int| b)) == b,
        any_true(Seq::new(n, |i: int| b)) == b,
        !v[k] ==> !all_true(v),
        v[k] ==> any_true(v),
        all_true(v) ==> any_true(v),
{
    let s = Seq::new(n, |i: int| b);
    assert(s[0] == b);
    if all_true(v) {
        assert(v[k]);
    }
}

} // verus!

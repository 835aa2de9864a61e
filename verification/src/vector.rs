//! Fixed-width lane vectors.
//!
//! A vector is an array of lanes, lane 0 first. Its view is the sequence of
//! its lanes.

use vstd::prelude::*;

verus! {

/// `N` lanes of type `T`.
#[derive(Copy, Debug, PartialEq, Eq)]
pub struct Simd<T, const N: usize> {
    pub lanes: [T; N],
}

impl<T: Copy, const N: usize> Clone for Simd<T, N> {
    fn clone(&self) -> (r: Self)
        ensures
            r == *self,
    {
        *self
    }
}

/// Sixteen unsigned 8-bit lanes.
#[allow(non_camel_case_types)]
pub type u8x16 = Simd<u8, 16>;

/// Sixteen signed 8-bit lanes.
#[allow(non_camel_case_types)]
pub type i8x16 = Simd<i8, 16>;

/// Eight unsigned 16-bit lanes.
#[allow(non_camel_case_types)]
pub type u16x8 = Simd<u16, 8>;

/// Four unsigned 32-bit lanes.
#[allow(non_camel_case_types)]
pub type u32x4 = Simd<u32, 4>;

impl<T, const N: usize> View for Simd<T, N> {
    type V = Seq<T>;

    open spec fn view(&self) -> Seq<T> {
        self.lanes@
    }
}

impl<T: Copy, const N: usize> Simd<T, N> {
    /// The vector whose lane `i` is `lanes[i]`.
    pub fn from_array(lanes: [T; N]) -> (r: Self)
        ensures
            r@ == lanes@,
    {
        Simd { lanes }
    }

    /// The lanes, lane 0 first.
    pub fn to_array(self) -> (r: [T; N])
        ensures
            r@ == self@,
    {
        self.lanes
    }

    /// The vector with `x` in every lane.
    pub fn splat(x: T) -> (r: Self)
        ensures
            r@ == Seq::new(N as nat, |i: int| x),
    {
        let r = Simd { lanes: [x; N] };
        assert(r@ =~= Seq::new(N as nat, |i: int| x));
        r
    }

    /// Lane `idx`.
    pub fn extract(self, idx: u32) -> (r: T)
        requires
            idx < N,
        ensures
            r == self@[idx as int],
    {
        self.lanes[idx as usize]
    }

    /// The vector with lane `idx` set to `elem` and every other lane kept.
    pub fn replace(self, idx: u32, elem: T) -> (r: Self)
        requires
            idx < N,
        ensures
            r@ == self@.update(idx as int, elem),
    {
        let mut lanes = self.lanes;
        lanes[idx as usize] = elem;
        Simd { lanes }
    }
}

/// An unsigned integer lane of 8, 16, 32 or 64 bits.
pub trait Lane: Copy {
    /// The lane as a number.
    spec fn value(self) -> nat;

    /// The number whose bits are all ones.
    spec fn all_ones() -> nat;

    /// Whether `self` is below `other`.
    fn below(self, other: Self) -> (r: bool)
        ensures
            r == (self.value() < other.value()),
    ;

    /// Whether some bit of `self` is set.
    fn is_set(self) -> (r: bool)
        ensures
            r == (self.value() != 0),
    ;

    /// The lane whose bits are all ones for `true`, all zeros for `false`.
    /// The two differ.
    fn filled(b: bool) -> (r: Self)
        ensures
            r.value() == (if b { Self::all_ones() } else { 0 }),
            Self::all_ones() > 0,
    ;
}

impl Lane for u8 {
    open spec fn value(self) -> nat {
        self as nat
    }

    open spec fn all_ones() -> nat {
        0xff
    }

    fn below(self, other: u8) -> (r: bool) {
        self < other
    }

    fn is_set(self) -> (r: bool) {
        self != 0
    }

    fn filled(b: bool) -> (r: u8) {
        if b {
            0xff
        } else {
            0
        }
    }
}

impl Lane for u16 {
    open spec fn value(self) -> nat {
        self as nat
    }

    open spec fn all_ones() -> nat {
        0xffff
    }

    fn below(self, other: u16) -> (r: bool) {
        self < other
    }

    fn is_set(self) -> (r: bool) {
        self != 0
    }

    fn filled(b: bool) -> (r: u16) {
        if b {
            0xffff
        } else {
            0
        }
    }
}

impl Lane for u32 {
    open spec fn value(self) -> nat {
        self as nat
    }

    open spec fn all_ones() -> nat {
        0xffff_ffff
    }

    fn below(self, other: u32) -> (r: bool) {
        self < other
    }

    fn is_set(self) -> (r: bool) {
        self != 0
    }

    fn filled(b: bool) -> (r: u32) {
        if b {
            0xffff_ffff
        } else {
            0
        }
    }
}

impl Lane for u64 {
    open spec fn value(self) -> nat {
        self as nat
    }

    open spec fn all_ones() -> nat {
        0xffff_ffff_ffff_ffff
    }

    fn below(self, other: u64) -> (r: bool) {
        self < other
    }

    fn is_set(self) -> (r: bool) {
        self != 0
    }

    fn filled(b: bool) -> (r: u64) {
        if b {
            0xffff_ffff_ffff_ffff
        } else {
            0
        }
    }
}

/// The smallest lane of `x`.
pub fn horizontal_min<T: Lane, const N: usize>(x: Simd<T, N>) -> (r: T)
    requires
        N > 0,
    ensures
        x@.contains(r),
        forall|i: int| 0 <= i < N ==> r.value() <= (#[trigger] x@[i]).value(),
{
    let mut r: T = x.lanes[0];
    let mut i: usize = 1;
    assert(x@[0] == r);
    while i < N
        invariant
            1 <= i <= N,
            x@.contains(r),
            forall|j: int| 0 <= j < i ==> r.value() <= (#[trigger] x@[j]).value(),
        decreases N - i,
    {
        if x.lanes[i].below(r) {
            r = x.lanes[i];
            assert(x@[i as int] == r);
        }
        i += 1;
    }
    r
}

/// The largest lane of `x`.
pub fn horizontal_max<T: Lane, const N: usize>(x: Simd<T, N>) -> (r: T)
    requires
        N > 0,
    ensures
        x@.contains(r),
        forall|i: int| 0 <= i < N ==> r.value() >= (#[trigger] x@[i]).value(),
{
    let mut r: T = x.lanes[0];
    let mut i: usize = 1;
    assert(x@[0] == r);
    while i < N
        invariant
            1 <= i <= N,
            x@.contains(r),
            forall|j: int| 0 <= j < i ==> r.value() >= (#[trigger] x@[j]).value(),
        decreases N - i,
    {
        if r.below(x.lanes[i]) {
            r = x.lanes[i];
            assert(x@[i as int] == r);
        }
        i += 1;
    }
    r
}

} // verus!

use simd_neon::vector::{horizontal_max, horizontal_min, Lane, Simd};
use simd_neon::{bool16ix8, bool32fx4, bool32ix4, bool64fx2, bool64ix2, bool8ix16, f32x4, f64x2};
use simd_neon::{i64x2, i8x16, u16x8, u32x4, u64x2, u8x16};

#[test]
fn from_array_and_to_array_are_inverse() {
    let lanes = [1u32, 2, 3, 4];
    assert_eq!(u32x4::from_array(lanes).to_array(), lanes);
    let lanes = [-1i8, 2, -3, 4, -5, 6, -7, 8, -9, 10, -11, 12, -13, 14, -15, 16];
    assert_eq!(i8x16::from_array(lanes).to_array(), lanes);
    let lanes = [u64::MAX, 0];
    assert_eq!(u64x2::from_array(lanes).to_array(), lanes);
}

#[test]
fn splat_fills_every_lane() {
    assert_eq!(u8x16::splat(7).to_array(), [7; 16]);
    assert_eq!(u16x8::splat(0xabcd).to_array(), [0xabcd; 8]);
    assert_eq!(u32x4::splat(0).to_array(), [0; 4]);
}

#[test]
fn extract_reads_one_lane() {
    let v = u16x8::from_array([10, 11, 12, 13, 14, 15, 16, 17]);
    for i in 0..8u32 {
        assert_eq!(v.extract(i), 10 + i as u16);
    }
}

#[test]
fn replace_changes_one_lane() {
    let v = u32x4::from_array([1, 2, 3, 4]);
    assert_eq!(v.replace(0, 9).to_array(), [9, 2, 3, 4]);
    assert_eq!(v.replace(3, 9).to_array(), [1, 2, 3, 9]);
    assert_eq!(v.to_array(), [1, 2, 3, 4]);
}

#[test]
fn clone_is_a_copy() {
    let v = u8x16::splat(3).replace(4, 5);
    let w = v.clone();
    assert_eq!(v, w);
}

#[test]
fn boolean_vectors_hold_canonical_patterns() {
    let v = bool32fx4::from_array([true, false, true, false]);
    assert_eq!(v.to_bits().to_array(), [0xffff_ffff, 0, 0xffff_ffff, 0]);
    let v = bool32ix4::splat(true);
    assert_eq!(v.to_bits().to_array(), [0xffff_ffff; 4]);
    let v = bool16ix8::splat(true).replace(1, false);
    assert_eq!(v.to_bits().to_array(), [0xffff, 0, 0xffff, 0xffff, 0xffff, 0xffff, 0xffff, 0xffff]);
    let v = bool8ix16::splat(false).replace(15, true);
    let mut expected = [0u8; 16];
    expected[15] = 0xff;
    assert_eq!(v.to_bits().to_array(), expected);
}

#[test]
fn boolean_vectors_extract_and_replace() {
    let v = bool8ix16::splat(false).replace(3, true);
    for i in 0..16u32 {
        assert_eq!(v.extract(i), i == 3);
    }
    let v = bool32fx4::from_array([true, true, false, true]);
    assert!(v.extract(0));
    assert!(!v.extract(2));
    assert_eq!(v.replace(2, true), bool32fx4::splat(true));
}

#[test]
fn boolean_vectors_from_bits_keep_the_bits() {
    let bits = u16x8::from_array([0, 1, 2, 3, 0xffff, 0, 0, 0]);
    assert_eq!(bool16ix8::from_bits(bits).to_bits(), bits);
}

#[test]
fn floating_point_vectors_hold_bit_patterns() {
    let v = f32x4::from_bits([1.0f32.to_bits(), 0, 0x8000_0000, 0x7fc0_0000]);
    assert_eq!(v.to_bits(), [0x3f80_0000, 0, 0x8000_0000, 0x7fc0_0000]);
    assert_eq!(f32x4::splat(0x4000_0000).to_bits(), [2.0f32.to_bits(); 4]);
    let w = f64x2::from_bits([1.0f64.to_bits(), u64::MAX]);
    assert_eq!(w.to_bits(), [0x3ff0_0000_0000_0000, u64::MAX]);
}

#[test]
fn sixty_four_bit_lanes() {
    assert_eq!(i64x2::from_array([i64::MIN, -1]).extract(1), -1);
    assert_eq!(u64x2::splat(5).replace(1, 6).to_array(), [5, 6]);
    let v = bool64ix2::from_array([true, false]);
    assert_eq!(v.to_bits().to_array(), [u64::MAX, 0]);
    assert!(v.extract(0));
    assert!(!v.extract(1));
    assert_eq!(bool64fx2::splat(true).to_bits().to_array(), [u64::MAX; 2]);
}

#[test]
fn lanes_compare_as_unsigned_numbers() {
    assert!(1u8.below(2));
    assert!(!2u8.below(2));
    assert!(0x7fu8.below(0x80));
    assert!(0x7fff_ffffu32.below(0x8000_0000));
    assert!(!0xffffu16.below(0));
    assert!(0x10u16.is_set());
    assert!(!0u64.is_set());
    assert_eq!(u8::filled(true), 0xff);
    assert_eq!(u16::filled(true), 0xffff);
    assert_eq!(u32::filled(true), 0xffff_ffff);
    assert_eq!(u64::filled(true), u64::MAX);
    assert_eq!(u32::filled(false), 0);
}

#[test]
fn horizontal_min_and_max_of_any_width() {
    let v: Simd<u64, 3> = Simd::from_array([u64::MAX, 3, 1 << 40]);
    assert_eq!(horizontal_min(v), 3);
    assert_eq!(horizontal_max(v), u64::MAX);
    let one: Simd<u8, 1> = Simd::from_array([9]);
    assert_eq!(horizontal_min(one), 9);
    assert_eq!(horizontal_max(one), 9);
    let ties: Simd<u16, 4> = Simd::from_array([5, 5, 5, 5]);
    assert_eq!(horizontal_min(ties), 5);
    assert_eq!(horizontal_max(ties), 5);
}

use simd_neon::aarch64::neon::common::{f32x4_max, f32x4_min};
use simd_neon::f32x4;
use simd_neon::ieee::binary32::{below, holds_nan, max, min, propagate_nan, quiet};

const POS_ZERO: u32 = 0x0000_0000;
const NEG_ZERO: u32 = 0x8000_0000;
const POS_INF: u32 = 0x7f80_0000;
const NEG_INF: u32 = 0xff80_0000;
const QUIET_NAN: u32 = 0x7fc0_0123;
const SIGNALING_NAN: u32 = 0x7f80_0456;
const NEG_SIGNALING_NAN: u32 = 0xffa0_0001;

fn next(state: &mut u64) -> u32 {
    *state = state.wrapping_mul(6364136223846793005).wrapping_add(1442695040888963407);
    (*state >> 32) as u32
}

#[test]
fn nan_patterns_are_recognised() {
    assert!(holds_nan(QUIET_NAN));
    assert!(holds_nan(SIGNALING_NAN));
    assert!(holds_nan(NEG_SIGNALING_NAN));
    assert!(holds_nan(0x7f80_0001));
    assert!(holds_nan(0xffff_ffff));
    assert!(!holds_nan(POS_INF));
    assert!(!holds_nan(NEG_INF));
    assert!(!holds_nan(POS_ZERO));
    assert!(!holds_nan(1.0f32.to_bits()));
}

#[test]
fn quiet_sets_the_quiet_bit() {
    assert_eq!(quiet(SIGNALING_NAN), 0x7fc0_0456);
    assert_eq!(quiet(QUIET_NAN), QUIET_NAN);
    assert_eq!(quiet(NEG_SIGNALING_NAN), 0xffe0_0001);
}

#[test]
fn below_orders_by_value() {
    assert!(below((-1.0f32).to_bits(), 1.0f32.to_bits()));
    assert!(below((-2.0f32).to_bits(), (-1.0f32).to_bits()));
    assert!(below(1.0f32.to_bits(), 2.0f32.to_bits()));
    assert!(below(NEG_INF, POS_INF));
    assert!(below(0x7f7f_ffff, POS_INF));
    assert!(below(0x0000_0001, 0x0080_0000));
    assert!(!below(NEG_ZERO, POS_ZERO));
    assert!(!below(POS_ZERO, NEG_ZERO));
    assert!(!below(1.0f32.to_bits(), 1.0f32.to_bits()));
    assert!(below(NEG_ZERO, 0x0000_0001));
    assert!(below(0x8000_0001, POS_ZERO));
}

#[test]
fn below_agrees_with_the_host() {
    let mut state = 7u64;
    for _ in 0..100_000 {
        let a = next(&mut state);
        let b = next(&mut state);
        if holds_nan(a) || holds_nan(b) {
            continue;
        }
        assert_eq!(below(a, b), f32::from_bits(a) < f32::from_bits(b), "{:#x} {:#x}", a, b);
    }
}

#[test]
fn max_and_min_of_numbers() {
    let one = 1.0f32.to_bits();
    let two = 2.0f32.to_bits();
    let minus = (-3.5f32).to_bits();
    assert_eq!(max(one, two), two);
    assert_eq!(max(two, one), two);
    assert_eq!(min(one, two), one);
    assert_eq!(min(two, one), one);
    assert_eq!(max(minus, one), one);
    assert_eq!(min(minus, one), minus);
    assert_eq!(max(NEG_INF, minus), minus);
    assert_eq!(min(POS_INF, two), two);
    assert_eq!(max(POS_INF, two), POS_INF);
    assert_eq!(min(NEG_INF, POS_INF), NEG_INF);
}

#[test]
fn max_of_zeros_is_positive_unless_both_are_negative() {
    assert_eq!(max(POS_ZERO, NEG_ZERO), POS_ZERO);
    assert_eq!(max(NEG_ZERO, POS_ZERO), POS_ZERO);
    assert_eq!(max(POS_ZERO, POS_ZERO), POS_ZERO);
    assert_eq!(max(NEG_ZERO, NEG_ZERO), NEG_ZERO);
}

#[test]
fn min_of_zeros_is_negative_unless_both_are_positive() {
    assert_eq!(min(POS_ZERO, NEG_ZERO), NEG_ZERO);
    assert_eq!(min(NEG_ZERO, POS_ZERO), NEG_ZERO);
    assert_eq!(min(NEG_ZERO, NEG_ZERO), NEG_ZERO);
    assert_eq!(min(POS_ZERO, POS_ZERO), POS_ZERO);
}

#[test]
fn a_quiet_nan_is_returned_as_it_is() {
    let one = 1.0f32.to_bits();
    assert_eq!(max(QUIET_NAN, one), QUIET_NAN);
    assert_eq!(max(one, QUIET_NAN), QUIET_NAN);
    assert_eq!(min(QUIET_NAN, one), QUIET_NAN);
    assert_eq!(min(one, QUIET_NAN), QUIET_NAN);
    assert_eq!(max(QUIET_NAN, POS_INF), QUIET_NAN);
    assert_eq!(min(NEG_INF, QUIET_NAN), QUIET_NAN);
}

#[test]
fn a_signaling_nan_is_returned_quiet() {
    let one = 1.0f32.to_bits();
    assert_eq!(max(SIGNALING_NAN, one), 0x7fc0_0456);
    assert_eq!(max(one, SIGNALING_NAN), 0x7fc0_0456);
    assert_eq!(min(NEG_SIGNALING_NAN, one), 0xffe0_0001);
    assert_eq!(min(one, NEG_SIGNALING_NAN), 0xffe0_0001);
}

#[test]
fn a_signaling_nan_goes_before_a_quiet_one() {
    assert_eq!(max(QUIET_NAN, SIGNALING_NAN), 0x7fc0_0456);
    assert_eq!(max(SIGNALING_NAN, QUIET_NAN), 0x7fc0_0456);
    assert_eq!(min(QUIET_NAN, SIGNALING_NAN), 0x7fc0_0456);
    assert_eq!(propagate_nan(QUIET_NAN, NEG_SIGNALING_NAN), 0xffe0_0001);
}

#[test]
fn of_two_nans_of_a_kind_the_first_is_returned() {
    assert_eq!(max(QUIET_NAN, 0xffc0_0000), QUIET_NAN);
    assert_eq!(max(0xffc0_0000, QUIET_NAN), 0xffc0_0000);
    assert_eq!(min(SIGNALING_NAN, NEG_SIGNALING_NAN), 0x7fc0_0456);
    assert_eq!(min(NEG_SIGNALING_NAN, SIGNALING_NAN), 0xffe0_0001);
}

#[test]
fn max_and_min_commute_on_sampled_numbers() {
    let mut state = 99u64;
    for _ in 0..100_000 {
        let a = next(&mut state);
        let b = next(&mut state);
        if holds_nan(a) || holds_nan(b) {
            continue;
        }
        assert_eq!(max(a, b), max(b, a));
        assert_eq!(min(a, b), min(b, a));
        let (x, y) = (f32::from_bits(a), f32::from_bits(b));
        if x != y {
            assert_eq!(max(a, b), x.max(y).to_bits());
            assert_eq!(min(a, b), x.min(y).to_bits());
        }
    }
}

#[test]
fn vector_max_and_min_are_lane_by_lane() {
    let x = f32x4::from_bits([1.0f32.to_bits(), NEG_ZERO, QUIET_NAN, (-7.0f32).to_bits()]);
    let y = f32x4::from_bits([2.0f32.to_bits(), POS_ZERO, 5.0f32.to_bits(), SIGNALING_NAN]);
    assert_eq!(f32x4_max(x, y).to_bits(), [2.0f32.to_bits(), POS_ZERO, QUIET_NAN, 0x7fc0_0456]);
    assert_eq!(f32x4_min(x, y).to_bits(), [1.0f32.to_bits(), NEG_ZERO, QUIET_NAN, 0x7fc0_0456]);
    assert_eq!(f32x4_max(y, x).to_bits(), f32x4_max(x, y).to_bits());
    assert_eq!(f32x4_min(y, x).to_bits(), f32x4_min(x, y).to_bits());
}

use simd_neon::aarch64::neon::common::{f32x4_approx_reciprocal, f32x4_approx_rsqrt};
use simd_neon::f32x4;
use simd_neon::ieee::estimate::{reciprocal_estimate, rsqrt_estimate};

fn next(state: &mut u64) -> u32 {
    *state = state.wrapping_mul(6364136223846793005).wrapping_add(1442695040888963407);
    (*state >> 32) as u32
}

#[test]
fn reciprocal_estimate_of_one_and_two() {
    assert_eq!(reciprocal_estimate(1.0f32.to_bits()), 0x3f7f_8000);
    assert_eq!(reciprocal_estimate(2.0f32.to_bits()), 0x3eff_8000);
    assert_eq!(reciprocal_estimate((-1.0f32).to_bits()), 0xbf7f_8000);
    assert_eq!(reciprocal_estimate(0.5f32.to_bits()), 0x3fff_8000);
}

#[test]
fn reciprocal_estimate_of_zero_is_infinity() {
    assert_eq!(reciprocal_estimate(0x0000_0000), 0x7f80_0000);
    assert_eq!(reciprocal_estimate(0x8000_0000), 0xff80_0000);
}

#[test]
fn reciprocal_estimate_of_infinity_is_zero() {
    assert_eq!(reciprocal_estimate(0x7f80_0000), 0x0000_0000);
    assert_eq!(reciprocal_estimate(0xff80_0000), 0x8000_0000);
}

#[test]
fn reciprocal_estimate_of_a_nan_is_that_nan_made_quiet() {
    assert_eq!(reciprocal_estimate(0x7fc0_0007), 0x7fc0_0007);
    assert_eq!(reciprocal_estimate(0x7f80_0007), 0x7fc0_0007);
    assert_eq!(reciprocal_estimate(0xff80_0007), 0xffc0_0007);
}

#[test]
fn reciprocal_estimate_of_a_tiny_number_is_infinity() {
    assert_eq!(reciprocal_estimate(0x0000_0001), 0x7f80_0000);
    assert_eq!(reciprocal_estimate(0x001f_ffff), 0x7f80_0000);
    assert_eq!(reciprocal_estimate(0x801f_ffff), 0xff80_0000);
}

#[test]
fn reciprocal_estimate_of_a_subnormal_number() {
    // 2^-128 and 2^-127: the results are just below 2^128 and 2^127.
    assert_eq!(reciprocal_estimate(0x0020_0000), 0x7f7f_8000);
    assert_eq!(reciprocal_estimate(0x0040_0000), 0x7eff_8000);
    assert_eq!(reciprocal_estimate(0x0060_0000), 0x7eaa_8000);
}

#[test]
fn reciprocal_estimate_of_a_huge_number_is_subnormal() {
    // 2^126 and 2^127.
    assert_eq!(reciprocal_estimate(0x7e80_0000), 0x007f_c000);
    assert_eq!(reciprocal_estimate(0x7f00_0000), 0x003f_e000);
    assert_eq!(reciprocal_estimate(0x7f7f_ffff), 0x0020_0000);
    assert_eq!(reciprocal_estimate(0x7e00_0000), 0x00ff_8000);
}

#[test]
fn reciprocal_estimate_is_within_two_to_the_minus_eight() {
    let mut state = 5u64;
    for _ in 0..100_000 {
        // Normal numbers whose reciprocal is normal.
        let bits = 0x0100_0000 + next(&mut state) % 0x7d00_0000;
        let x = f32::from_bits(bits) as f64;
        let estimate = f32::from_bits(reciprocal_estimate(bits)) as f64;
        let error = (estimate * x - 1.0).abs();
        assert!(error < 1.0 / 256.0, "bits {:#x} error {}", bits, error);
    }
}

#[test]
fn reciprocal_estimate_at_the_ends_of_a_binade() {
    // 256 steps of the operand give the estimates 511/256 down to 256/256.
    assert_eq!(reciprocal_estimate(0x3f80_0000), 0x3f7f_8000);
    assert_eq!(reciprocal_estimate(0x3f80_7fff), 0x3f7f_8000);
    assert_eq!(reciprocal_estimate(0x3f80_8000), 0x3f7e_8000);
    assert_eq!(reciprocal_estimate(0x3fc0_0000), 0x3f2a_8000);
    assert_eq!(reciprocal_estimate(0x3fff_8000), 0x3f00_0000);
    assert_eq!(reciprocal_estimate(0x3fff_ffff), 0x3f00_0000);
}

#[test]
fn rsqrt_estimate_at_the_ends_of_two_binades() {
    // From 1/4 to 1/2 the operand is read in 128 steps, from 1/2 to 1 too.
    assert_eq!(rsqrt_estimate(0x3e80_0000), 0x3fff_8000);
    assert_eq!(rsqrt_estimate(0x3e80_ffff), 0x3fff_8000);
    assert_eq!(rsqrt_estimate(0x3e81_0000), 0x3ffe_8000);
    assert_eq!(rsqrt_estimate(0x3eff_ffff), 0x3fb5_0000);
    assert_eq!(rsqrt_estimate(0x3f00_0000), 0x3fb4_8000);
    assert_eq!(rsqrt_estimate(0x3f00_ffff), 0x3fb4_8000);
    assert_eq!(rsqrt_estimate(0x3f7f_ffff), 0x3f80_0000);
}

#[test]
fn rsqrt_estimate_of_one_two_and_four() {
    assert_eq!(rsqrt_estimate(1.0f32.to_bits()), 0x3f7f_8000);
    assert_eq!(rsqrt_estimate(2.0f32.to_bits()), 0x3f34_8000);
    assert_eq!(rsqrt_estimate(4.0f32.to_bits()), 0x3eff_8000);
    assert_eq!(rsqrt_estimate(0.25f32.to_bits()), 0x3fff_8000);
}

#[test]
fn rsqrt_estimate_of_zero_is_infinity() {
    assert_eq!(rsqrt_estimate(0x0000_0000), 0x7f80_0000);
    assert_eq!(rsqrt_estimate(0x8000_0000), 0xff80_0000);
}

#[test]
fn rsqrt_estimate_of_a_negative_number_is_the_default_nan() {
    assert_eq!(rsqrt_estimate((-1.0f32).to_bits()), 0x7fc0_0000);
    assert_eq!(rsqrt_estimate(0x8000_0001), 0x7fc0_0000);
    assert_eq!(rsqrt_estimate(0xff80_0000), 0x7fc0_0000);
}

#[test]
fn rsqrt_estimate_of_infinity_is_zero() {
    assert_eq!(rsqrt_estimate(0x7f80_0000), 0x0000_0000);
}

#[test]
fn rsqrt_estimate_of_a_nan_is_that_nan_made_quiet() {
    assert_eq!(rsqrt_estimate(0x7fc0_0007), 0x7fc0_0007);
    assert_eq!(rsqrt_estimate(0x7f80_0007), 0x7fc0_0007);
    assert_eq!(rsqrt_estimate(0xffa0_0000), 0xffe0_0000);
}

#[test]
fn rsqrt_estimate_of_the_extreme_numbers() {
    // The smallest subnormal is 2^-149, the largest number just below 2^128.
    assert_eq!(rsqrt_estimate(0x0000_0001), 0x64b4_8000);
    assert_eq!(rsqrt_estimate(0x7f7f_ffff), 0x1f80_0000);
    assert_eq!(rsqrt_estimate(0x0080_0000), 0x5eff_8000);
    assert_eq!(rsqrt_estimate(0x0040_0000), 0x5f34_8000);
}

#[test]
fn rsqrt_estimate_is_within_two_to_the_minus_eight() {
    let mut state = 6u64;
    for _ in 0..100_000 {
        let bits = 1 + next(&mut state) % 0x7f7f_ffff;
        let x = f32::from_bits(bits) as f64;
        let estimate = f32::from_bits(rsqrt_estimate(bits)) as f64;
        let error = (estimate * x.sqrt() - 1.0).abs();
        assert!(error < 1.0 / 256.0, "bits {:#x} error {}", bits, error);
    }
}

#[test]
fn rsqrt_estimate_of_a_square_approximates_the_reciprocal() {
    for v in [1.0f32, -1.0, 3.0, -0.75, 1.0e-10, 123456.0, -6.5e12] {
        let r = f32x4_approx_rsqrt(f32x4::splat((v * v).to_bits()));
        for lane in r.to_bits() {
            let estimate = f32::from_bits(lane) as f64;
            let error = (estimate * (v.abs() as f64) - 1.0).abs();
            assert!(error < 1.0 / 256.0, "v {} error {}", v, error);
        }
    }
}

#[test]
fn vector_estimates_are_lane_by_lane() {
    let x = f32x4::from_bits([1.0f32.to_bits(), 4.0f32.to_bits(), 0, 0x7f80_0000]);
    assert_eq!(
        f32x4_approx_reciprocal(x).to_bits(),
        [0x3f7f_8000, 0x3e7f_8000, 0x7f80_0000, 0x0000_0000]
    );
    assert_eq!(
        f32x4_approx_rsqrt(x).to_bits(),
        [0x3f7f_8000, 0x3eff_8000, 0x7f80_0000, 0x0000_0000]
    );
}

use simd_neon::aarch64::neon::Aarch64F32x4;
use simd_neon::f32x4;
use simd_neon::ieee::convert::widen;

fn next(state: &mut u64) -> u32 {
    *state = state.wrapping_mul(6364136223846793005).wrapping_add(1442695040888963407);
    (*state >> 32) as u32
}

fn host(bits: u32) -> u64 {
    (f32::from_bits(bits) as f64).to_bits()
}

#[test]
fn widen_zeros_and_infinities() {
    assert_eq!(widen(0x0000_0000), 0x0000_0000_0000_0000);
    assert_eq!(widen(0x8000_0000), 0x8000_0000_0000_0000);
    assert_eq!(widen(0x7f80_0000), 0x7ff0_0000_0000_0000);
    assert_eq!(widen(0xff80_0000), 0xfff0_0000_0000_0000);
}

#[test]
fn widen_normal_numbers() {
    assert_eq!(widen(1.0f32.to_bits()), 1.0f64.to_bits());
    assert_eq!(widen((-2.5f32).to_bits()), (-2.5f64).to_bits());
    assert_eq!(widen(0x7f7f_ffff), 0x47ef_ffff_e000_0000);
    assert_eq!(widen(0x0080_0000), 0x3810_0000_0000_0000);
}

#[test]
fn widen_subnormal_numbers() {
    assert_eq!(widen(0x0000_0001), 0x36a0_0000_0000_0000);
    assert_eq!(widen(0x8000_0001), 0xb6a0_0000_0000_0000);
    assert_eq!(widen(0x0000_0003), 0x36b8_0000_0000_0000);
    assert_eq!(widen(0x007f_ffff), 0x380f_ffff_c000_0000);
    assert_eq!(widen(0x0040_0000), 0x3800_0000_0000_0000);
}

#[test]
fn widen_keeps_the_payload_of_a_nan_and_makes_it_quiet() {
    assert_eq!(widen(0x7fc0_0000), 0x7ff8_0000_0000_0000);
    assert_eq!(widen(0xffc0_0001), 0xfff8_0000_2000_0000);
    assert_eq!(widen(0x7f80_0001), 0x7ff8_0000_2000_0000);
    assert_eq!(widen(0x7fbf_ffff), 0x7fff_ffff_e000_0000);
    assert_eq!(widen(0xffff_ffff), 0xffff_ffff_e000_0000);
}

#[test]
fn widen_agrees_with_the_host_on_every_subnormal_leading_bit() {
    for k in 0..23 {
        for low in [0u32, 1, 0x2a_aaaa, 0x7f_ffff] {
            let bits = (1u32 << k) | (low & ((1u32 << k) - 1));
            assert_eq!(widen(bits), host(bits), "bits {:#x}", bits);
            assert_eq!(widen(bits | 0x8000_0000), host(bits | 0x8000_0000));
        }
    }
}

#[test]
fn widen_agrees_with_the_host_on_sampled_numbers() {
    let mut state = 2024u64;
    for _ in 0..200_000 {
        let bits = next(&mut state);
        if bits & 0x7fff_ffff > 0x7f80_0000 {
            continue;
        }
        assert_eq!(widen(bits), host(bits), "bits {:#x}", bits);
    }
}

#[test]
fn to_f64_widens_the_first_two_lanes_only() {
    let v = f32x4::from_bits([
        1.5f32.to_bits(),
        (-0.0f32).to_bits(),
        123.0f32.to_bits(),
        0x7fc0_0000,
    ]);
    assert_eq!(v.to_f64().to_bits(), [1.5f64.to_bits(), (-0.0f64).to_bits()]);
    let w = f32x4::from_bits([0x7f80_0000, 0x7f80_0001, 0, 0]);
    assert_eq!(w.to_f64().to_bits(), [0x7ff0_0000_0000_0000, 0x7ff8_0000_2000_0000]);
}

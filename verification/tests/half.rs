use tpt_visual::half::{f32_bits_to_f16, pack_lut_rgba16f};

fn h(v: f32) -> u16 {
    f32_bits_to_f16(v.to_bits())
}

#[test]
fn exact_halves_convert_exactly() {
    assert_eq!(h(0.0), 0x0000);
    assert_eq!(h(-0.0), 0x8000);
    assert_eq!(h(1.0), 0x3c00);
    assert_eq!(h(-2.0), 0xc000);
    assert_eq!(h(0.5), 0x3800);
    assert_eq!(h(16384.0), 0x7400);
    assert_eq!(h(2.0f32.powi(-14)), 0x0400);
}

#[test]
fn half_rounding_is_to_nearest_even() {
    // halfway between 1.0 and the next half: ties to the even 1.0
    assert_eq!(h(1.0 + 2.0f32.powi(-11)), 0x3c00);
    // halfway between 1+2^-10 and 1+2^-9: ties up to the even mantissa
    assert_eq!(h(1.0 + 3.0 * 2.0f32.powi(-11)), 0x3c02);
    assert_eq!(h(1.0 / 3.0), 0x3555);
    // mantissa carry into the exponent
    assert_eq!(h(2.0 - 2.0f32.powi(-12)), 0x4000);
}

#[test]
fn half_subnormals_and_underflow() {
    assert_eq!(h(2.0f32.powi(-24)), 0x0001);
    assert_eq!(h(3.0 * 2.0f32.powi(-24)), 0x0003);
    assert_eq!(h(2.0f32.powi(-25)), 0x0000);
    assert_eq!(h(-(2.0f32.powi(-30))), 0x8000);
}

#[test]
fn half_subnormal_ties_go_to_even() {
    // 2^-15 + 2^-25 lies halfway between the subnormals 0x200 and 0x201
    assert_eq!(f32_bits_to_f16(0x3800_2000), 0x0200);
    // 3 * 2^-25 lies halfway between 0x001 and 0x002: ties up to the even 0x002
    assert_eq!(h(3.0 * 2.0f32.powi(-25)), 0x0002);
    // 2^-25 lies halfway between 0 and 0x001: ties down to zero
    assert_eq!(h(2.0f32.powi(-25)), 0x0000);
}

#[test]
fn half_top_exponent_stays_finite() {
    assert_eq!(h(32768.0), 0x7800);
    assert_eq!(h(65504.0), 0x7bff);
    assert_eq!(h(-65504.0), 0xfbff);
    // 65520 lies halfway between 65504 and 65536: the tie carries into infinity
    assert_eq!(h(65520.0), 0x7c00);
    assert_eq!(h(65519.0), 0x7bff);
}

#[test]
fn half_saturates_beyond_the_half_range() {
    assert_eq!(h(65536.0), 0x7c00);
    assert_eq!(h(1.0e6), 0x7c00);
    assert_eq!(h(f32::INFINITY), 0x7c00);
    assert_eq!(h(f32::NEG_INFINITY), 0xfc00);
    assert_eq!(h(f32::NAN), 0x7c00);
    assert_eq!(h(1.0e10), 0x7c00);
}

#[test]
fn half_round_trip_of_normal_values() {
    for bits in [0x0000u16, 0x0400, 0x3c00, 0x3555, 0x7000, 0x77ff, 0x7800, 0x7bff, 0x8400, 0xbc01, 0xf7ff, 0xfbff] {
        let sign = if bits & 0x8000 != 0 { 0x8000_0000u32 } else { 0 };
        let e = ((bits >> 10) & 0x1f) as u32;
        let m = (bits & 0x3ff) as u32;
        let single = if e == 0 { sign } else { sign | ((e + 112) << 23) | (m << 13) };
        assert_eq!(f32_bits_to_f16(single), bits);
    }
}

#[test]
fn lut_texels_interleave_opaque_alpha() {
    let entries = vec![[0.0f32.to_bits(), 0.5f32.to_bits(), 1.0f32.to_bits()], [1.0f32.to_bits(); 3]];
    let texels = pack_lut_rgba16f(&entries);
    assert_eq!(texels, vec![0x0000, 0x3800, 0x3c00, 0x3c00, 0x3c00, 0x3c00, 0x3c00, 0x3c00]);
}

#[test]
fn half_round_trip_of_subnormal_values() {
    for m in [1u16, 2, 3, 0x155, 0x200, 0x3ff] {
        let value = f32::from(m) * 2.0f32.powi(-24);
        assert_eq!(h(value), m);
        assert_eq!(h(-value), 0x8000 | m);
    }
}

/// CPU reference of the blend formulas in the blend shader (per channel).
fn blend_channel(dst: f32, src: f32, mode: u32) -> f32 {
    match mode {
        1 => dst * src,
        2 => 1.0 - (1.0 - dst) * (1.0 - src),
        3 => {
            if dst > 0.5 {
                1.0 - 2.0 * (1.0 - dst) * (1.0 - src)
            } else {
                2.0 * dst * src
            }
        }
        4 => dst.min(src),
        5 => dst.max(src),
        6 => {
            if src > 0.5 {
                1.0 - 2.0 * (1.0 - src) * (1.0 - dst)
            } else {
                2.0 * src * dst
            }
        }
        7 => (dst - src).abs(),
        8 => dst + src - 2.0 * dst * src,
        _ => src,
    }
}

#[test]
fn blend_formula_reference_values() {
    // Spot-check the CPU reference against hand-computed values.
    assert!((blend_channel(0.2, 0.6, 3) - 0.24).abs() < 1e-6); // overlay dark
    assert!((blend_channel(0.8, 0.6, 3) - 0.84).abs() < 1e-6); // overlay light
    assert!((blend_channel(0.8, 0.2, 6) - 0.32).abs() < 1e-6); // hard light dark src
    assert!((blend_channel(0.8, 0.6, 6) - 0.84).abs() < 1e-6); // hard light light src
    assert!((blend_channel(0.8, 0.6, 1) - 0.48).abs() < 1e-6); // multiply
    assert!((blend_channel(0.2, 0.6, 2) - 0.68).abs() < 1e-6); // screen
    assert!((blend_channel(0.8, 0.6, 7) - 0.2).abs() < 1e-6); // difference
}

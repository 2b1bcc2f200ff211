use quadoctree::float_bits::{add_bits, div_bits, le_bits, lt_bits, max_bits, min_bits, mul_bits,
    sub_bits, usize_to_bits};

fn fb(x: f32) -> u32 {
    x.to_bits()
}

#[test]
fn arithmetic_matches_single_precision() {
    assert_eq!(add_bits(fb(1.0), fb(2.0)), fb(3.0));
    assert_eq!(add_bits(fb(0.1), fb(0.2)), fb(0.1f32 + 0.2f32));
    assert_eq!(sub_bits(fb(1.0), fb(2.5)), fb(-1.5));
    assert_eq!(mul_bits(fb(3.0), fb(-2.0)), fb(-6.0));
    assert_eq!(mul_bits(fb(0.1), fb(0.3)), fb(0.1f32 * 0.3f32));
    assert_eq!(div_bits(fb(1.0), fb(3.0)), fb(1.0f32 / 3.0f32));
    assert_eq!(div_bits(fb(1.0), fb(0.0)), fb(f32::INFINITY));
}

#[test]
fn usize_conversion_rounds_to_nearest() {
    assert_eq!(usize_to_bits(0), fb(0.0));
    assert_eq!(usize_to_bits(24), fb(24.0));
    // Large counts are rounded exactly as a hardware cast rounds them.
    assert_eq!(usize_to_bits(16_777_217), fb(16_777_217usize as f32));
}

#[test]
fn ordering_matches_single_precision() {
    assert!(lt_bits(fb(-1.0), fb(0.5)));
    assert!(!lt_bits(fb(0.5), fb(0.5)));
    assert!(lt_bits(fb(-2.0), fb(-1.0)));
    assert!(!lt_bits(fb(-1.0), fb(-2.0)));
    assert!(le_bits(fb(0.5), fb(0.5)));
    // The two zeros are equal in the ordering though their bits differ.
    assert!(!lt_bits(fb(-0.0), fb(0.0)));
    assert!(!lt_bits(fb(0.0), fb(-0.0)));
    assert!(le_bits(fb(-0.0), fb(0.0)));
    // NaN is unordered against everything, itself included.
    let nan = fb(f32::NAN);
    assert!(!lt_bits(nan, fb(1.0)));
    assert!(!lt_bits(fb(1.0), nan));
    assert!(!le_bits(nan, nan));
}

#[test]
fn min_max_lose_the_nan_argument() {
    assert_eq!(min_bits(fb(1.0), fb(2.0)), fb(1.0));
    assert_eq!(max_bits(fb(1.0), fb(2.0)), fb(2.0));
    let nan = fb(f32::NAN);
    assert_eq!(min_bits(nan, fb(2.0)), fb(2.0));
    assert_eq!(min_bits(fb(2.0), nan), fb(2.0));
    assert_eq!(max_bits(nan, fb(-3.0)), fb(-3.0));
}

#[test]
fn vector_ops_match_single_precision() {
    let a = [fb(1.0), fb(2.0), fb(3.0)];
    let b = [fb(-4.0), fb(0.5), fb(2.0)];
    let dot = quadoctree::math::dot_product(&a, &b);
    assert_eq!(dot, fb(1.0f32 * -4.0 + 2.0 * 0.5 + 3.0 * 2.0));
    let cross = quadoctree::math::cross_product(&a, &b);
    assert_eq!(cross, [fb(2.0 * 2.0 - 3.0 * 0.5), fb(3.0 * -4.0 - 1.0 * 2.0), fb(
        1.0 * 0.5 - 2.0 * -4.0,
    )]);
    let sum = quadoctree::math::add_vector(&a, &b, fb(2.0));
    assert_eq!(sum, [fb(1.0 + -4.0 * 2.0), fb(2.0 + 0.5 * 2.0), fb(3.0 + 2.0 * 2.0)]);
    let scaled = quadoctree::math::mult_vector(&b, fb(-1.0));
    assert_eq!(scaled, [fb(4.0), fb(-0.5), fb(-2.0)]);
}

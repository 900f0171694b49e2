use d2min::bits::{f32_bits_lt, DEFAULT_CUTOFF_SQ_BITS, NEG_ZERO_BITS, ONE_BITS};

#[test]
fn named_constants_hold_their_values() {
    assert_eq!(f32::from_bits(NEG_ZERO_BITS), 0.0);
    assert!(f32::from_bits(NEG_ZERO_BITS).is_sign_negative());
    assert_eq!(f32::from_bits(ONE_BITS), 1.0);
    assert_eq!(f32::from_bits(DEFAULT_CUTOFF_SQ_BITS), 10.0);
}

#[test]
fn bit_comparison_matches_ieee_order() {
    let samples = [
        0.0f32,
        -0.0,
        1.0,
        -1.0,
        10.0,
        9.999999,
        f32::MIN_POSITIVE,
        -f32::MIN_POSITIVE,
        f32::INFINITY,
        f32::NEG_INFINITY,
        f32::MAX,
        f32::MIN,
        f32::NAN,
        1.5e-42, // subnormal
    ];
    for &a in &samples {
        for &b in &samples {
            assert_eq!(
                f32_bits_lt(a.to_bits(), b.to_bits()),
                a < b,
                "{a} < {b}"
            );
        }
    }
}

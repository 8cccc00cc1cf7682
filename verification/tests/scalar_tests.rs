use rusttracing::scalar::{isqrt_u128, Scalar, SCALE};

fn s(raw: i64) -> Scalar {
    Scalar::new(raw)
}

#[test]
fn scale_is_one_million() {
    assert_eq!(SCALE, 1_000_000);
    assert_eq!(Scalar::one().raw, 1_000_000);
    assert_eq!(Scalar::zero().raw, 0);
    assert_eq!(Scalar::max_value().raw, i64::MAX);
}

#[test]
fn from_int_scales_and_clamps() {
    assert_eq!(Scalar::from_int(3), s(3_000_000));
    assert_eq!(Scalar::from_int(-7), s(-7_000_000));
    assert_eq!(Scalar::from_int(i64::MAX), s(i64::MAX));
    assert_eq!(Scalar::from_int(i64::MIN), s(i64::MIN));
}

#[test]
fn addition_and_subtraction_saturate() {
    assert_eq!(s(1_500_000) + s(2_250_000), s(3_750_000));
    assert_eq!(s(1_500_000) - s(2_250_000), s(-750_000));
    assert_eq!(s(i64::MAX) + s(1), s(i64::MAX));
    assert_eq!(s(i64::MIN) - s(1), s(i64::MIN));
    assert_eq!(s(i64::MIN) + s(i64::MAX), s(-1));
}

#[test]
fn negation_saturates_at_the_most_negative_value() {
    assert_eq!(-s(2_000_000), s(-2_000_000));
    assert_eq!(-s(i64::MIN), s(i64::MAX));
    assert_eq!(s(-5).abs(), s(5));
    assert_eq!(s(i64::MIN).abs(), s(i64::MAX));
    assert_eq!(s(7).abs(), s(7));
}

#[test]
fn multiplication_rounds_toward_zero() {
    assert_eq!(s(1_500_000) * s(2_000_000), s(3_000_000));
    assert_eq!(s(1_500_000) * s(-2_000_000), s(-3_000_000));
    // 0.000001 * 0.5 = 0.0000005, which rounds to zero from either side.
    assert_eq!(s(1) * s(500_000), s(0));
    assert_eq!(s(-1) * s(500_000), s(0));
    // 0.000003 * 0.5 = 0.0000015 rounds to 0.000001 in magnitude.
    assert_eq!(s(3) * s(500_000), s(1));
    assert_eq!(s(-3) * s(500_000), s(-1));
}

#[test]
fn multiplication_saturates() {
    assert_eq!(s(i64::MAX) * s(2_000_000), s(i64::MAX));
    assert_eq!(s(i64::MAX) * s(-2_000_000), s(i64::MIN));
    assert_eq!(s(i64::MIN) * s(i64::MIN), s(i64::MAX));
}

#[test]
fn division_rounds_toward_zero() {
    assert_eq!(s(1_000_000) / s(3_000_000), s(333_333));
    assert_eq!(s(-1_000_000) / s(3_000_000), s(-333_333));
    assert_eq!(s(1_000_000) / s(-3_000_000), s(-333_333));
    assert_eq!(s(-1_000_000) / s(-3_000_000), s(333_333));
    assert_eq!(s(16_000_000) / s(9_000_000), s(1_777_777));
}

#[test]
fn division_saturates() {
    assert_eq!(s(i64::MAX) / s(1), s(i64::MAX));
    assert_eq!(s(i64::MIN) / s(1), s(i64::MIN));
    assert_eq!(s(i64::MIN) / s(-1), s(i64::MAX));
}

#[test]
fn square_root_rounds_down() {
    assert_eq!(s(4_000_000).sqrt(), s(2_000_000));
    assert_eq!(s(2_000_000).sqrt(), s(1_414_213));
    assert_eq!(s(250_000).sqrt(), s(500_000));
    assert_eq!(s(0).sqrt(), s(0));
    assert_eq!(s(1).sqrt(), s(1_000));
    assert_eq!(s(i64::MAX).sqrt(), s(3_037_000_499_976));
}

#[test]
fn integer_square_root_is_the_floor() {
    assert_eq!(isqrt_u128(0), 0);
    assert_eq!(isqrt_u128(1), 1);
    assert_eq!(isqrt_u128(3), 1);
    assert_eq!(isqrt_u128(4), 2);
    assert_eq!(isqrt_u128(99), 9);
    assert_eq!(isqrt_u128(100), 10);
    assert_eq!(isqrt_u128(u128::MAX), u64::MAX);
    for n in 0u128..2000 {
        let r = isqrt_u128(n) as u128;
        assert!(r * r <= n && n < (r + 1) * (r + 1));
    }
}

#[test]
fn minimum_picks_the_smaller() {
    assert_eq!(s(3).min(s(5)), s(3));
    assert_eq!(s(5).min(s(3)), s(3));
    assert_eq!(s(-5).min(s(3)), s(-5));
}

use orbiter::fixmath::cos_fixed;
use orbiter::fixmath::icbrt_u128;
use orbiter::fixmath::isqrt;
use orbiter::fixmath::normalize_angle;
use orbiter::fixmath::sin_fixed;
use orbiter::fixmath::HALF_PI;
use orbiter::fixmath::PI;
use orbiter::fixmath::SCALE;
use orbiter::fixmath::TWO_PI;

#[test]
fn angle_normalization() {
    assert_eq!(normalize_angle(0), 0);
    assert_eq!(normalize_angle(TWO_PI), 0);
    assert_eq!(normalize_angle(-1), TWO_PI - 1);
    assert_eq!(normalize_angle(-TWO_PI - 5), TWO_PI - 5);
    assert_eq!(normalize_angle(3 * TWO_PI + 7), 7);
}

#[test]
fn sine_and_cosine_landmarks() {
    assert_eq!(sin_fixed(0), 0);
    assert_eq!(sin_fixed(HALF_PI), SCALE);
    assert_eq!(sin_fixed(PI), 0);
    assert_eq!(cos_fixed(0), SCALE);
    assert_eq!(sin_fixed(1_234_567), 944_006);
    // Just past pi the sine goes negative.
    assert_eq!(sin_fixed(PI + 1), -1);
}

#[test]
fn integer_roots() {
    assert_eq!(isqrt(0), 0);
    assert_eq!(isqrt(24), 4);
    assert_eq!(isqrt(25), 5);
    assert_eq!(isqrt(i64::MAX), 3_037_000_499);
    assert_eq!(icbrt_u128(0), 0);
    assert_eq!(icbrt_u128(26), 2);
    assert_eq!(icbrt_u128(27), 3);
    assert_eq!(icbrt_u128(1_000_000_000_000_000_000), 1_000_000);
}

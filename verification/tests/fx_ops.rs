use whitted::fx::{fx_div, fx_mul, fx_pow, fx_sqrt, HALF_SCALE, SCALE};

#[test]
fn fx_mul_exact() {
    // 3.5 * 2.0 == 7.0
    assert_eq!(fx_mul(229376, 131072), 458752);
    // 1.0 * x == x
    assert_eq!(fx_mul(SCALE, 12345), 12345);
    assert_eq!(fx_mul(0, 987654321), 0);
}

#[test]
fn fx_mul_rounds_toward_zero() {
    // (3/65536) * (3/65536) is far below one step: it rounds to 0, and so
    // does its negation (toward zero, not toward minus infinity).
    assert_eq!(fx_mul(3, 3), 0);
    assert_eq!(fx_mul(-3, 3), 0);
    // -1.5 * 1.0 stays exact.
    assert_eq!(fx_mul(-98304, SCALE), -98304);
}

#[test]
fn fx_div_exact() {
    // 7.0 / 2.0 == 3.5
    assert_eq!(fx_div(458752, 131072), 229376);
    // (-1.0) / 3.0 rounds toward zero.
    assert_eq!(fx_div(-SCALE, 3 * SCALE), -21845);
    assert_eq!(fx_div(SCALE, 3 * SCALE), 21845);
}

#[test]
fn fx_sqrt_examples() {
    assert_eq!(fx_sqrt(0), 0);
    assert_eq!(fx_sqrt(1), 1);
    assert_eq!(fx_sqrt(10), 3);
    assert_eq!(fx_sqrt(16), 4);
    assert_eq!(fx_sqrt((SCALE as u128) * (SCALE as u128)), SCALE as u64);
}

#[test]
fn fx_pow_examples() {
    // Anything to the zeroth power is 1.0, including 0.
    assert_eq!(fx_pow(0, 0), SCALE);
    assert_eq!(fx_pow(-SCALE, 0), SCALE);
    // (-1.0)^3 == -1.0; (-1.0)^2 == 1.0
    assert_eq!(fx_pow(-SCALE, 3), -SCALE);
    assert_eq!(fx_pow(-SCALE, 2), SCALE);
    // 0.5^2 == 0.25
    assert_eq!(fx_pow(HALF_SCALE, 2), 16384);
    // A large Phong exponent drives a proper fraction to zero.
    assert_eq!(fx_pow(HALF_SCALE, 40), 0);
}

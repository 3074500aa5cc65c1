use lumen2d::fx::{ONE, PI_FX, HALF_PI_FX, LN2_FX, div_s, fmul, isqrt_i64, sin_fx, cos_fx,
    exp_neg};
use lumen2d::vec2::Vec2;

#[test]
fn division_truncates_toward_zero() {
    assert_eq!(div_s(7, 2), 3);
    assert_eq!(div_s(-7, 2), -3);
    assert_eq!(div_s(0, 5), 0);
}

#[test]
fn fixed_point_products() {
    assert_eq!(fmul(3 * ONE / 2, 2 * ONE), 3 * ONE);
    assert_eq!(fmul(ONE, ONE), ONE);
    assert_eq!(fmul(-98_304, 32_768), -49_152);
    assert_eq!(fmul(ONE - 1, 1), 0);
}

#[test]
fn integer_square_roots() {
    assert_eq!(isqrt_i64(0), 0);
    assert_eq!(isqrt_i64(1), 1);
    assert_eq!(isqrt_i64(3), 1);
    assert_eq!(isqrt_i64(4), 2);
    assert_eq!(isqrt_i64(ONE * ONE), ONE);
    assert_eq!(isqrt_i64(ONE * ONE - 1), ONE - 1);
}

#[test]
fn sine_and_cosine_landmarks() {
    assert_eq!(sin_fx(0), 0);
    assert_eq!(sin_fx(HALF_PI_FX), ONE - 1);
    assert_eq!(sin_fx(PI_FX), 0);
    assert_eq!(sin_fx(PI_FX + HALF_PI_FX), -(ONE - 1));
    assert_eq!(cos_fx(0), ONE - 1);
    assert_eq!(cos_fx(PI_FX), -(ONE - 1));
    // sin(pi/6) is one half, up to an ulp.
    assert_eq!(sin_fx(PI_FX / 6), ONE / 2 - 1);
}

#[test]
fn decaying_exponential_landmarks() {
    assert_eq!(exp_neg(0), ONE);
    assert_eq!(exp_neg(LN2_FX), ONE / 2);
    assert_eq!(exp_neg(ONE), 24_098);
    assert_eq!(exp_neg(40 * LN2_FX), 0);
}

#[test]
fn normalize_scales_to_unit_length() {
    let r = Vec2 { x: 30_000, y: 40_000 }.normalize();
    assert_eq!(r, Vec2 { x: 39_321, y: 52_428 });
    let axis = Vec2 { x: -12_345, y: 0 }.normalize();
    assert_eq!(axis, Vec2 { x: -ONE, y: 0 });
    // The zero vector has no direction and defaults to the x-axis.
    let z = Vec2 { x: 0, y: 0 }.normalize();
    assert_eq!(z, Vec2 { x: ONE, y: 0 });
}

#[test]
fn vector_products_are_exact() {
    let a = Vec2 { x: 3, y: -4 };
    let b = Vec2 { x: 5, y: 7 };
    assert_eq!(a.dot(b), 3 * 5 + (-4) * 7);
    assert_eq!(a.cross(b), 3 * 7 - (-4) * 5);
    assert_eq!(a.norm_sq(), 25);
    assert_eq!(a.dist_sq(b), 4 + 121);
}

use fixed_trigonometry::atan::{atan, atan2};
use fixed_trigonometry::complex::{
    add, div_cartesian, mul_cartesian, mul_polar, sub, to_cartsian, to_polar, Complex, Polar,
};
use fixed_trigonometry::scalar::Scalar;
use fixed_trigonometry::sqrt::niirf;
use fixed_trigonometry::{cos, powi, sign, sin, wrap_phase};

fn val(s: Scalar) -> f64 {
    s.bits as f64 / (1u64 << s.frac) as f64
}

fn fx(v: f64, frac: u32) -> Scalar {
    let scale = (1u64 << frac) as f64;
    Scalar::from_bits((v * scale).floor() as i32, frac)
}

fn close(a: f64, b: f64, eps: f64) -> bool {
    (a - b).abs() <= eps
}

#[test]
fn powi_squares_and_unit_power() {
    let x = Scalar::from_int(-2, 22);
    let y = powi(x, 2);
    assert_eq!(val(y), 4.0);

    let y0 = powi(x, 0);
    assert_eq!(val(y0), 1.0);

    let c = fx(0.5, 22);
    assert!(close(val(powi(c, 3)), 0.125, 1e-5));
}

#[test]
fn sign_is_a_unit_value() {
    let x = fx(-0.2, 22);
    assert_eq!(val(sign(x)), -1.0);

    let y = fx(0.2, 22);
    assert_eq!(val(sign(y)), 1.0);

    let z = Scalar::from_int(0, 22);
    assert_eq!(val(sign(z)), 1.0);
}

#[test]
fn wrap_phase_into_half_open_turn() {
    let phi = Scalar::from_int(6, 22);
    let wrapped = wrap_phase(phi);
    assert!(close(val(wrapped), -0.2831853, 1e-4));

    let inside = fx(1.5, 22);
    assert_eq!(wrap_phase(inside), inside);

    let neg = fx(-4.0, 22);
    assert!(close(val(wrap_phase(neg)), -4.0 + 2.0 * std::f64::consts::PI, 1e-4));
}

#[test]
fn sine_matches_reference() {
    let frac = 22u32;
    assert_eq!(sin(Scalar::from_int(0, frac)).bits, 0);
    assert!(close(val(sin(fx(std::f64::consts::FRAC_PI_2, frac))), 1.0, 1e-3));
    assert!(close(val(sin(fx(3.1415, frac))), 0.0, 1e-3));
    assert!(close(val(sin(fx(0.7, frac))), 0.7f64.sin(), 1e-3));
    assert!(close(val(sin(fx(-2.1, frac))), (-2.1f64).sin(), 1e-3));
}

#[test]
fn cosine_matches_reference() {
    let frac = 18u32;
    assert!(close(val(cos(Scalar::from_int(0, frac))), 1.0, 1e-3));
    assert!(close(val(cos(fx(std::f64::consts::FRAC_PI_2, frac))), 0.0, 1e-3));
    assert!(close(val(cos(fx(2.5, frac))), 2.5f64.cos(), 1e-3));
}

#[test]
fn atan2_octants_match_reference() {
    let frac = 28u32;
    let a = atan2(fx(0.6, frac), fx(0.4, frac));
    assert!(close(val(a), 0.6f64.atan2(0.4), 1e-2));

    assert_eq!(atan2(Scalar::from_int(0, frac), fx(0.4, frac)).bits, 0);
    let pi = atan2(Scalar::from_int(0, frac), fx(-0.4, frac));
    assert!(close(val(pi), std::f64::consts::PI, 1e-6));

    let down = atan2(fx(-0.5, frac), Scalar::from_int(0, frac));
    assert!(close(val(down), -std::f64::consts::FRAC_PI_2, 1e-6));

    let third = atan2(fx(0.7, frac), fx(-0.3, frac));
    assert!(close(val(third), 0.7f64.atan2(-0.3), 1e-2));

    let eighth = atan2(fx(-0.3, frac), fx(-0.7, frac));
    assert!(close(val(eighth), (-0.3f64).atan2(-0.7), 1e-2));
}

#[test]
fn atan_of_ratio() {
    let frac = 24u32;
    let arg = atan(fx(1.5, frac));
    assert!(close(val(arg), 1.5f64.atan(), 1e-2));
}

#[test]
fn niirf_square_roots() {
    let frac = 28u32;
    assert!(close(val(niirf(fx(0.23, frac), 2)), 0.23f64.sqrt(), 1e-3));
    assert!(close(val(niirf(fx(1.6, frac), 2)), 1.6f64.sqrt(), 1e-3));
    assert_eq!(niirf(Scalar::from_int(0, frac), 2).bits, 0);
    assert!(close(val(niirf(fx(0.5, 20), 2)), 0.5f64.sqrt(), 1e-3));
}

#[test]
fn complex_cartesian_algebra() {
    let frac = 22u32;
    let a = Complex { re: fx(0.5, frac), im: fx(0.25, frac) };
    let b = Complex { re: fx(-0.125, frac), im: fx(0.75, frac) };

    let s = add(a, b);
    assert!(close(val(s.re), 0.375, 1e-6));
    assert!(close(val(s.im), 1.0, 1e-6));

    let d = sub(a, b);
    assert!(close(val(d.re), 0.625, 1e-6));
    assert!(close(val(d.im), -0.5, 1e-6));

    let p = mul_cartesian(a, b);
    // (0.5 + 0.25i)(-0.125 + 0.75i) = -0.25 + 0.34375i
    assert!(close(val(p.re), -0.25, 1e-5));
    assert!(close(val(p.im), 0.34375, 1e-5));

    let q = div_cartesian(a, fx(0.5, frac));
    assert!(close(val(q.re), 1.0, 1e-5));
    assert!(close(val(q.im), 0.5, 1e-5));
}

#[test]
fn divide_by_zero_saturates_to_max() {
    let frac = 22u32;
    let a = Complex { re: fx(0.5, frac), im: fx(-0.25, frac) };
    let q = div_cartesian(a, Scalar::from_int(0, frac));
    assert_eq!(q.re.bits, i32::MAX);
    assert_eq!(q.im.bits, i32::MAX);
}

#[test]
fn polar_product_and_zero_magnitude() {
    let frac = 22u32;
    let a = Polar { r: fx(0.5, frac), theta: fx(0.3, frac) };
    let b = Polar { r: fx(0.25, frac), theta: fx(-0.1, frac) };
    let c = mul_polar(a, b);
    assert!(close(val(c.r), 0.125, 1e-5));
    assert!(close(val(c.theta), 0.2, 1e-5));

    let z = Polar { r: Scalar::from_int(0, frac), theta: fx(0.3, frac) };
    let zc = mul_polar(a, z);
    assert_eq!(zc.r.bits, 0);
    assert_eq!(zc.theta.bits, 0);
}

#[test]
fn polar_cartesian_round_trip() {
    let frac = 22u32;
    let x = Complex { re: fx(0.6, frac), im: fx(0.45, frac) };
    let p = to_polar(x);
    assert!(close(val(p.r), (0.6f64 * 0.6 + 0.45 * 0.45).sqrt(), 1e-3));
    assert!(close(val(p.theta), 0.45f64.atan2(0.6), 1e-2));

    let back = to_cartsian(p);
    assert!(close(val(back.re), 0.6, 2e-2));
    assert!(close(val(back.im), 0.45, 2e-2));
}

#[test]
fn complex_power_through_polar_form() {
    let frac = 22u32;
    let x = Complex { re: Scalar::from_int(1, frac), im: Scalar::from_int(1, frac) };
    let y = fixed_trigonometry::complex::powi(x, 2);
    // (1 + i)^2 = 2i, through fixed-point magnitude and phase estimates.
    assert!(close(val(y.re), 0.0, 5e-2));
    assert!(close(val(y.im), 2.0, 5e-2));
}

#[test]
fn scalar_arithmetic_rounds_toward_negative_infinity() {
    let frac = 8u32;
    let a = Scalar::from_bits(-3, frac);
    let half = fx(0.5, frac);
    // -3/256 * 1/2 floors to -2/256.
    assert_eq!(a.mul(half).bits, -2);
    let b = Scalar::from_bits(3, frac);
    assert_eq!(b.mul(half).bits, 1);
    assert_eq!(a.shr(1).bits, -2);
    assert_eq!(b.shr(1).bits, 1);
}

//! Sweep comparisons of the polynomial approximations against the
//! double-precision reference, asserting the error bounds the plots of a
//! comparison harness would show.

use fixed_trigonometry::atan::{atan, atan2};
use fixed_trigonometry::scalar::Scalar;
use fixed_trigonometry::sqrt::niirf;
use fixed_trigonometry::{cos, sin};

fn val(s: Scalar) -> f64 {
    s.bits as f64 / (1u64 << s.frac) as f64
}

fn fx(v: f64, frac: u32) -> Scalar {
    let scale = (1u64 << frac) as f64;
    Scalar::from_bits((v * scale).floor() as i32, frac)
}

#[test]
fn atan2_comparison() {
    // atan2( Im{e^(i theta)}, Re{e^(i theta)} ) against the reference,
    // over a full turn.
    let frac = 28u32;
    for k in -500i32..=500 {
        let theta = k as f64 * std::f64::consts::PI / 500.0;
        let y = fx(theta.sin(), frac);
        let x = fx(theta.cos(), frac);
        let got = val(atan2(y, x));
        let want = val(y).atan2(val(x));
        assert!((got - want).abs() < 1e-2, "theta {}: {} vs {}", theta, got, want);
    }
}

#[test]
fn atan_comparison() {
    // atan(x) against the reference over a wide argument range.
    let frac = 24u32;
    for k in -300i32..=300 {
        let x = k as f64 / 100.0;
        let got = val(atan(fx(x, frac)));
        let want = val(fx(x, frac)).atan();
        assert!((got - want).abs() < 1e-2, "x {}: {} vs {}", x, got, want);
    }
}

#[test]
fn atan_error_comparison() {
    // The arctangent's worst error over the primary octant: about 0.28
    // degrees for this octant polynomial.
    let frac = 28u32;
    let mut worst: f64 = 0.0;
    for k in 0i32..=100 {
        let x = k as f64 / 100.0;
        let got = val(atan(fx(x, frac)));
        let want = val(fx(x, frac)).atan();
        let err = (got - want).abs();
        if err > worst {
            worst = err;
        }
    }
    assert!(worst < 6e-3, "worst atan error {}", worst);
}

#[test]
fn compare_polynomial_cosine() {
    let frac = 20u32;
    for k in -500i32..=500 {
        let x = k as f64 * std::f64::consts::PI / 500.0;
        let got = val(cos(fx(x, frac)));
        let want = val(fx(x, frac)).cos();
        assert!((got - want).abs() < 2e-3, "x {}: {} vs {}", x, got, want);
    }
}

#[test]
fn cos_comparison_poly_vs_cordic_error() {
    // The cosine's absolute error over a full turn, at the precision the
    // error plots used.
    let frac = 22u32;
    let mut worst: f64 = 0.0;
    for k in -500i32..=500 {
        let x = k as f64 * std::f64::consts::PI / 500.0;
        let err = (val(cos(fx(x, frac))) - val(fx(x, frac)).cos()).abs();
        if err > worst {
            worst = err;
        }
    }
    assert!(worst < 1e-3, "worst cos error {}", worst);
}

#[test]
fn compare_polynomial_sine() {
    let frac = 20u32;
    for k in -500i32..=500 {
        let x = k as f64 * std::f64::consts::PI / 500.0;
        let got = val(sin(fx(x, frac)));
        let want = val(fx(x, frac)).sin();
        assert!((got - want).abs() < 2e-3, "x {}: {} vs {}", x, got, want);
    }
}

#[test]
fn sin_comparison_poly_vs_cordic_error() {
    // The sine's absolute error over a full turn, at the precision the
    // error plots used.
    let frac = 22u32;
    let mut worst: f64 = 0.0;
    for k in -500i32..=500 {
        let x = k as f64 * std::f64::consts::PI / 500.0;
        let err = (val(sin(fx(x, frac))) - val(fx(x, frac)).sin()).abs();
        if err > worst {
            worst = err;
        }
    }
    assert!(worst < 1e-3, "worst sin error {}", worst);
}

#[test]
fn compare_error_sqrt() {
    // The NIIRF square root with two iterations over (0, 1], against the
    // reference.
    let frac = 24u32;
    for k in 1i32..=100 {
        let x = k as f64 / 100.0;
        let got = val(niirf(fx(x, frac), 2));
        let want = val(fx(x, frac)).sqrt();
        assert!((got - want).abs() < 2e-3, "x {}: {} vs {}", x, got, want);
    }
}

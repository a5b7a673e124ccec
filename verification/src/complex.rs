//! Complex fixed-point algebra in cartesian and polar form.
//!
//! A [`Complex`] pairs two [`Scalar`]s of one format.  The cartesian
//! operations are exact over the scalar model; division by a zero scalar
//! saturates both components to the format's largest value instead of
//! failing.

use vstd::prelude::*;

verus! {

use crate::scalar::Scalar;
use crate::scalar::ScalarV;
use crate::scalar::scalar_add;
use crate::scalar::scalar_sub;
use crate::scalar::scalar_mul;
use crate::scalar::scalar_div;
use crate::scalar::scalar_max;
use crate::scalar::scalar_from_int;
use crate::spec_powi;
use crate::spec_sin;
use crate::spec_cos;
use crate::spec_wrap_phase;
use crate::sqrt::spec_niirf;
use crate::sqrt::niirf_defined;
use crate::atan::spec_atan2;
use crate::atan::atan2_defined;

/// A complex number in cartesian form: real and imaginary part share one
/// fixed-point format.
#[derive(Clone, Copy, PartialEq, Eq, Structural, Debug)]
pub struct Complex {
    pub re: Scalar,
    pub im: Scalar,
}

/// Mathematical model of a cartesian complex number.
pub ghost struct ComplexV {
    pub re: ScalarV,
    pub im: ScalarV,
}

impl View for Complex {
    type V = ComplexV;

    open spec fn view(&self) -> ComplexV {
        ComplexV { re: self.re@, im: self.im@ }
    }
}

impl ComplexV {
    /// Both parts well formed, in one shared format `f`.
    pub open spec fn wf(self, f: nat) -> bool {
        self.re.wf() && self.im.wf() && self.re.frac == f && self.im.frac == f
    }
}

/// Model of complex addition: componentwise wrapping addition.
pub open spec fn complex_add(a: ComplexV, b: ComplexV) -> ComplexV {
    ComplexV { re: scalar_add(a.re, b.re), im: scalar_add(a.im, b.im) }
}

/// Model of complex subtraction: componentwise wrapping subtraction.
pub open spec fn complex_sub(a: ComplexV, b: ComplexV) -> ComplexV {
    ComplexV { re: scalar_sub(a.re, b.re), im: scalar_sub(a.im, b.im) }
}

/// Model of the cartesian complex product:
/// `(a + bi)(c + di) = (ac - bd) + (ad + bc)i`.
pub open spec fn complex_mul(x: ComplexV, y: ComplexV) -> ComplexV {
    ComplexV {
        re: scalar_sub(scalar_mul(x.re, y.re), scalar_mul(x.im, y.im)),
        im: scalar_add(scalar_mul(x.re, y.im), scalar_mul(x.im, y.re)),
    }
}

/// Model of dividing a complex by a real scalar; a zero divisor saturates
/// both components to the format's largest value.
pub open spec fn complex_div_scalar(a: ComplexV, b: ScalarV) -> ComplexV {
    if b.bits == 0 {
        ComplexV { re: scalar_max(a.re.frac), im: scalar_max(a.im.frac) }
    } else {
        ComplexV { re: scalar_div(a.re, b), im: scalar_div(a.im, b) }
    }
}

/// A complex number in polar form: magnitude `r` and phase `theta`.
#[derive(Clone, Copy, PartialEq, Eq, Structural, Debug)]
pub struct Polar {
    pub r: Scalar,
    pub theta: Scalar,
}

/// Mathematical model of a polar complex number.
pub ghost struct PolarV {
    pub r: ScalarV,
    pub theta: ScalarV,
}

impl View for Polar {
    type V = PolarV;

    open spec fn view(&self) -> PolarV {
        PolarV { r: self.r@, theta: self.theta@ }
    }
}

/// The cartesian operations keep their operands' shared format and the
/// 32-bit mantissa range, so well-formedness is preserved.
pub proof fn lemma_complex_ops_wf(a: ComplexV, b: ComplexV, s: ScalarV, f: nat)
    requires
        a.re.frac == f,
        a.im.frac == f,
        f <= crate::scalar::MAX_FRAC,
    ensures
        complex_add(a, b).wf(f),
        complex_sub(a, b).wf(f),
        complex_mul(a, b).wf(f),
        complex_div_scalar(a, s).wf(f),
{
    crate::scalar::lemma_scalar_ops_wf(a.re, b.re);
    crate::scalar::lemma_scalar_ops_wf(a.im, b.im);
    crate::scalar::lemma_scalar_ops_wf(a.re, b.im);
    crate::scalar::lemma_scalar_ops_wf(a.im, b.im);
    crate::scalar::lemma_scalar_ops_wf(a.re, s);
    crate::scalar::lemma_scalar_ops_wf(a.im, s);
    crate::scalar::lemma_scalar_ops_wf(scalar_mul(a.re, b.re), scalar_mul(a.im, b.im));
    crate::scalar::lemma_scalar_ops_wf(scalar_mul(a.re, b.im), scalar_mul(a.im, b.re));
}

/// Add two complex fixed-point numbers in cartesian form.
pub fn add(a: Complex, b: Complex) -> (c: Complex)
    requires
        a@.re.frac == a@.im.frac,
        a@.re.frac == b@.re.frac,
        a@.re.frac == b@.im.frac,
    ensures
        c@ == complex_add(a@, b@),
{
    Complex { re: a.re.add(b.re), im: a.im.add(b.im) }
}

/// Subtract `b` from `a` in cartesian form: `c = a - b`.
pub fn sub(a: Complex, b: Complex) -> (c: Complex)
    requires
        a@.re.frac == a@.im.frac,
        a@.re.frac == b@.re.frac,
        a@.re.frac == b@.im.frac,
    ensures
        c@ == complex_sub(a@, b@),
{
    Complex { re: a.re.sub(b.re), im: a.im.sub(b.im) }
}

/// Multiply two cartesian complex numbers.
pub fn mul_cartesian(ab: Complex, bc: Complex) -> (c: Complex)
    requires
        ab@.wf(ab@.re.frac),
        bc@.wf(ab@.re.frac),
    ensures
        c@ == complex_mul(ab@, bc@),
{
    let a = ab.re;
    let b = ab.im;
    let c = bc.re;
    let d = bc.im;

    let re = (a.mul(c)).sub(b.mul(d));
    let im = (a.mul(d)).add(b.mul(c));
    Complex { re, im }
}

/// The squared magnitude `re^2 + im^2` of a cartesian complex number.
pub open spec fn spec_abs_arg(a: ComplexV) -> ScalarV {
    scalar_add(spec_powi(a.re, 2), spec_powi(a.im, 2))
}

/// The magnitude of a cartesian complex number: the NIIRF square root,
/// with two iterations, of the squared magnitude.
pub open spec fn spec_cabs(a: ComplexV) -> ScalarV {
    spec_niirf(spec_abs_arg(a), 2)
}

/// Calculate the absolute value of a cartesian complex number.
pub fn abs(a: Complex) -> (r: Scalar)
    requires
        a@.wf(a@.re.frac),
        spec_abs_arg(a@).bits != i32::MIN,
        niirf_defined(spec_abs_arg(a@)),
    ensures
        r@ == spec_cabs(a@),
        r@.wf(),
{
    let r_sqr = crate::powi(a.re, 2).add(crate::powi(a.im, 2));
    crate::sqrt::niirf(r_sqr, 2)
}

/// Cast a cartesian complex fixed-point number to polar form: the NIIRF
/// magnitude and the polynomial-arctangent phase.
pub fn to_polar(x: Complex) -> (c: Polar)
    requires
        x@.wf(x@.re.frac),
        spec_abs_arg(x@).bits != i32::MIN,
        niirf_defined(spec_abs_arg(x@)),
        atan2_defined(x@.im, x@.re),
    ensures
        c@.r == spec_cabs(x@),
        c@.theta == spec_atan2(x@.im, x@.re),
{
    let c_polar = Polar { r: abs(x), theta: crate::atan::atan2(x.im, x.re) };
    c_polar
}

/// Cast a polar complex fixed-point number to cartesian form: wrap the
/// phase, evaluate the polynomial cosine and sine, and scale both by the
/// magnitude.
pub fn to_cartsian(a: Polar) -> (c: Complex)
    requires
        a@.r.wf(),
        a@.theta.wf(),
        a@.r.frac == a@.theta.frac,
    ensures
        c@.re == scalar_mul(a@.r, spec_cos(spec_wrap_phase(a@.theta))),
        c@.im == scalar_mul(a@.r, spec_sin(spec_wrap_phase(a@.theta))),
{
    let theta = crate::wrap_phase(a.theta);
    let real_s = crate::cos(theta);
    let imag_s = crate::sin(theta);

    let c_cartesian = Complex { re: a.r.mul(real_s), im: a.r.mul(imag_s) };
    c_cartesian
}

/// Model of the polar product: magnitudes multiply and phases add, and a
/// zero magnitude on either side collapses the product to the origin.
pub open spec fn spec_mul_polar(a: PolarV, b: PolarV) -> PolarV {
    let f = a.r.frac;
    if a.r.bits == 0 || b.r.bits == 0 {
        PolarV { r: scalar_from_int(0, f), theta: scalar_from_int(0, f) }
    } else {
        PolarV { r: scalar_mul(a.r, b.r), theta: scalar_add(a.theta, b.theta) }
    }
}

/// Multiply fixed-point complex numbers in polar form.
pub fn mul_polar(a: Polar, b: Polar) -> (c: Polar)
    requires
        a@.r.wf(),
        a@.r.frac == a@.theta.frac,
        a@.r.frac == b@.r.frac,
        a@.r.frac == b@.theta.frac,
    ensures
        c@ == spec_mul_polar(a@, b@),
{
    if a.r.is_zero() || b.r.is_zero() {
        let c = Polar {
            r: Scalar::from_int(0, a.r.frac),
            theta: Scalar::from_int(0, a.r.frac),
        };
        return c;
    } else {
        let c = Polar { r: a.r.mul(b.r), theta: a.theta.add(b.theta) };
        return c;
    }
}

/// Model of raising a cartesian complex to an integer power through polar
/// form: the magnitude's power and the phase's multiple, recombined by
/// the polynomial cosine and sine.
pub open spec fn spec_cpowi(base: ComplexV, power: nat) -> ComplexV {
    let f = base.re.frac;
    let mag = spec_powi(spec_niirf(spec_abs_arg(base), 2), power);
    let phi = scalar_mul(spec_atan2(base.im, base.re), scalar_from_int(power as int, f));
    ComplexV { re: scalar_mul(mag, spec_cos(phi)), im: scalar_mul(mag, spec_sin(phi)) }
}

/// Raise a complex fixed-point number to a real-valued integer power,
/// `base^power`, through its polar form.
pub fn powi(base: Complex, power: usize) -> (r: Complex)
    requires
        base@.wf(base@.re.frac),
        power < 0x8000_0000,
        spec_abs_arg(base@).bits != i32::MIN,
        niirf_defined(spec_abs_arg(base@)),
        atan2_defined(base@.im, base@.re),
    ensures
        r@ == spec_cpowi(base@, power as nat),
{
    // Calculate the raised magnitude.
    let temp = crate::powi(base.re, 2).add(crate::powi(base.im, 2));
    let mag = crate::powi(crate::sqrt::niirf(temp, 2), power);

    let phi = crate::atan::atan2(base.im, base.re).mul(
        Scalar::from_int(power as i32, base.re.frac),
    );

    let real_s = crate::cos(phi);
    let imag_s = crate::sin(phi);

    let re_part = mag.mul(real_s);
    let im_part = mag.mul(imag_s);

    Complex { re: re_part, im: im_part }
}

/// Divide a cartesian complex by a real scalar: `c = a / b`.  A zero
/// divisor is not an error: both components saturate to the format's
/// largest representable value.
pub fn div_cartesian(a: Complex, b: Scalar) -> (c: Complex)
    requires
        a@.wf(a@.re.frac),
        b@.frac == a@.re.frac,
    ensures
        c@ == complex_div_scalar(a@, b@),
        b@.bits == 0 ==> c@.re.bits == 0x7fff_ffff && c@.im.bits == 0x7fff_ffff,
{
    let mut c = a;

    if b.is_zero() {
        c.re = Scalar::max_val(a.re.frac);
        c.im = Scalar::max_val(a.im.frac);
    } else {
        c.re = a.re.div(b);
        c.im = a.im.div(b);
    }
    c
}

} // verus!

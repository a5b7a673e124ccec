//! Four-quadrant arctangent by octant-wise polynomial approximation
//! (after R. G. Lyons, Streamlining Digital Signal Processing).

use vstd::prelude::*;

verus! {

use crate::scalar::Scalar;
use crate::scalar::ScalarV;
use crate::scalar::scalar_add;
use crate::scalar::scalar_sub;
use crate::scalar::scalar_neg;
use crate::scalar::scalar_mul;
use crate::scalar::scalar_div;
use crate::scalar::scalar_abs;
use crate::scalar::scalar_from_int;
use crate::scalar::scalar_from_ratio;
use crate::scalar::scalar_pi;
use crate::spec_powi;
use crate::powi;

/// The denominator of the first-octant polynomial:
/// `x^2 + 0.28125 * y^2`.
pub open spec fn spec_atan_denom_1(y: ScalarV, x: ScalarV) -> ScalarV {
    scalar_add(
        spec_powi(x, 2),
        scalar_mul(scalar_from_ratio(9, 32, x.frac), spec_powi(y, 2)),
    )
}

/// The first-octant polynomial: `(x * y) / (x^2 + 0.28125 * y^2)`.
pub open spec fn spec_atan_poly_1(y: ScalarV, x: ScalarV) -> ScalarV {
    scalar_div(scalar_mul(x, y), spec_atan_denom_1(y, x))
}

/// The denominator of the second-octant polynomial:
/// `y^2 + 0.28125 * x^2`.
pub open spec fn spec_atan_denom_2(y: ScalarV, x: ScalarV) -> ScalarV {
    scalar_add(
        spec_powi(y, 2),
        scalar_mul(scalar_from_ratio(9, 32, x.frac), spec_powi(x, 2)),
    )
}

/// The second-octant polynomial: `(x * y) / (y^2 + 0.28125 * x^2)`.
pub open spec fn spec_atan_poly_2(y: ScalarV, x: ScalarV) -> ScalarV {
    scalar_div(scalar_mul(x, y), spec_atan_denom_2(y, x))
}

/// Model of the four-quadrant arctangent: exact zero- and axis-cases,
/// and one of the two polynomials, offset by a multiple of pi/2, in each
/// octant.  `pi/2` is the fixed-point quotient of pi by 2.
pub open spec fn spec_atan2(y: ScalarV, x: ScalarV) -> ScalarV {
    let f = x.frac;
    let pi = scalar_pi(f);
    let two = scalar_from_int(2, f);
    let pi_half = scalar_div(pi, two);
    let diff = scalar_sub(scalar_abs(y), scalar_abs(x));
    if y.bits == 0 {
        if x.bits < 0 {
            pi
        } else {
            scalar_from_int(0, f)
        }
    } else if y.bits > 0 {
        if x.bits == 0 {
            pi_half
        } else if x.bits > 0 {
            if diff.bits < 0 {
                spec_atan_poly_1(y, x)
            } else {
                scalar_sub(pi_half, spec_atan_poly_2(y, x))
            }
        } else {
            if 0 <= diff.bits {
                scalar_sub(pi_half, spec_atan_poly_2(y, x))
            } else {
                scalar_add(pi, spec_atan_poly_1(y, x))
            }
        }
    } else {
        if x.bits == 0 {
            scalar_div(scalar_neg(pi), two)
        } else if x.bits > 0 {
            if diff.bits < 0 {
                spec_atan_poly_1(y, x)
            } else {
                scalar_sub(scalar_neg(pi_half), spec_atan_poly_2(y, x))
            }
        } else {
            if 0 <= diff.bits {
                scalar_sub(scalar_neg(pi_half), spec_atan_poly_2(y, x))
            } else {
                scalar_add(scalar_neg(pi), spec_atan_poly_1(y, x))
            }
        }
    }
}

/// Whether the arctangent's polynomial division is defined for this
/// argument pair: the denominator of the polynomial the octant selects
/// must have a nonzero mantissa.
pub open spec fn atan2_defined(y: ScalarV, x: ScalarV) -> bool {
    let diff = scalar_sub(scalar_abs(y), scalar_abs(x));
    if y.bits == 0 || x.bits == 0 {
        true
    } else if diff.bits < 0 {
        spec_atan_denom_1(y, x).bits != 0
    } else {
        spec_atan_denom_2(y, x).bits != 0
    }
}

/// First-octant arctangent polynomial.
fn atan_poly_1(y: Scalar, x: Scalar) -> (phi: Scalar)
    requires
        y@.wf(),
        x@.wf(),
        y@.frac == x@.frac,
        spec_atan_denom_1(y@, x@).bits != 0,
    ensures
        phi@ == spec_atan_poly_1(y@, x@),
        phi@.wf(),
{
    let c = Scalar::from_ratio(9, 32, x.frac);
    x.mul(y).div(powi(x, 2).add(c.mul(powi(y, 2))))
}

/// Second-octant arctangent polynomial.
fn atan_poly_2(y: Scalar, x: Scalar) -> (phi: Scalar)
    requires
        y@.wf(),
        x@.wf(),
        y@.frac == x@.frac,
        spec_atan_denom_2(y@, x@).bits != 0,
    ensures
        phi@ == spec_atan_poly_2(y@, x@),
        phi@.wf(),
{
    let c = Scalar::from_ratio(9, 32, x.frac);
    x.mul(y).div(powi(y, 2).add(c.mul(powi(x, 2))))
}

/// Calculate atan2(y, x) by a selection of polynomial approximations, one
/// for each octant of the unit circle; accurate to about a quarter of a
/// degree on arguments whose polynomial denominator does not vanish.
pub fn atan2(y: Scalar, x: Scalar) -> (r: Scalar)
    requires
        y@.wf(),
        x@.wf(),
        y@.frac == x@.frac,
        atan2_defined(y@, x@),
    ensures
        r@ == spec_atan2(y@, x@),
        r@.frac == x@.frac,
        r@.wf(),
{
    let ghost f = x@.frac;
    // Precompute.
    let y_abs = y.abs();
    let x_abs = x.abs();

    let pi = Scalar::pi(x.frac);
    let two = Scalar::from_int(2, x.frac);
    proof {
        lemma_two_nonzero(f);
    }
    let pi_half = pi.div(two);

    // Check which quadrant the result will land in.
    if y.is_zero() {
        if x.is_negative() {
            return pi;
        } else {
            return Scalar::from_int(0, x.frac);
        }
    } else if y.is_positive() {
        if x.is_zero() {
            return pi.div(two);
        } else if x.is_positive() {
            // First octant.
            if y_abs.sub(x_abs).is_negative() {
                return atan_poly_1(y, x);
            } else {
                // Second octant.
                return pi_half.sub(atan_poly_2(y, x));
            }
        } else {
            // Third octant.
            if !y_abs.sub(x_abs).is_negative() {
                return pi_half.sub(atan_poly_2(y, x));
            } else {
                // Fourth octant.
                return pi.add(atan_poly_1(y, x));
            }
        }
    } else {
        if x.is_zero() {
            return pi.neg().div(two);
        }
        if x.is_positive() {
            // Fifth octant.
            if y_abs.sub(x_abs).is_negative() {
                return atan_poly_1(y, x);
            } else {
                // Sixth octant.
                return pi_half.neg().sub(atan_poly_2(y, x));
            }
        } else {
            // Seventh octant.
            if !y_abs.sub(x_abs).is_negative() {
                return pi_half.neg().sub(atan_poly_2(y, x));
            } else {
                // Eighth octant.
                return pi.neg().add(atan_poly_1(y, x));
            }
        }
    }
}

/// The divisor 2 never has a zero mantissa in an admitted format.
proof fn lemma_two_nonzero(f: nat)
    requires
        f <= 28,
    ensures
        scalar_from_int(2, f).bits != 0,
{
    vstd::arithmetic::power2::lemma2_to64();
    crate::scalar::lemma_from_int_nonzero(1, 1, f);
}

/// Calculate atan(x) as atan2(x, 1).
pub fn atan(x: Scalar) -> (r: Scalar)
    requires
        x@.wf(),
        atan2_defined(x@, scalar_from_int(1, x@.frac)),
    ensures
        r@ == spec_atan2(x@, scalar_from_int(1, x@.frac)),
        r@.frac == x@.frac,
        r@.wf(),
{
    atan2(x, Scalar::from_int(1, x.frac))
}

} // verus!

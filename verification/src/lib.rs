//! Fixed-point trigonometry and a radix-2 decimation-in-frequency FFT.
//!
//! Every number is a [`scalar::Scalar`]: a 32-bit signed mantissa read as
//! `bits / 2^frac`, with the fractional-bit count `frac` chosen by the
//! caller and fixed for the duration of a computation.  All arithmetic is
//! total: results wrap into the 32-bit range, and lossy operations round
//! toward negative infinity, so every function carries an exact contract
//! over the mathematical model [`scalar::ScalarV`].
//!
//! The root module holds the scalar collaborators the transform consumes:
//! integer powers, sign, a Taylor-polynomial sine and cosine, and phase
//! wrapping into `[-pi, pi)`.

pub mod atan;
pub mod complex;
pub mod sqrt;
pub mod fft;
pub mod scalar;

use vstd::prelude::*;

verus! {

use crate::scalar::Scalar;
use crate::scalar::ScalarV;
use crate::scalar::scalar_add;
use crate::scalar::scalar_sub;
use crate::scalar::scalar_neg;
use crate::scalar::scalar_mul;
use crate::scalar::scalar_div;
use crate::scalar::scalar_shr;
use crate::scalar::scalar_from_int;
use crate::scalar::scalar_pi;
use crate::scalar::scalar_pi_half;
use crate::scalar::lemma_pi_constants;
use crate::scalar::lemma_from_int_nonzero;
use vstd::arithmetic::power2::pow2;
use vstd::arithmetic::power2::lemma2_to64;

/// Model of raising a scalar to an integer power by repeated
/// multiplication from the left, with `b^0 == 1`.
pub open spec fn spec_powi(b: ScalarV, p: nat) -> ScalarV
    decreases p,
{
    if p == 0 {
        scalar_from_int(1, b.frac)
    } else if p == 1 {
        b
    } else {
        scalar_mul(spec_powi(b, (p - 1) as nat), b)
    }
}

/// Raise a fixed-point number to an integer-valued power: `base^power`.
pub fn powi(base: Scalar, power: usize) -> (r: Scalar)
    requires
        base@.wf(),
    ensures
        r@ == spec_powi(base@, power as nat),
        r@.frac == base@.frac,
        r@.wf(),
{
    if power == 0 {
        return Scalar::from_int(1, base.frac);
    }

    let mut temp = base;
    for i in 1..power
        invariant
            base@.wf(),
            temp@.wf(),
            temp@.frac == base@.frac,
            temp@ == spec_powi(base@, i as nat),
    {
        temp = temp.mul(base);
    }
    temp
}

/// Get the sign of the argument as a unit value; zero counts as positive.
pub fn sign(x: Scalar) -> (r: Scalar)
    requires
        x@.wf(),
    ensures
        r@ == if x@.bits < 0 {
            scalar_from_int(-1, x@.frac)
        } else {
            scalar_from_int(1, x@.frac)
        },
        r@.wf(),
{
    if x.is_negative() {
        Scalar::from_int(-1, x.frac)
    } else {
        Scalar::from_int(1, x.frac)
    }
}

/// Model of the upward pass of phase wrapping: add `tau` until the value
/// is at least `-pi`.
pub open spec fn spec_wrap_up(t: int, pi: int, tau: int) -> int
    decreases tau - pi - t,
        when tau > 0
{
    if t < -pi {
        spec_wrap_up(t + tau, pi, tau)
    } else {
        t
    }
}

/// Model of the downward pass of phase wrapping: subtract `tau` until the
/// value is below `pi`.
pub open spec fn spec_wrap_down(t: int, pi: int, tau: int) -> int
    decreases t - pi + tau,
        when tau > 0
{
    if pi <= t {
        spec_wrap_down(t - tau, pi, tau)
    } else {
        t
    }
}

/// Model of wrapping a phase into `[-pi, pi)`: one upward pass, then one
/// downward pass, in steps of `tau == 2 * pi` in the argument's format.
pub open spec fn spec_wrap_phase(x: ScalarV) -> ScalarV {
    let pi = scalar_pi(x.frac).bits;
    let tau = 2 * pi;
    ScalarV { bits: spec_wrap_down(spec_wrap_up(x.bits, pi, tau), pi, tau), frac: x.frac }
}

/// Wrap a phase to the `-pi <= x < pi` range (up to the one-mantissa-bit
/// shortfall of the fixed-point `pi` itself).
pub fn wrap_phase(phi: Scalar) -> (r: Scalar)
    requires
        phi@.wf(),
    ensures
        r@ == spec_wrap_phase(phi@),
        r@.wf(),
{
    let ghost f = phi@.frac;
    let mixed_pi = Scalar::pi(phi.frac);
    let tau = Scalar::from_int(2, phi.frac).mul(mixed_pi);
    let ghost pib = mixed_pi@.bits;
    proof {
        lemma_pi_constants(f);
        assert(tau@.bits == 2 * pib) by {
            crate::scalar::lemma_pow2_small(f);
            assert(scalar_from_int(2, f).bits == 2 * pow2(f)) by {
                crate::scalar::lemma_crop32_range(2 * pow2(f) as int);
            }
            assert((2 * pow2(f) as int) * pib == pow2(f) as int * (2 * pib)) by (nonlinear_arith);
            vstd::arithmetic::div_mod::lemma_div_multiples_vanish(2 * pib, pow2(f) as int);
            crate::scalar::lemma_crop32_range(2 * pib);
        }
    }

    let minus_pi = mixed_pi.neg();
    let mut temp_scalar = phi;

    while temp_scalar.lt(minus_pi)
        invariant
            phi@.wf(),
            temp_scalar@.frac == f,
            -0x8000_0000 <= temp_scalar@.bits < 0x8000_0000,
            minus_pi@.bits == -pib,
            minus_pi@.frac == f,
            tau@.bits == 2 * pib,
            tau@.frac == f,
            3 <= pib <= 843314856,
            spec_wrap_up(temp_scalar@.bits, pib, 2 * pib) == spec_wrap_up(phi@.bits, pib, 2 * pib),
        decreases pib - temp_scalar@.bits,
    {
        proof {
            crate::scalar::lemma_crop32_range(temp_scalar@.bits + tau@.bits);
        }
        temp_scalar = temp_scalar.add(tau);
    }

    let ghost up = spec_wrap_up(phi@.bits, pib, 2 * pib);
    proof {
        assert(temp_scalar@.bits == up);
    }

    while mixed_pi.le(temp_scalar)
        invariant
            phi@.wf(),
            temp_scalar@.frac == f,
            -0x8000_0000 <= temp_scalar@.bits < 0x8000_0000,
            mixed_pi@.bits == pib,
            mixed_pi@.frac == f,
            tau@.bits == 2 * pib,
            tau@.frac == f,
            3 <= pib <= 843314856,
            spec_wrap_down(temp_scalar@.bits, pib, 2 * pib) == spec_wrap_down(up, pib, 2 * pib),
        decreases temp_scalar@.bits + pib,
    {
        proof {
            crate::scalar::lemma_crop32_range(temp_scalar@.bits - tau@.bits);
        }
        temp_scalar = temp_scalar.sub(tau);
    }
    temp_scalar
}

/// Model of the Taylor-polynomial sine: fold the phase toward the
/// `[-pi/2, pi/2]` window around the nearest quarter turn, then evaluate
/// `x - x^3/6 + x^5/120 - (x^7/315)/16 + (x^9/81/7/5)/128`.
#[verifier::opaque]
pub open spec fn spec_sin(x: ScalarV) -> ScalarV {
    let f = x.frac;
    let ph = scalar_pi_half(f);
    let xr = if x.bits < -ph.bits {
        scalar_sub(scalar_neg(ph), scalar_add(x, ph))
    } else if ph.bits < x.bits {
        scalar_sub(ph, scalar_sub(x, ph))
    } else {
        x
    };
    let t1 = scalar_sub(xr, scalar_div(spec_powi(xr, 3), scalar_from_int(6, f)));
    let t2 = scalar_add(t1, scalar_div(spec_powi(xr, 5), scalar_from_int(120, f)));
    let t3 = scalar_sub(t2, scalar_shr(scalar_div(spec_powi(xr, 7), scalar_from_int(315, f)), 4));
    scalar_add(
        t3,
        scalar_shr(
            scalar_div(
                scalar_div(scalar_div(spec_powi(xr, 9), scalar_from_int(81, f)), scalar_from_int(7, f)),
                scalar_from_int(5, f),
            ),
            7,
        ),
    )
}

/// Calculate sin(x) by a Taylor approximation; the argument must already
/// be wrapped to the `-pi <= x < pi` range for the result to approximate
/// the sine (the function itself is total and exactly mirrors its model).
pub fn sin(x: Scalar) -> (r: Scalar)
    requires
        x@.wf(),
    ensures
        r@ == spec_sin(x@),
        r@.frac == x@.frac,
        r@.wf(),
{
    let ghost f = x@.frac;
    proof {
        reveal(spec_sin);
        lemma2_to64();
        lemma_pi_constants(f);
        crate::scalar::lemma_crop32_range(-(scalar_pi_half(f).bits));
        lemma_from_int_nonzero(3, 1, f);
        lemma_from_int_nonzero(15, 3, f);
        lemma_from_int_nonzero(315, 0, f);
        lemma_from_int_nonzero(81, 0, f);
        lemma_from_int_nonzero(7, 0, f);
        lemma_from_int_nonzero(5, 0, f);
        assert(3 * pow2(1) == 6 && 15 * pow2(3) == 120 && 315 * pow2(0) == 315 && 81 * pow2(0)
            == 81 && 7 * pow2(0) == 7 && 5 * pow2(0) == 5);
    }
    let pi_half = Scalar::pi_half(x.frac);

    let mut x_ = x;

    if x_.lt(pi_half.neg()) {
        let delta = x.add(pi_half);
        x_ = pi_half.neg().sub(delta);
    } else if pi_half.lt(x_) {
        let delta = x.sub(pi_half);
        x_ = pi_half.sub(delta);
    }

    let mut sinx = x_.sub(powi(x_, 3).div(Scalar::from_int(6, x.frac)));
    sinx = sinx.add(powi(x_, 5).div(Scalar::from_int(120, x.frac)));
    sinx = sinx.sub(powi(x_, 7).div(Scalar::from_int(315, x.frac)).shr(4));
    sinx = sinx.add(
        powi(x_, 9).div(Scalar::from_int(81, x.frac)).div(Scalar::from_int(7, x.frac)).div(
            Scalar::from_int(5, x.frac),
        ).shr(7),
    );
    sinx
}

/// Model of cosine: shift the phase by a quarter turn, wrap, and take the
/// polynomial sine.
#[verifier::opaque]
pub open spec fn spec_cos(x: ScalarV) -> ScalarV {
    spec_sin(spec_wrap_phase(scalar_add(x, scalar_pi_half(x.frac))))
}

/// Calculate cos(x) by adding a quarter-turn phase shift and running the
/// polynomial sine; the phase is wrapped inside the function.
pub fn cos(x: Scalar) -> (r: Scalar)
    requires
        x@.wf(),
    ensures
        r@ == spec_cos(x@),
        r@.frac == x@.frac,
        r@.wf(),
{
    proof {
        reveal(spec_cos);
    }
    let pi_half = Scalar::pi_half(x.frac);

    let mut x_shifted = x.add(pi_half);
    x_shifted = wrap_phase(x_shifted);
    sin(x_shifted)
}

} // verus!

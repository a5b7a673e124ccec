//! A fast fixed-point square root: the nonlinear IIR filter (NIIRF)
//! method.  The argument is normalized into `[1/4, 1)` by factors of 4, a
//! seed estimate is refined by a lookup-accelerated filter step, and the
//! result is denormalized by the matching power of two.

use vstd::prelude::*;

verus! {

use vstd::arithmetic::power2::pow2;
use vstd::arithmetic::power2::lemma_pow2_pos;
use vstd::arithmetic::power2::lemma_pow2_adds;
use vstd::arithmetic::power2::lemma_pow2_strictly_increases;
use vstd::arithmetic::power2::lemma2_to64;
use crate::scalar::Scalar;
use crate::scalar::ScalarV;
use crate::scalar::scalar_add;
use crate::scalar::scalar_sub;
use crate::scalar::scalar_mul;
use crate::scalar::scalar_div;
use crate::scalar::scalar_abs;
use crate::scalar::scalar_from_int;
use crate::scalar::scalar_from_ratio;
use crate::scalar::fdiv;
use crate::spec_powi;
use crate::powi;

/// The normalization threshold 1/4 in format `f`.
pub open spec fn spec_quarter(f: nat) -> int {
    scalar_from_ratio(1, 4, f).bits
}

/// The normalization threshold 1 in format `f`.
pub open spec fn spec_one(f: nat) -> int {
    scalar_from_int(1, f).bits
}

/// The mantissa after the upward normalization pass: multiply by 4 until
/// the value reaches `q`.
pub open spec fn spec_norm_up(b: int, q: int) -> int
    decreases (if b < q { q - b } else { 0 }),
        when 0 < b
{
    if b < q {
        spec_norm_up(4 * b, q)
    } else {
        b
    }
}

/// How many upward normalization steps the pass takes.
pub open spec fn spec_norm_up_count(b: int, q: int) -> nat
    decreases (if b < q { q - b } else { 0 }),
        when 0 < b
{
    if b < q {
        1 + spec_norm_up_count(4 * b, q)
    } else {
        0
    }
}

/// The mantissa after the downward normalization pass: floor-divide by 4
/// until the value drops below `one`.
pub open spec fn spec_norm_down(b: int, one: int) -> int
    decreases b,
        when b >= 0
{
    if b >= one && one >= 1 {
        spec_norm_down(b / 4, one)
    } else {
        b
    }
}

/// How many downward normalization steps the pass takes.
pub open spec fn spec_norm_down_count(b: int, one: int) -> nat
    decreases b,
        when b >= 0
{
    if b >= one && one >= 1 {
        1 + spec_norm_down_count(b / 4, one)
    } else {
        0
    }
}

/// Bounds on the upward pass: it never shrinks its argument, and when it
/// ran at all its result lies below `4 q`.
pub proof fn lemma_norm_up_bounds(b: int, q: int)
    requires
        0 < b,
    ensures
        spec_norm_up(b, q) >= b,
        spec_norm_up(b, q) > 0,
        spec_norm_up_count(b, q) > 0 ==> spec_norm_up(b, q) < 4 * q,
        spec_norm_up_count(b, q) == 0 ==> spec_norm_up(b, q) == b,
    decreases (if b < q { q - b } else { 0 }),
{
    if b < q {
        lemma_norm_up_bounds(4 * b, q);
    }
}

/// The acceleration factor for a normalized argument: one value per
/// sixteenth of the `[1/4, 1)` range.
pub open spec fn spec_beta(x: ScalarV) -> ScalarV {
    let f = x.frac;
    if x.bits < scalar_from_ratio(5, 16, f).bits {
        scalar_from_ratio(961914, 1000000, f)
    } else if x.bits < scalar_from_ratio(6, 16, f).bits {
        scalar_from_ratio(840332, 1000000, f)
    } else if x.bits < scalar_from_ratio(7, 16, f).bits {
        scalar_from_ratio(782715, 1000000, f)
    } else if x.bits < scalar_from_ratio(8, 16, f).bits {
        scalar_from_ratio(734869, 1000000, f)
    } else if x.bits < scalar_from_ratio(9, 16, f).bits {
        scalar_from_ratio(691406, 1000000, f)
    } else if x.bits < scalar_from_ratio(10, 16, f).bits {
        scalar_from_ratio(654297, 1000000, f)
    } else if x.bits < scalar_from_ratio(11, 16, f).bits {
        scalar_from_ratio(622070, 1000000, f)
    } else if x.bits < scalar_from_ratio(12, 16, f).bits {
        scalar_from_ratio(595215, 1000000, f)
    } else if x.bits < scalar_from_ratio(13, 16, f).bits {
        scalar_from_ratio(573731, 1000000, f)
    } else if x.bits < scalar_from_ratio(14, 16, f).bits {
        scalar_from_ratio(556152, 1000000, f)
    } else if x.bits < scalar_from_ratio(15, 16, f).bits {
        scalar_from_ratio(516113, 1000000, f)
    } else {
        scalar_from_ratio(502930, 1000000, f)
    }
}

/// One filter refinement: `y + beta(x) * (x - y^2)`.
pub open spec fn spec_niirf_step(xn: ScalarV, y: ScalarV) -> ScalarV {
    scalar_add(scalar_mul(spec_beta(xn), scalar_sub(xn, spec_powi(y, 2))), y)
}

/// The estimate after `steps` filter refinements.
pub open spec fn spec_niirf_iter(xn: ScalarV, y: ScalarV, steps: nat) -> ScalarV
    decreases steps,
{
    if steps == 0 {
        y
    } else {
        spec_niirf_iter(xn, spec_niirf_step(xn, y), (steps - 1) as nat)
    }
}

/// The net normalization exponent: downward steps minus upward steps.
pub open spec fn spec_norm_exp(x: ScalarV) -> int {
    let f = x.frac;
    let xa = scalar_abs(x).bits;
    let b1 = spec_norm_up(xa, spec_quarter(f));
    spec_norm_down_count(b1, spec_one(f)) - spec_norm_up_count(xa, spec_quarter(f))
}

/// Undo the normalization: scale by 2 to the net exponent.
pub open spec fn spec_denorm(y: ScalarV, norm: int, f: nat) -> ScalarV {
    if norm > 0 {
        scalar_mul(y, spec_powi(scalar_from_int(2, f), norm as nat))
    } else if norm < 0 {
        scalar_div(y, spec_powi(scalar_from_int(2, f), (-norm) as nat))
    } else {
        y
    }
}

/// The whole square-root estimator over the scalar model.
pub open spec fn spec_niirf(x: ScalarV, iterations: nat) -> ScalarV {
    let f = x.frac;
    if x.bits == 0 {
        scalar_from_int(0, f)
    } else {
        let xa = scalar_abs(x).bits;
        let b2 = spec_norm_down(spec_norm_up(xa, spec_quarter(f)), spec_one(f));
        let xn = ScalarV { bits: b2, frac: f };
        let y0 = scalar_add(
            scalar_div(scalar_mul(scalar_from_int(2, f), xn), scalar_from_int(3, f)),
            scalar_from_ratio(354167, 1000000, f),
        );
        let steps = if iterations == 0 {
            0
        } else {
            (iterations - 1) as nat
        };
        spec_denorm(spec_niirf_iter(xn, y0, steps), spec_norm_exp(x), f)
    }
}

/// Whether the estimator's final rescaling is defined for `x`: an
/// argument normalized upward so far that the power of two undoing it
/// wraps to a zero mantissa has no defined result (the denormalization
/// would divide by zero).
pub open spec fn niirf_defined(x: ScalarV) -> bool {
    x.bits == 0 || spec_norm_exp(x) >= 0 || spec_powi(
        scalar_from_int(2, x.frac),
        (-spec_norm_exp(x)) as nat,
    ).bits != 0
}

/// The acceleration-factor lookup for the filter step.
fn beta(x: Scalar) -> (r: Scalar)
    requires
        x@.wf(),
    ensures
        r@ == spec_beta(x@),
        r@.wf(),
{
    let f = x.frac;
    if x.lt(Scalar::from_ratio(5, 16, f)) {
        Scalar::from_ratio(961914, 1000000, f)
    } else if x.lt(Scalar::from_ratio(6, 16, f)) {
        Scalar::from_ratio(840332, 1000000, f)
    } else if x.lt(Scalar::from_ratio(7, 16, f)) {
        Scalar::from_ratio(782715, 1000000, f)
    } else if x.lt(Scalar::from_ratio(8, 16, f)) {
        Scalar::from_ratio(734869, 1000000, f)
    } else if x.lt(Scalar::from_ratio(9, 16, f)) {
        Scalar::from_ratio(691406, 1000000, f)
    } else if x.lt(Scalar::from_ratio(10, 16, f)) {
        Scalar::from_ratio(654297, 1000000, f)
    } else if x.lt(Scalar::from_ratio(11, 16, f)) {
        Scalar::from_ratio(622070, 1000000, f)
    } else if x.lt(Scalar::from_ratio(12, 16, f)) {
        Scalar::from_ratio(595215, 1000000, f)
    } else if x.lt(Scalar::from_ratio(13, 16, f)) {
        Scalar::from_ratio(573731, 1000000, f)
    } else if x.lt(Scalar::from_ratio(14, 16, f)) {
        Scalar::from_ratio(556152, 1000000, f)
    } else if x.lt(Scalar::from_ratio(15, 16, f)) {
        Scalar::from_ratio(516113, 1000000, f)
    } else {
        Scalar::from_ratio(502930, 1000000, f)
    }
}

/// A fast square-root estimate by the nonlinear IIR filter method: only
/// meaningful for nonnegative arguments (a negative argument contributes
/// its magnitude).  Start with two iterations.
pub fn niirf(x: Scalar, iterations: usize) -> (r: Scalar)
    requires
        x@.wf(),
        x@.bits != i32::MIN,
        niirf_defined(x@),
    ensures
        r@ == spec_niirf(x@, iterations as nat),
        r@.frac == x@.frac,
        r@.wf(),
{
    let ghost f = x@.frac;
    if x.is_zero() {
        return Scalar::from_int(0, x.frac);
    }

    // Only works with real numbers.
    let mut x_ = x.abs();
    let ghost xa = x_@.bits;
    proof {
        crate::scalar::lemma_crop32_range(-x@.bits);
        assert(0 < xa < 0x8000_0000);
    }

    let quarter = Scalar::from_ratio(1, 4, x.frac);
    let one = Scalar::from_int(1, x.frac);
    proof {
        crate::scalar::lemma_pow2_small(f);
        assert(spec_one(f) == pow2(f)) by {
            crate::scalar::lemma_crop32_range(1 * pow2(f) as int);
        }
        assert(0 <= spec_quarter(f) <= pow2(f) / 4) by {
            vstd::arithmetic::div_mod::lemma_div_pos_is_pos(pow2(f) as int, 4);
            crate::scalar::lemma_crop32_range(fdiv(1 * pow2(f) as int, 4));
            vstd::arithmetic::div_mod::lemma_div_nonincreasing(pow2(f) as int, 4);
        }
        assert(4 * (pow2(f) as int / 4) <= pow2(f)) by {
            vstd::arithmetic::div_mod::lemma_fundamental_div_mod(pow2(f) as int, 4);
            vstd::arithmetic::div_mod::lemma_mod_bound(pow2(f) as int, 4);
        }
    }

    // First, normalize x to the range 0.25 <= x < 1.
    let mut norm: i32 = 0;
    proof {
        lemma2_to64();
    }
    while x_.lt(quarter)
        invariant
            f <= 28,
            x_@.frac == f,
            quarter@.frac == f,
            quarter@.bits == spec_quarter(f),
            4 * spec_quarter(f) <= pow2(f),
            0 < x_@.bits,
            x_@.bits < 0x8000_0000,
            -16 <= norm <= 0,
            pow2((2 * (-norm)) as nat) <= x_@.bits,
            spec_norm_up(xa, spec_quarter(f)) == spec_norm_up(x_@.bits, spec_quarter(f)),
            spec_norm_up_count(xa, spec_quarter(f)) == spec_norm_up_count(
                x_@.bits,
                spec_quarter(f),
            ) + (-norm),
        decreases (if x_@.bits < spec_quarter(f) {
            spec_quarter(f) - x_@.bits
        } else {
            0
        }),
    {
        proof {
            crate::scalar::lemma_pow2_small(f);
            lemma_mul_four_exact(x_@, f);
            lemma_pow2_adds((2 * (-norm)) as nat, 2nat);
            lemma2_to64();
            assert(norm > -16) by {
                if norm <= -16 {
                    lemma_pow2_strictly_increases(28nat, (2 * (-norm)) as nat);
                    lemma_pow2_strictly_increases(2nat, f as nat);
                    if f < 28 {
                        lemma_pow2_strictly_increases(f, 28nat);
                    }
                }
            }
        }
        norm = norm - 1;
        x_ = x_.mul(Scalar::from_int(4, x_.frac));
    }
    let ghost b1 = spec_norm_up(xa, spec_quarter(f));
    proof {
        assert(x_@.bits == b1);
        assert(norm == -(spec_norm_up_count(xa, spec_quarter(f)) as int));
    }

    proof {
        lemma_norm_up_bounds(xa, spec_quarter(f));
        lemma2_to64();
        assert(x_@.bits * pow2(0nat) == x_@.bits) by (nonlinear_arith)
            requires
                pow2(0nat) == 1,
        ;
    }
    while one.le(x_)
        invariant
            f <= 28,
            x_@.frac == f,
            one@.frac == f,
            one@.bits == spec_one(f),
            spec_one(f) == pow2(f),
            0 <= x_@.bits < 0x8000_0000,
            0 < b1 < 0x8000_0000,
            -16 <= norm <= 16,
            norm < 0 ==> x_@.bits == b1 && b1 < spec_one(f),
            norm >= 0 ==> x_@.bits * pow2((2 * norm) as nat) <= b1,
            spec_norm_down(b1, spec_one(f)) == spec_norm_down(x_@.bits, spec_one(f)),
            spec_norm_down_count(b1, spec_one(f)) == spec_norm_down_count(x_@.bits, spec_one(f))
                + norm + (spec_norm_up_count(xa, spec_quarter(f)) as int),
        decreases x_@.bits,
    {
        proof {
            lemma_div_four_exact(x_@, f);
            lemma_pow2_pos(f);
            assert(norm >= 0);
            lemma_pow2_adds((2 * norm) as nat, 2nat);
            lemma2_to64();
            assert(norm < 16) by {
                if norm >= 16 {
                    assert(pow2((2 * norm) as nat) <= x_@.bits * pow2((2 * norm) as nat))
                        by (nonlinear_arith)
                        requires
                            x_@.bits >= 1,
                            pow2((2 * norm) as nat) >= 1,
                    ;
                    lemma_pow2_strictly_increases(31nat, (2 * norm) as nat);
                }
            }
            vstd::arithmetic::div_mod::lemma_fundamental_div_mod(x_@.bits, 4);
            vstd::arithmetic::div_mod::lemma_mod_bound(x_@.bits, 4);
            vstd::arithmetic::div_mod::lemma_div_pos_is_pos(x_@.bits, 4);
            assert((x_@.bits / 4) * (4 * pow2((2 * norm) as nat)) <= x_@.bits * pow2(
                (2 * norm) as nat,
            )) by (nonlinear_arith)
                requires
                    4 * (x_@.bits / 4) <= x_@.bits,
                    pow2((2 * norm) as nat) >= 1,
            ;
        }
        norm = norm + 1;
        x_ = x_.div(Scalar::from_int(4, x_.frac));
    }
    let ghost nexp = spec_norm_exp(x@);
    proof {
        assert(x_@.bits == spec_norm_down(b1, spec_one(f)));
        assert(norm == nexp);
    }
    let ghost xn = x_@;

    // Estimate the square root of x for 0.25 <= x < 1.
    let mut y = (Scalar::from_int(2, x.frac).mul(x_)).div(Scalar::from_int(3, x.frac)).add(
        Scalar::from_ratio(354167, 1000000, x.frac),
    );
    proof {
        lemma2_to64();
        crate::scalar::lemma_from_int_nonzero(3, 0, f);
        assert(3 * pow2(0nat) == 3);
    }
    let mut n: usize = 1;
    while n < iterations
        invariant
            f <= 28,
            x_@ == xn,
            x_@.frac == f,
            x_@.wf(),
            y@.frac == f,
            y@.wf(),
            1 <= n,
            n <= iterations || n == 1,
            y@ == spec_niirf_iter(xn, spec_y0(xn, f), (n - 1) as nat),
        decreases iterations - n,
    {
        y = beta(x_).mul(x_.sub(powi(y, 2))).add(y);
        proof {
            lemma_niirf_iter_unfold(xn, spec_y0(xn, f), (n - 1) as nat);
        }
        n = n + 1;
    }

    // Denormalize the solution.
    if norm > 0 {
        y = y.mul(powi(Scalar::from_int(2, x.frac), norm as usize));
    } else if norm < 0 {
        let p = powi(Scalar::from_int(2, x.frac), (-norm) as usize);
        proof {
            assert(p@.bits != 0);
        }
        y = y.div(p);
    }
    proof {
        assert(y@ == spec_niirf(x@, iterations as nat));
    }
    return y;
}

/// The seed estimate `(2 x) / 3 + 0.354167` of the filter.
pub open spec fn spec_y0(xn: ScalarV, f: nat) -> ScalarV {
    scalar_add(
        scalar_div(scalar_mul(scalar_from_int(2, f), xn), scalar_from_int(3, f)),
        scalar_from_ratio(354167, 1000000, f),
    )
}

/// Unrolling the filter iteration from the tail end: `steps + 1`
/// refinements are `steps` refinements followed by one more.
proof fn lemma_niirf_iter_unfold(xn: ScalarV, y: ScalarV, steps: nat)
    ensures
        spec_niirf_iter(xn, y, steps + 1) == spec_niirf_step(
            xn,
            spec_niirf_iter(xn, y, steps),
        ),
    decreases steps,
{
    if steps == 0 {
        assert(spec_niirf_iter(xn, y, 1) == spec_niirf_iter(xn, spec_niirf_step(xn, y), 0));
    } else {
        lemma_niirf_iter_unfold(xn, spec_niirf_step(xn, y), (steps - 1) as nat);
        assert(spec_niirf_iter(xn, y, steps + 1) == spec_niirf_iter(
            xn,
            spec_niirf_step(xn, y),
            steps,
        ));
        assert(spec_niirf_iter(xn, y, steps) == spec_niirf_iter(
            xn,
            spec_niirf_step(xn, y),
            (steps - 1) as nat,
        ));
    }
}

/// Multiplying a small positive mantissa by the constant 4 is exact.
proof fn lemma_mul_four_exact(a: ScalarV, f: nat)
    requires
        a.frac == f,
        f <= 28,
        0 < a.bits,
        4 * a.bits < 0x8000_0000,
    ensures
        scalar_mul(a, scalar_from_int(4, f)).bits == 4 * a.bits,
{
    crate::scalar::lemma_pow2_small(f);
    crate::scalar::lemma_crop32_range(4 * pow2(f) as int);
    assert(scalar_from_int(4, f).bits == 4 * pow2(f));
    assert(a.bits * (4 * pow2(f) as int) == pow2(f) as int * (4 * a.bits)) by (nonlinear_arith);
    vstd::arithmetic::div_mod::lemma_div_multiples_vanish(4 * a.bits, pow2(f) as int);
    crate::scalar::lemma_crop32_range(4 * a.bits);
}

/// Dividing a nonnegative mantissa by the constant 4 floors exactly.
proof fn lemma_div_four_exact(a: ScalarV, f: nat)
    requires
        a.frac == f,
        f <= 28,
        0 <= a.bits < 0x8000_0000,
    ensures
        scalar_div(a, scalar_from_int(4, f)).bits == a.bits / 4,
{
    crate::scalar::lemma_pow2_small(f);
    crate::scalar::lemma_crop32_range(4 * pow2(f) as int);
    assert(scalar_from_int(4, f).bits == 4 * pow2(f));
    assert(a.bits * pow2(f) as int == (a.bits / 4) * (4 * pow2(f) as int) + (a.bits % 4) * pow2(
        f,
    ) as int) by (nonlinear_arith)
        requires
            a.bits == 4 * (a.bits / 4) + a.bits % 4,
    {
        vstd::arithmetic::div_mod::lemma_fundamental_div_mod(a.bits, 4);
    }
    vstd::arithmetic::div_mod::lemma_fundamental_div_mod(a.bits, 4);
    vstd::arithmetic::div_mod::lemma_mod_bound(a.bits, 4);
    lemma_pow2_pos(f);
    assert(0 <= (a.bits % 4) * (pow2(f) as int) && (a.bits % 4) * (pow2(f) as int) < 4 * (pow2(
        f,
    ) as int)) by (nonlinear_arith)
        requires
            0 <= a.bits % 4 < 4,
            pow2(f) >= 1,
    ;
    vstd::arithmetic::div_mod::lemma_fundamental_div_mod_converse(
        a.bits * pow2(f) as int,
        4 * pow2(f) as int,
        a.bits / 4,
        (a.bits % 4) * pow2(f) as int,
    );
    vstd::arithmetic::div_mod::lemma_div_pos_is_pos(a.bits, 4);
    vstd::arithmetic::div_mod::lemma_div_nonincreasing(a.bits, 4);
    crate::scalar::lemma_crop32_range(a.bits / 4);
}

} // verus!

//! The scalar numeric primitive: a signed fixed-point number.
//!
//! A [`Scalar`] holds a 32-bit two's-complement mantissa `bits` and a
//! fractional-bit count `frac`; it denotes the value `bits / 2^frac`.
//! Operations on two scalars demand that both share the same format.
//! Sums and differences wrap into the 32-bit range; products, quotients
//! and shifts round toward negative infinity before wrapping.  The model
//! type [`ScalarV`] states all of this over unbounded integers.

use vstd::prelude::*;

verus! {

use vstd::arithmetic::power2::pow2;
use vstd::arithmetic::power2::lemma_pow2_pos;
use vstd::arithmetic::power2::lemma_pow2_strictly_increases;
use vstd::arithmetic::power2::lemma2_to64;
use vstd::arithmetic::div_mod::lemma_fundamental_div_mod;
use vstd::arithmetic::div_mod::lemma_fundamental_div_mod_converse;
use vstd::arithmetic::div_mod::lemma_div_nonincreasing;
use vstd::arithmetic::div_mod::lemma_div_pos_is_pos;
use vstd::bits::lemma_u64_shl_is_mul;

/// Largest fractional-bit count a format may use.  Two integer bits and a
/// sign bit stay available, so the circle constant tau = 2*pi remains
/// representable in every admitted format.
pub const MAX_FRAC: u32 = 28;

/// floor(pi * 2^29): the circle constant at one bit beyond the finest
/// admitted precision; every pi-derived constant is a right shift of it.
pub const PI_BITS_Q29: i64 = 1686629713;

/// Mathematical model of a fixed-point number: an unbounded mantissa
/// `bits` denoting `bits / 2^frac`.
pub ghost struct ScalarV {
    pub bits: int,
    pub frac: nat,
}

/// Wrap an unbounded integer into the 32-bit two's-complement range.
pub open spec fn crop32(x: int) -> int {
    if x % 0x1_0000_0000 >= 0x8000_0000 {
        x % 0x1_0000_0000 - 0x1_0000_0000
    } else {
        x % 0x1_0000_0000
    }
}

/// Division rounding toward negative infinity, for a divisor of either
/// sign.  (Verus' `/` on `int` is Euclidean: it floors exactly when the
/// divisor is positive, which the sign flip arranges.)
pub open spec fn fdiv(a: int, b: int) -> int {
    if b >= 0 {
        a / b
    } else {
        (-a) / (-b)
    }
}

impl ScalarV {
    /// A well-formed scalar: admitted format, mantissa in 32-bit range.
    pub open spec fn wf(self) -> bool {
        self.frac <= MAX_FRAC && -0x8000_0000 <= self.bits < 0x8000_0000
    }
}

/// Model of addition: mantissas add and wrap.
pub open spec fn scalar_add(a: ScalarV, b: ScalarV) -> ScalarV {
    ScalarV { bits: crop32(a.bits + b.bits), frac: a.frac }
}

/// Model of subtraction: mantissas subtract and wrap.
pub open spec fn scalar_sub(a: ScalarV, b: ScalarV) -> ScalarV {
    ScalarV { bits: crop32(a.bits - b.bits), frac: a.frac }
}

/// Model of negation.
pub open spec fn scalar_neg(a: ScalarV) -> ScalarV {
    ScalarV { bits: crop32(-a.bits), frac: a.frac }
}

/// Model of absolute value; the most negative mantissa wraps to itself.
pub open spec fn scalar_abs(a: ScalarV) -> ScalarV {
    ScalarV { bits: if a.bits < 0 { crop32(-a.bits) } else { a.bits }, frac: a.frac }
}

/// Model of multiplication: the double-width product, floored down by
/// 2^frac, wrapped into range.
pub open spec fn scalar_mul(a: ScalarV, b: ScalarV) -> ScalarV {
    ScalarV { bits: crop32((a.bits * b.bits) / pow2(a.frac) as int), frac: a.frac }
}

/// Model of division: the widened dividend, floored by the divisor,
/// wrapped into range.
pub open spec fn scalar_div(a: ScalarV, b: ScalarV) -> ScalarV {
    ScalarV { bits: crop32(fdiv(a.bits * pow2(a.frac) as int, b.bits)), frac: a.frac }
}

/// Model of an arithmetic right shift by `k`: floor division by 2^k.
pub open spec fn scalar_shr(a: ScalarV, k: nat) -> ScalarV {
    ScalarV { bits: a.bits / pow2(k) as int, frac: a.frac }
}

/// Model of building the scalar `i` in format `f`.
pub open spec fn scalar_from_int(i: int, f: nat) -> ScalarV {
    ScalarV { bits: crop32(i * pow2(f) as int), frac: f }
}

/// Model of building the scalar `n / d` in format `f`.
pub open spec fn scalar_from_ratio(n: int, d: int, f: nat) -> ScalarV {
    ScalarV { bits: crop32(fdiv(n * pow2(f) as int, d)), frac: f }
}

/// The format's largest representable value.
pub open spec fn scalar_max(f: nat) -> ScalarV {
    ScalarV { bits: 0x7fff_ffff, frac: f }
}

/// floor(pi * 2^f): the constant pi in format `f` (f <= 28).
pub open spec fn scalar_pi(f: nat) -> ScalarV {
    ScalarV { bits: PI_BITS_Q29 as int / pow2((29 - f) as nat) as int, frac: f }
}

/// floor(2 * pi * 2^f): the constant tau in format `f` (f <= 28).
pub open spec fn scalar_tau(f: nat) -> ScalarV {
    ScalarV { bits: PI_BITS_Q29 as int / pow2((28 - f) as nat) as int, frac: f }
}

/// floor((pi / 2) * 2^f): half pi in format `f` (f <= 28).
pub open spec fn scalar_pi_half(f: nat) -> ScalarV {
    ScalarV { bits: PI_BITS_Q29 as int / pow2((30 - f) as nat) as int, frac: f }
}

/// A signed fixed-point number: mantissa `bits`, read as `bits / 2^frac`.
#[derive(Clone, Copy, PartialEq, Eq, Structural, Debug)]
pub struct Scalar {
    pub bits: i32,
    pub frac: u32,
}

impl View for Scalar {
    type V = ScalarV;

    open spec fn view(&self) -> ScalarV {
        ScalarV { bits: self.bits as int, frac: self.frac as nat }
    }
}

/// The wrapped value is exactly the representative of `x` modulo 2^32
/// lying in the signed 32-bit range.
pub proof fn lemma_crop32_range(x: int)
    ensures
        -0x8000_0000 <= crop32(x) < 0x8000_0000,
        (x - crop32(x)) % 0x1_0000_0000 == 0,
        -0x8000_0000 <= x < 0x8000_0000 ==> crop32(x) == x,
{
    let m = 0x1_0000_0000;
    lemma_fundamental_div_mod(x, m);
    let q = x / m;
    let r = x % m;
    if -0x8000_0000 <= x < 0x8000_0000 {
        if x >= 0 {
            lemma_fundamental_div_mod_converse(x, m, 0, x);
        } else {
            lemma_fundamental_div_mod_converse(x, m, -1, x + m);
        }
    }
    assert(x - r == q * m + 0 && x - (r - m) == (q + 1) * m + 0) by (nonlinear_arith)
        requires
            x == m * q + r,
            m == 0x1_0000_0000,
    ;
    assert((x - (x % m)) % m == 0) by {
        lemma_fundamental_div_mod_converse(x - r, m, q, 0);
    }
    if r >= 0x8000_0000 {
        assert((x - (r - m)) % m == 0) by {
            lemma_fundamental_div_mod_converse(x - (r - m), m, q + 1, 0);
        }
    }
}

/// Every wrapping operation lands back inside the 32-bit range and keeps
/// the left operand's format, so well-formedness is preserved.
pub proof fn lemma_scalar_ops_wf(a: ScalarV, b: ScalarV)
    requires
        a.frac <= MAX_FRAC,
    ensures
        scalar_add(a, b).wf(),
        scalar_sub(a, b).wf(),
        scalar_mul(a, b).wf(),
        scalar_div(a, b).wf(),
        scalar_neg(a).wf(),
        (-0x8000_0000 <= a.bits < 0x8000_0000) ==> scalar_abs(a).wf(),
        (-0x8000_0000 <= a.bits < 0x8000_0000) ==> (forall|k: nat| scalar_shr(a, k).wf()),
{
    lemma_crop32_range(a.bits + b.bits);
    lemma_crop32_range(a.bits - b.bits);
    lemma_crop32_range((a.bits * b.bits) / pow2(a.frac) as int);
    lemma_crop32_range(fdiv(a.bits * pow2(a.frac) as int, b.bits));
    lemma_crop32_range(-a.bits);
    if -0x8000_0000 <= a.bits < 0x8000_0000 {
        assert forall|k: nat| scalar_shr(a, k).wf() by {
            lemma_pow2_pos(k);
            if a.bits >= 0 {
                lemma_div_nonincreasing(a.bits, pow2(k) as int);
                lemma_div_pos_is_pos(a.bits, pow2(k) as int);
            } else {
                let d = pow2(k) as int;
                lemma_fundamental_div_mod(a.bits, d);
                vstd::arithmetic::div_mod::lemma_mod_bound(a.bits, d);
                let q = a.bits / d;
                let r = a.bits % d;
                assert(q < 0) by (nonlinear_arith)
                    requires
                        a.bits == d * q + r,
                        a.bits < 0,
                        0 <= r,
                        d >= 1,
                ;
                assert(q >= a.bits) by (nonlinear_arith)
                    requires
                        a.bits == d * q + r,
                        0 <= r < d,
                        q <= -1,
                        d >= 1,
                ;
            }
        }
    }
}

/// A constant `m * 2^e` with `m` odd keeps a nonzero mantissa in every
/// admitted format: an odd multiple of a power of two below 2^32 never
/// wraps to zero.
pub proof fn lemma_from_int_nonzero(m: int, e: nat, f: nat)
    requires
        m % 2 == 1,
        1 <= m,
        e + f <= 31,
        f <= 28,
    ensures
        scalar_from_int(m * pow2(e) as int, f).bits != 0,
{
    let ef = (e + f) as nat;
    let g = (32 - ef) as nat;
    let mm = 0x1_0000_0000;
    vstd::arithmetic::power2::lemma_pow2_adds(e, f);
    lemma_pow2_pos(e);
    lemma_pow2_pos(f);
    lemma_pow2_pos(ef);
    lemma_pow2_pos(g);
    lemma_pow2_pos((g - 1) as nat);
    vstd::arithmetic::power2::lemma_pow2_adds(ef, g);
    lemma2_to64();
    let x = (m * pow2(e) as int) * pow2(f) as int;
    assert(x == m * pow2(ef) as int) by (nonlinear_arith)
        requires
            pow2(e) * pow2(f) == pow2(ef),
            x == (m * pow2(e) as int) * pow2(f) as int,
    ;
    if x % mm == 0 {
        lemma_fundamental_div_mod(x, mm);
        let q = x / mm;
        assert(m == q * pow2(g) as int) by (nonlinear_arith)
            requires
                m * pow2(ef) as int == mm * q,
                mm == pow2(ef) as int * pow2(g) as int,
                pow2(ef) >= 1,
        ;
        assert(pow2(g) == 2 * pow2((g - 1) as nat)) by {
            vstd::arithmetic::power2::lemma_pow2_adds(1nat, (g - 1) as nat);
        }
        assert(m == (q * pow2((g - 1) as nat) as int) * 2) by (nonlinear_arith)
            requires
                m == q * pow2(g) as int,
                pow2(g) == 2 * pow2((g - 1) as nat),
        ;
        assert(m % 2 == 0) by {
            vstd::arithmetic::div_mod::lemma_mod_multiples_basic(
                q * pow2((g - 1) as nat) as int,
                2,
            );
        }
    }
    assert(x % mm != 0);
    lemma_fundamental_div_mod(x, mm);
    vstd::arithmetic::div_mod::lemma_mod_bound(x, mm);
}

/// Bounds on the pi-derived constants, uniform in the format.
pub proof fn lemma_pi_constants(f: nat)
    requires
        f <= 28,
    ensures
        3 <= scalar_pi(f).bits <= 843314856,
        1 <= scalar_pi_half(f).bits <= 421657428,
        6 <= scalar_tau(f).bits <= 1686629713,
{
    lemma_pow2_small((29 - f) as nat);
    lemma_pow2_small((30 - f) as nat);
    lemma_pow2_small((28 - f) as nat);
    lemma2_to64();
    if f < 28 {
        lemma_pow2_strictly_increases(0nat, (29 - f) as nat);
        lemma_pow2_strictly_increases(2nat, (30 - f) as nat);
    }
    let pi29 = PI_BITS_Q29 as int;
    vstd::arithmetic::div_mod::lemma_div_is_ordered_by_denominator(
        pi29,
        pow2((29 - f) as nat) as int,
        0x2000_0000,
    );
    vstd::arithmetic::div_mod::lemma_div_is_ordered_by_denominator(
        pi29,
        2,
        pow2((29 - f) as nat) as int,
    );
    vstd::arithmetic::div_mod::lemma_div_is_ordered_by_denominator(
        pi29,
        pow2((30 - f) as nat) as int,
        0x4000_0000,
    );
    vstd::arithmetic::div_mod::lemma_div_is_ordered_by_denominator(
        pi29,
        4,
        pow2((30 - f) as nat) as int,
    );
    vstd::arithmetic::div_mod::lemma_div_is_ordered_by_denominator(
        pi29,
        pow2((28 - f) as nat) as int,
        0x1000_0000,
    );
    vstd::arithmetic::div_mod::lemma_div_is_ordered_by_denominator(
        pi29,
        1,
        pow2((28 - f) as nat) as int,
    );
    lemma_fundamental_div_mod_converse(pi29, 1, pi29, 0);
}

/// Small powers of two fit comfortably in a machine word.
pub(crate) proof fn lemma_pow2_small(f: nat)
    requires
        f <= 31,
    ensures
        1 <= pow2(f) <= 0x8000_0000,
        f <= 28 ==> pow2(f) <= 0x1000_0000,
        f <= 29 ==> pow2(f) <= 0x2000_0000,
        f <= 30 ==> pow2(f) <= 0x4000_0000,
{
    lemma2_to64();
    lemma_pow2_pos(f);
    if f < 28 {
        lemma_pow2_strictly_increases(f, 28nat);
    }
    if f < 29 {
        lemma_pow2_strictly_increases(f, 29nat);
    }
    if f < 30 {
        lemma_pow2_strictly_increases(f, 30nat);
    }
    if f < 31 {
        lemma_pow2_strictly_increases(f, 31nat);
    }
}

/// Product of two 32-bit-bounded factors stays within 62 bits.
pub(crate) proof fn lemma_mul_i64_fits(a: int, b: int)
    by (nonlinear_arith)
    requires
        -0x8000_0000 <= a <= 0x8000_0000,
        -0x8000_0000 <= b <= 0x8000_0000,
    ensures
        -0x4000_0000_0000_0000 <= a * b <= 0x4000_0000_0000_0000,
{
}

/// 2^k as a machine word.
pub(crate) fn pow2_u64(k: u32) -> (r: u64)
    requires
        k < 64,
    ensures
        r == pow2(k as nat),
        r >= 1,
{
    proof {
        lemma2_to64();
        lemma_pow2_pos(k as nat);
        if (k as nat) < 64 {
            lemma_pow2_strictly_increases(k as nat, 64);
        }
        lemma_u64_shl_is_mul(1u64, k as u64);
    }
    1u64 << (k as u64)
}

/// Floor division of `x` by a positive divisor `d` (Euclidean division,
/// since `d > 0`).
pub(crate) fn floor_div_i64(x: i64, d: i64) -> (r: i64)
    requires
        x > i64::MIN,
        0 < d <= 0x1_0000_0000_0000,
    ensures
        r as int == (x as int) / (d as int),
        x >= 0 ==> 0 <= r <= x,
        x < 0 ==> x <= r <= 0,
{
    if x >= 0 {
        let q = (x as u64) / (d as u64);
        proof {
            lemma_div_nonincreasing(x as int, d as int);
            lemma_div_pos_is_pos(x as int, d as int);
        }
        q as i64
    } else {
        let mag = (-x) as u64;
        let du = d as u64;
        let q = (mag + du - 1) / du;
        proof {
            let mi = mag as int;
            let di = d as int;
            lemma_fundamental_div_mod(mi, di);
            let qm = mi / di;
            let rm = mi % di;
            lemma_div_pos_is_pos(mi, di);
            lemma_div_nonincreasing(mi, di);
            if rm == 0 {
                assert(mi + di - 1 == qm * di + (di - 1) && -mi == (-qm) * di + 0)
                    by (nonlinear_arith)
                    requires
                        mi == di * qm + rm,
                        rm == 0,
                ;
                lemma_fundamental_div_mod_converse(mi + di - 1, di, qm, di - 1);
                lemma_fundamental_div_mod_converse(-mi, di, -qm, 0);
            } else {
                assert(di != 1) by {
                    lemma_fundamental_div_mod_converse(mi, 1, mi, 0);
                }
                vstd::arithmetic::div_mod::lemma_div_decreases(mi, di);
                assert(mi + di - 1 == (qm + 1) * di + (rm - 1) && -mi == (-(qm + 1)) * di + (di
                    - rm))
                    by (nonlinear_arith)
                    requires
                        mi == di * qm + rm,
                ;
                lemma_fundamental_div_mod_converse(mi + di - 1, di, qm + 1, rm - 1);
                lemma_fundamental_div_mod_converse(-mi, di, -(qm + 1), di - rm);
            }
        }
        -(q as i64)
    }
}

/// Wrap an `i64` into the 32-bit two's-complement range.
pub(crate) fn crop_i64(x: i64) -> (r: i32)
    requires
        x > i64::MIN,
    ensures
        r as int == crop32(x as int),
{
    let m: u64 = if x >= 0 {
        (x as u64) % 0x1_0000_0000u64
    } else {
        let rm = ((-x) as u64) % 0x1_0000_0000u64;
        if rm == 0 {
            0
        } else {
            0x1_0000_0000u64 - rm
        }
    };
    proof {
        let mm = 0x1_0000_0000;
        if x < 0 {
            let mag = -(x as int);
            lemma_fundamental_div_mod(mag, mm);
            let qm = mag / mm;
            let rm = mag % mm;
            if rm == 0 {
                assert(-mag == (-qm) * mm + 0) by (nonlinear_arith)
                    requires
                        mag == mm * qm + rm,
                        rm == 0,
                ;
                lemma_fundamental_div_mod_converse(x as int, mm, -qm, 0);
            } else {
                assert(-mag == (-(qm + 1)) * mm + (mm - rm)) by (nonlinear_arith)
                    requires
                        mag == mm * qm + rm,
                ;
                lemma_fundamental_div_mod_converse(x as int, mm, -(qm + 1), mm - rm);
            }
        }
        assert(m as int == (x as int) % mm);
    }
    if m >= 0x8000_0000u64 {
        ((m as i64) - 0x1_0000_0000i64) as i32
    } else {
        m as i32
    }
}

impl Scalar {
    /// Build a scalar directly from a mantissa.
    pub fn from_bits(bits: i32, frac: u32) -> (r: Scalar)
        ensures
            r@ == (ScalarV { bits: bits as int, frac: frac as nat }),
    {
        Scalar { bits, frac }
    }

    /// The integer `i` in format `frac` (wrapping if it does not fit).
    pub fn from_int(i: i32, frac: u32) -> (r: Scalar)
        requires
            frac <= MAX_FRAC,
        ensures
            r@ == scalar_from_int(i as int, frac as nat),
            r@.wf(),
    {
        let p = pow2_u64(frac) as i64;
        proof {
            lemma_pow2_small(frac as nat);
            lemma_mul_i64_fits(i as int, p as int);
            lemma_crop32_range((i as int) * pow2(frac as nat));
        }
        Scalar { bits: crop_i64((i as i64) * p), frac }
    }

    /// The ratio `n / d` (with `d > 0`) in format `frac`, rounded toward
    /// negative infinity (wrapping if it does not fit).
    pub fn from_ratio(n: i32, d: i32, frac: u32) -> (r: Scalar)
        requires
            frac <= MAX_FRAC,
            d > 0,
        ensures
            r@ == scalar_from_ratio(n as int, d as int, frac as nat),
            r@.wf(),
    {
        let p = pow2_u64(frac) as i64;
        proof {
            lemma_pow2_small(frac as nat);
            lemma_mul_i64_fits(n as int, p as int);
        }
        let q = floor_div_i64((n as i64) * p, d as i64);
        let r = Scalar { bits: crop_i64(q), frac };
        proof {
            lemma_crop32_range(fdiv((n as int) * pow2(frac as nat) as int, d as int));
        }
        r
    }

    /// The format's largest representable value.
    pub fn max_val(frac: u32) -> (r: Scalar)
        ensures
            r@ == scalar_max(frac as nat),
    {
        Scalar { bits: i32::MAX, frac }
    }

    /// The constant pi in format `frac`.
    pub fn pi(frac: u32) -> (r: Scalar)
        requires
            frac <= MAX_FRAC,
        ensures
            r@ == scalar_pi(frac as nat),
            r@.wf(),
            r@.bits > 0,
    {
        proof {
            lemma_pow2_small((29 - frac) as nat);
        }
        let p = pow2_u64(29 - frac) as i64;
        let b = floor_div_i64(PI_BITS_Q29, p);
        proof {
            lemma_div_pos_is_pos(PI_BITS_Q29 as int, pow2((29 - frac) as nat) as int);
            lemma_div_nonincreasing(PI_BITS_Q29 as int, pow2((29 - frac) as nat) as int);
            assert(b > 0) by {
                vstd::arithmetic::div_mod::lemma_div_is_ordered_by_denominator(
                    PI_BITS_Q29 as int,
                    pow2((29 - frac) as nat) as int,
                    0x2000_0000,
                );
            }
        }
        Scalar { bits: b as i32, frac }
    }

    /// The constant tau = 2 * pi in format `frac`.
    pub fn tau(frac: u32) -> (r: Scalar)
        requires
            frac <= MAX_FRAC,
        ensures
            r@ == scalar_tau(frac as nat),
            r@.wf(),
            r@.bits > 0,
    {
        proof {
            lemma_pow2_small((28 - frac) as nat);
        }
        let p = pow2_u64(28 - frac) as i64;
        let b = floor_div_i64(PI_BITS_Q29, p);
        proof {
            lemma_div_pos_is_pos(PI_BITS_Q29 as int, pow2((28 - frac) as nat) as int);
            lemma_div_nonincreasing(PI_BITS_Q29 as int, pow2((28 - frac) as nat) as int);
            assert(b > 0) by {
                vstd::arithmetic::div_mod::lemma_div_is_ordered_by_denominator(
                    PI_BITS_Q29 as int,
                    pow2((28 - frac) as nat) as int,
                    0x1000_0000,
                );
            }
        }
        Scalar { bits: b as i32, frac }
    }

    /// The constant pi / 2 in format `frac`.
    pub fn pi_half(frac: u32) -> (r: Scalar)
        requires
            frac <= MAX_FRAC,
        ensures
            r@ == scalar_pi_half(frac as nat),
            r@.wf(),
            r@.bits >= 0,
    {
        proof {
            lemma_pow2_small((30 - frac) as nat);
        }
        let p = pow2_u64(30 - frac) as i64;
        let b = floor_div_i64(PI_BITS_Q29, p);
        proof {
            lemma_div_pos_is_pos(PI_BITS_Q29 as int, pow2((30 - frac) as nat) as int);
            lemma_div_nonincreasing(PI_BITS_Q29 as int, pow2((30 - frac) as nat) as int);
        }
        Scalar { bits: b as i32, frac }
    }

    /// Wrapping addition of two scalars of one format.
    pub fn add(self, other: Scalar) -> (r: Scalar)
        requires
            self@.frac == other@.frac,
        ensures
            r@ == scalar_add(self@, other@),
            r@.wf() || !self@.wf(),
    {
        let r = Scalar { bits: crop_i64(self.bits as i64 + other.bits as i64), frac: self.frac };
        proof {
            lemma_crop32_range(self@.bits + other@.bits);
        }
        r
    }

    /// Wrapping subtraction of two scalars of one format.
    pub fn sub(self, other: Scalar) -> (r: Scalar)
        requires
            self@.frac == other@.frac,
        ensures
            r@ == scalar_sub(self@, other@),
            r@.wf() || !self@.wf(),
    {
        let r = Scalar { bits: crop_i64(self.bits as i64 - other.bits as i64), frac: self.frac };
        proof {
            lemma_crop32_range(self@.bits - other@.bits);
        }
        r
    }

    /// Wrapping negation.
    pub fn neg(self) -> (r: Scalar)
        ensures
            r@ == scalar_neg(self@),
            r@.wf() || !self@.wf(),
    {
        let r = Scalar { bits: crop_i64(-(self.bits as i64)), frac: self.frac };
        proof {
            lemma_crop32_range(-self@.bits);
        }
        r
    }

    /// Absolute value; the most negative mantissa wraps to itself.
    pub fn abs(self) -> (r: Scalar)
        ensures
            r@ == scalar_abs(self@),
            r@.wf() || !self@.wf(),
    {
        if self.bits >= 0 {
            self
        } else {
            let r = Scalar { bits: crop_i64(-(self.bits as i64)), frac: self.frac };
            proof {
                lemma_crop32_range(-self@.bits);
            }
            r
        }
    }

    /// Fixed-point multiplication: the double-width product shifted down
    /// by the format width, rounding toward negative infinity, wrapping.
    pub fn mul(self, other: Scalar) -> (r: Scalar)
        requires
            self@.frac == other@.frac,
            self@.wf(),
        ensures
            r@ == scalar_mul(self@, other@),
            r@.wf(),
    {
        proof {
            lemma_pow2_small(self@.frac);
            lemma_mul_i64_fits(self@.bits, other@.bits);
        }
        let p = (self.bits as i64) * (other.bits as i64);
        let d = pow2_u64(self.frac) as i64;
        let q = floor_div_i64(p, d);
        let r = Scalar { bits: crop_i64(q), frac: self.frac };
        proof {
            lemma_crop32_range((self@.bits * other@.bits) / pow2(self@.frac) as int);
        }
        r
    }

    /// Fixed-point division by a nonzero scalar of the same format,
    /// rounding toward negative infinity, wrapping.
    pub fn div(self, other: Scalar) -> (r: Scalar)
        requires
            self@.frac == other@.frac,
            self@.wf(),
            other@.bits != 0,
        ensures
            r@ == scalar_div(self@, other@),
            r@.wf(),
    {
        let p = pow2_u64(self.frac) as i64;
        proof {
            lemma_pow2_small(self@.frac);
            lemma_mul_i64_fits(self@.bits, p as int);
        }
        let num = (self.bits as i64) * p;
        let q = if other.bits > 0 {
            floor_div_i64(num, other.bits as i64)
        } else {
            floor_div_i64(-num, -(other.bits as i64))
        };
        let r = Scalar { bits: crop_i64(q), frac: self.frac };
        proof {
            lemma_crop32_range(fdiv(self@.bits * pow2(self@.frac) as int, other@.bits));
        }
        r
    }

    /// Arithmetic right shift by `k`: floor division by 2^k.
    pub fn shr(self, k: u32) -> (r: Scalar)
        ensures
            r@ == scalar_shr(self@, k as nat),
            r@.wf() || !self@.wf(),
    {
        if k >= 32 {
            proof {
                lemma2_to64();
                if k > 32 {
                    lemma_pow2_strictly_increases(32nat, k as nat);
                }
                if self@.bits >= 0 {
                    vstd::arithmetic::div_mod::lemma_basic_div(self@.bits, pow2(k as nat) as int);
                } else {
                    lemma_fundamental_div_mod_converse(
                        self@.bits,
                        pow2(k as nat) as int,
                        -1,
                        pow2(k as nat) as int + self@.bits,
                    );
                }
            }
            if self.bits >= 0 {
                Scalar { bits: 0, frac: self.frac }
            } else {
                Scalar { bits: -1, frac: self.frac }
            }
        } else {
            proof {
                lemma_pow2_small(k as nat);
            }
            let d = pow2_u64(k) as i64;
            let q = floor_div_i64(self.bits as i64, d);
            Scalar { bits: q as i32, frac: self.frac }
        }
    }

    /// Mantissa comparison: `self < other` for one shared format.
    pub fn lt(self, other: Scalar) -> (r: bool)
        requires
            self@.frac == other@.frac,
        ensures
            r == (self@.bits < other@.bits),
    {
        self.bits < other.bits
    }

    /// Mantissa comparison: `self <= other` for one shared format.
    pub fn le(self, other: Scalar) -> (r: bool)
        requires
            self@.frac == other@.frac,
        ensures
            r == (self@.bits <= other@.bits),
    {
        self.bits <= other.bits
    }

    /// Whether the scalar is strictly negative.
    pub fn is_negative(self) -> (r: bool)
        ensures
            r == (self@.bits < 0),
    {
        self.bits < 0
    }

    /// Whether the scalar is strictly positive.
    pub fn is_positive(self) -> (r: bool)
        ensures
            r == (self@.bits > 0),
    {
        self.bits > 0
    }

    /// Whether the scalar is exactly zero.
    pub fn is_zero(self) -> (r: bool)
        ensures
            r == (self@.bits == 0),
    {
        self.bits == 0
    }
}

} // verus!

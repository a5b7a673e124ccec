//! The radix-2 decimation-in-frequency FFT/IFFT engine.
//!
//! The transform runs in place on a caller-owned buffer of
//! [`Complex`] samples whose length must be an exact power of two; any
//! other length is rejected with [`FftError::InvalidLength`] before the
//! buffer is touched.  The engine has three parts: an ephemeral twiddle
//! table built by incremental phase accumulation through the polynomial
//! sine and cosine, the staged butterfly network shared by both
//! directions, and a final in-place bit-reversal permutation.  The
//! forward direction halves both butterfly operands at every stage (an
//! overall 1/N normalization); the inverse direction leaves them
//! unscaled, carrying the transform's inherent N-fold gain, so a round
//! trip reproduces the input up to the forward halvings' rounding (see
//! [`lemma_round_trip_all_equal`]).

use vstd::prelude::*;

verus! {

use vstd::arithmetic::power2::pow2;
use vstd::arithmetic::power2::is_pow2;
use vstd::arithmetic::power2::lemma_pow2_pos;
use vstd::arithmetic::power2::lemma_pow2_adds;
use vstd::arithmetic::power2::lemma_pow2_strictly_increases;
use vstd::arithmetic::power2::lemma2_to64;
use vstd::arithmetic::div_mod::lemma_fundamental_div_mod;
use vstd::arithmetic::div_mod::lemma_fundamental_div_mod_converse;
use crate::scalar::MAX_FRAC;
use crate::scalar::Scalar;
use crate::scalar::ScalarV;
use crate::scalar::scalar_add;
use crate::scalar::scalar_neg;
use crate::scalar::scalar_shr;
use crate::scalar::scalar_from_int;
use crate::scalar::scalar_tau;
use crate::complex::Complex;
use crate::complex::ComplexV;
use crate::complex::complex_add;
use crate::complex::complex_sub;
use crate::complex::complex_mul;
use crate::complex::complex_div_scalar;
use crate::spec_sin;
use crate::spec_cos;

/// The error classification of the transform: the one rejected input
/// shape is a buffer whose length is not a power of two.
#[derive(Clone, Copy, PartialEq, Eq, Structural, Debug)]
pub enum FftError {
    InvalidLength,
}

/// The mathematical view of a sample buffer.
pub open spec fn bufv(s: Seq<Complex>) -> Seq<ComplexV> {
    s.map_values(|c: Complex| c@)
}

/// The format shared by a buffer's samples (read off the first sample).
pub open spec fn buf_frac(s: Seq<ComplexV>) -> nat {
    if s.len() > 0 {
        s[0].re.frac
    } else {
        0
    }
}

/// Every sample well formed, in the one format `f`.
pub open spec fn buf_wf(s: Seq<ComplexV>, f: nat) -> bool {
    forall|i: int| 0 <= i < s.len() ==> s[i].wf(f)
}

/// Model of the per-stage base phase increment: `dir * (-tau) >> log2(n)`,
/// with the forward direction carrying the negative sign.
pub open spec fn spec_angle(f: nat, l: nat, forward: bool) -> ScalarV {
    if forward {
        scalar_shr(scalar_neg(scalar_tau(f)), l)
    } else {
        scalar_shr(scalar_tau(f), l)
    }
}

/// Model of the accumulated phase after `i` steps of size `angle`
/// (`i >= 1`): the running sum the twiddle generator maintains.
pub open spec fn spec_phase(angle: ScalarV, i: nat) -> ScalarV
    decreases i,
{
    if i <= 1 {
        angle
    } else {
        scalar_add(spec_phase(angle, (i - 1) as nat), angle)
    }
}

/// Model of the `i`-th twiddle factor: no rotation at index zero, and the
/// polynomial cosine and sine of the accumulated phase after that.
pub open spec fn spec_twiddle(f: nat, angle: ScalarV, i: nat) -> ComplexV {
    if i == 0 {
        ComplexV { re: scalar_from_int(1, f), im: scalar_from_int(0, f) }
    } else {
        ComplexV { re: spec_cos(spec_phase(angle, i)), im: spec_sin(spec_phase(angle, i)) }
    }
}

/// Model of the whole twiddle table of `m` factors.
pub open spec fn spec_twiddles(f: nat, angle: ScalarV, m: nat) -> Seq<ComplexV> {
    Seq::new(m as nat, |i: int| spec_twiddle(f, angle, i as nat))
}

/// Model of the pre-combine scaling: the forward direction halves the
/// operand to avoid overflow, the inverse leaves it untouched.
pub open spec fn spec_scale(c: ComplexV, forward: bool, f: nat) -> ComplexV {
    if forward {
        complex_div_scalar(c, scalar_from_int(2, f))
    } else {
        c
    }
}

/// Model of one butterfly stage over the whole buffer (stage numbers run
/// from 1 to `l`).  The buffer splits into `2^(stage-1)` blocks of length
/// `n / 2^(stage-1)`; inside a block, position `j` of the first half and
/// position `j` of the second half combine into their sum and into their
/// twiddled difference, with twiddle index `j * 2^(stage-1)`.
pub open spec fn spec_stage(
    prev: Seq<ComplexV>,
    w: Seq<ComplexV>,
    n: nat,
    l: nat,
    stage: nat,
    forward: bool,
    f: nat,
) -> Seq<ComplexV> {
    let nb = pow2((stage - 1) as nat);
    let hb = pow2((l - stage) as nat);
    let bl = 2 * hb;
    Seq::new(
        n as nat,
        |idx: int|
            {
                let off = idx % (bl as int);
                if off < hb {
                    complex_add(
                        spec_scale(prev[idx], forward, f),
                        spec_scale(prev[idx + hb], forward, f),
                    )
                } else {
                    complex_mul(
                        complex_sub(
                            spec_scale(prev[idx - hb], forward, f),
                            spec_scale(prev[idx], forward, f),
                        ),
                        w[(off - hb) * nb],
                    )
                }
            },
    )
}

/// Model of the first `s` butterfly stages applied in order.
pub open spec fn spec_stages(
    input: Seq<ComplexV>,
    w: Seq<ComplexV>,
    n: nat,
    l: nat,
    s: nat,
    forward: bool,
    f: nat,
) -> Seq<ComplexV>
    decreases s,
{
    if s == 0 {
        input
    } else {
        spec_stage(spec_stages(input, w, n, l, (s - 1) as nat, forward, f), w, n, l, s, forward, f)
    }
}

/// Model of the whole transform in one direction: all `log2(n)` butterfly
/// stages over the twiddle table, then the bit-reversal permutation.
pub open spec fn spec_fft_dir(input: Seq<ComplexV>, f: nat, forward: bool) -> Seq<ComplexV> {
    let n = input.len();
    let l = lg2(n);
    let w = spec_twiddles(f, spec_angle(f, l, forward), n / 2);
    bitrev_perm(spec_stages(input, w, n, l, l, forward, f), l)
}

/// Butterfly computation for decimation-in-frequency: the pair becomes
/// its sum and its twiddled difference.
fn butterfly_df(a: &mut Complex, b: &mut Complex, w: Complex)
    requires
        old(a)@.wf(old(a)@.re.frac),
        old(b)@.wf(old(a)@.re.frac),
        w@.wf(old(a)@.re.frac),
    ensures
        final (a)@ == complex_add(old(a)@, old(b)@),
        final (b)@ == complex_mul(complex_sub(old(a)@, old(b)@), w@),
{
    let temp_a = crate::complex::add(*a, *b);
    let temp_b = crate::complex::mul_cartesian(crate::complex::sub(*a, *b), w);

    *a = temp_a;
    *b = temp_b;
}

/// The block geometry of stage `stage` in a buffer of length `n == 2^l`:
/// half-block and block lengths, the block count, and how an index in a
/// block's first or second half relates to its butterfly partner.
proof fn lemma_stage_index(n: nat, l: nat, stage: nat, idx: int)
    requires
        n == pow2(l),
        1 <= stage <= l,
        0 <= idx < n,
    ensures
        ({
            let nb = pow2((stage - 1) as nat);
            let hb = pow2((l - stage) as nat);
            let bl = 2 * hb;
            let off = idx % (bl as int);
            &&& bl == pow2((l - stage + 1) as nat)
            &&& bl * nb == n
            &&& hb * nb == n / 2
            &&& 2 * (n / 2) == n
            &&& 0 <= off < bl
            &&& idx / (bl as int) < nb
            &&& (off < hb ==> idx + hb < n && (idx + hb) % (bl as int) == off + hb && (idx + hb)
                / (bl as int) == idx / (bl as int))
            &&& (off >= hb ==> 0 <= idx - hb && (idx - hb) % (bl as int) == off - hb && (idx - hb)
                / (bl as int) == idx / (bl as int))
            &&& (off >= hb ==> (off - hb) * nb < n / 2)
        }),
{
    let nb = pow2((stage - 1) as nat);
    let hb = pow2((l - stage) as nat);
    let bl = 2 * hb;
    lemma_pow2_pos((stage - 1) as nat);
    lemma_pow2_pos((l - stage) as nat);
    lemma_pow2_pos((l - stage + 1) as nat);
    lemma_pow2_pos(l);
    lemma_pow2_adds(1nat, (l - stage) as nat);
    lemma_pow2_adds((l - stage + 1) as nat, (stage - 1) as nat);
    lemma_pow2_adds((l - stage) as nat, (stage - 1) as nat);
    lemma_pow2_adds((l - 1) as nat, 1nat);
    lemma2_to64();
    assert(bl == pow2((l - stage + 1) as nat));
    assert(bl * nb == n);
    assert(hb * nb == pow2((l - 1) as nat));
    assert(n == 2 * pow2((l - 1) as nat));
    assert(n / 2 == pow2((l - 1) as nat)) by {
        vstd::arithmetic::div_mod::lemma_div_multiples_vanish(pow2((l - 1) as nat) as int, 2);
    }
    lemma_fundamental_div_mod(idx, bl as int);
    vstd::arithmetic::div_mod::lemma_mod_bound(idx, bl as int);
    let q = idx / (bl as int);
    let off = idx % (bl as int);
    assert(q >= 0) by {
        vstd::arithmetic::div_mod::lemma_div_pos_is_pos(idx, bl as int);
    }
    assert(q < nb) by {
        if q >= nb {
            assert((bl as int) * q >= bl * nb) by (nonlinear_arith)
                requires
                    q >= nb,
                    bl >= 1,
            ;
        }
    }
    if off < hb {
        assert(idx + hb < n) by {
            assert((bl as int) * q <= (bl as int) * (nb - 1)) by (nonlinear_arith)
                requires
                    q <= nb - 1,
                    bl >= 1,
            ;
            assert((bl as int) * (nb - 1) == bl * nb - bl) by (nonlinear_arith);
        }
        assert(idx + hb == q * (bl as int) + (off + hb)) by (nonlinear_arith)
            requires
                idx == (bl as int) * q + off,
        ;
        lemma_fundamental_div_mod_converse(idx + hb, bl as int, q, off + hb);
    }
    if off >= hb {
        assert(idx - hb == q * (bl as int) + (off - hb)) by (nonlinear_arith)
            requires
                idx == (bl as int) * q + off,
        ;
        lemma_fundamental_div_mod_converse(idx - hb, bl as int, q, off - hb);
        assert((off - hb) * nb < n / 2) by {
            assert(off - hb < hb);
            assert((off - hb) * nb < hb * nb) by (nonlinear_arith)
                requires
                    0 <= off - hb < hb,
                    nb >= 1,
            ;
        }
    }
}

/// One butterfly stage preserves buffer well-formedness.
proof fn lemma_stage_wf(
    prev: Seq<ComplexV>,
    w: Seq<ComplexV>,
    n: nat,
    l: nat,
    stage: nat,
    forward: bool,
    f: nat,
)
    requires
        n == pow2(l),
        1 <= stage <= l,
        prev.len() == n,
        buf_wf(prev, f),
        forall|k: int| 0 <= k < n / 2 ==> w[k].wf(f),
        f <= MAX_FRAC,
    ensures
        spec_stage(prev, w, n, l, stage, forward, f).len() == n,
        buf_wf(spec_stage(prev, w, n, l, stage, forward, f), f),
{
    let out = spec_stage(prev, w, n, l, stage, forward, f);
    assert forall|idx: int| 0 <= idx < n implies out[idx].wf(f) by {
        lemma_stage_index(n, l, stage, idx);
        let hb = pow2((l - stage) as nat);
        let bl = 2 * hb;
        let off = idx % (bl as int);
        if off < hb {
            crate::complex::lemma_complex_ops_wf(
                spec_scale(prev[idx], forward, f),
                spec_scale(prev[idx + hb], forward, f),
                scalar_from_int(2, f),
                f,
            );
            crate::complex::lemma_complex_ops_wf(prev[idx], prev[idx], scalar_from_int(2, f), f);
        } else {
            crate::complex::lemma_complex_ops_wf(prev[idx - hb], prev[idx - hb], scalar_from_int(2, f), f);
            crate::complex::lemma_complex_ops_wf(prev[idx], prev[idx], scalar_from_int(2, f), f);
            crate::complex::lemma_complex_ops_wf(
                complex_sub(
                    spec_scale(prev[idx - hb], forward, f),
                    spec_scale(prev[idx], forward, f),
                ),
                prev[idx],
                scalar_from_int(2, f),
                f,
            );
            crate::complex::lemma_complex_ops_wf(
                spec_scale(prev[idx - hb], forward, f),
                spec_scale(prev[idx], forward, f),
                scalar_from_int(2, f),
                f,
            );
        }
    }
}

/// The view of a buffer after a point update is the pointwise update of
/// its view.
proof fn lemma_bufv_update(s: Seq<Complex>, i: int, c: Complex)
    requires
        0 <= i < s.len(),
    ensures
        bufv(s.update(i, c)) == bufv(s).update(i, c@),
{
    assert(bufv(s.update(i, c)) =~= bufv(s).update(i, c@));
}

/// A butterfly stage in mid-flight: blocks before `b` are done, and in
/// block `b` the butterflies before `j` are done; everything else still
/// holds the previous stage's samples.
pub open spec fn stage_partial(
    prev: Seq<ComplexV>,
    stagev: Seq<ComplexV>,
    bl: nat,
    hb: nat,
    b: nat,
    j: nat,
) -> Seq<ComplexV> {
    Seq::new(
        prev.len(),
        |idx: int|
            if idx / (bl as int) < b || (idx / (bl as int) == b && (idx % (bl as int)) % (
            hb as int) < j) {
                stagev[idx]
            } else {
                prev[idx]
            },
    )
}

/// Completing block `b` moves the frontier to the start of block `b + 1`,
/// and completing the last block completes the stage.
proof fn lemma_partial_block_done(
    prev: Seq<ComplexV>,
    stagev: Seq<ComplexV>,
    n: nat,
    l: nat,
    stage: nat,
    b: nat,
)
    requires
        n == pow2(l),
        1 <= stage <= l,
        prev.len() == n,
        stagev.len() == n,
        b < pow2((stage - 1) as nat),
    ensures
        stage_partial(prev, stagev, 2 * pow2((l - stage) as nat), pow2((l - stage) as nat), b,
            pow2((l - stage) as nat)) == stage_partial(prev, stagev, 2 * pow2((l - stage) as nat),
            pow2((l - stage) as nat), b + 1, 0),
        b + 1 == pow2((stage - 1) as nat) ==> stage_partial(prev, stagev, 2 * pow2((l - stage) as nat),
            pow2((l - stage) as nat), b + 1, 0) == stagev,
{
    let hb = pow2((l - stage) as nat);
    let bl = 2 * hb;
    assert(stage_partial(prev, stagev, bl, hb, b, hb) =~= stage_partial(prev, stagev, bl, hb, b + 1, 0))
        by {
        assert forall|k: int| 0 <= k < n implies #[trigger] stage_partial(prev, stagev, bl, hb, b, hb)[k]
            == stage_partial(prev, stagev, bl, hb, b + 1, 0)[k] by {
            lemma_stage_index(n, l, stage, k);
            vstd::arithmetic::div_mod::lemma_mod_bound(k % (bl as int), hb as int);
        }
    }
    if b + 1 == pow2((stage - 1) as nat) {
        assert(stage_partial(prev, stagev, bl, hb, b + 1, 0) =~= stagev) by {
            assert forall|k: int| 0 <= k < n implies #[trigger] stage_partial(prev, stagev, bl, hb,
                b + 1, 0)[k] == stagev[k] by {
                lemma_stage_index(n, l, stage, k);
            }
        }
    }
}

/// Writing one butterfly's two outputs moves the in-stage frontier from
/// butterfly `j` to butterfly `j + 1` of block `b`.
proof fn lemma_partial_step(
    prev: Seq<ComplexV>,
    wv: Seq<ComplexV>,
    n: nat,
    l: nat,
    stage: nat,
    b: nat,
    j: nat,
    forward: bool,
    f: nat,
)
    requires
        n == pow2(l),
        1 <= stage <= l,
        prev.len() == n,
        b < pow2((stage - 1) as nat),
        j < pow2((l - stage) as nat),
    ensures
        ({
            let nb = pow2((stage - 1) as nat);
            let hb = pow2((l - stage) as nat);
            let bl = 2 * hb;
            let stagev = spec_stage(prev, wv, n, l, stage, forward, f);
            let pa = b * bl + j;
            let pb = b * bl + hb + j;
            &&& pa < n
            &&& pb < n
            &&& pa != pb
            &&& stage_partial(prev, stagev, bl, hb, b, j)[pa as int] == prev[pa as int]
            &&& stage_partial(prev, stagev, bl, hb, b, j)[pb as int] == prev[pb as int]
            &&& stage_partial(prev, stagev, bl, hb, b, j).update(
                pa as int,
                complex_add(
                    spec_scale(prev[pa as int], forward, f),
                    spec_scale(prev[pb as int], forward, f),
                ),
            ).update(
                pb as int,
                complex_mul(
                    complex_sub(
                        spec_scale(prev[pa as int], forward, f),
                        spec_scale(prev[pb as int], forward, f),
                    ),
                    wv[(j * nb) as int],
                ),
            ) == stage_partial(prev, stagev, bl, hb, b, j + 1)
        }),
{
    let nb = pow2((stage - 1) as nat);
    let hb = pow2((l - stage) as nat);
    let bl = 2 * hb;
    let stagev = spec_stage(prev, wv, n, l, stage, forward, f);
    let pa = b * bl + j;
    let pb = b * bl + hb + j;
    lemma_pow2_pos((stage - 1) as nat);
    lemma_pow2_pos((l - stage) as nat);
    lemma_stage_index_base(n, l, stage);
    assert((b as int) * (bl as int) + bl <= n) by (nonlinear_arith)
        requires
            b < nb,
            (bl as int) * (nb as int) == n,
            bl >= 1,
    ;
    assert(pa == (bl as int) * (b as int) + j && pb == (bl as int) * (b as int) + (hb + j))
        by (nonlinear_arith)
        requires
            pa == b * bl + j,
            pb == b * bl + hb + j,
    ;
    lemma_fundamental_div_mod_converse(pa as int, bl as int, b as int, j as int);
    lemma_fundamental_div_mod_converse(pb as int, bl as int, b as int, hb as int + j);
    vstd::arithmetic::div_mod::lemma_small_mod(j, hb);
    lemma_mod_shift_half(hb, j);
    lemma_stage_index(n, l, stage, pa as int);
    lemma_stage_index(n, l, stage, pb as int);
    let upd = stage_partial(prev, stagev, bl, hb, b, j).update(
        pa as int,
        complex_add(spec_scale(prev[pa as int], forward, f), spec_scale(prev[pb as int], forward, f)),
    ).update(
        pb as int,
        complex_mul(
            complex_sub(
                spec_scale(prev[pa as int], forward, f),
                spec_scale(prev[pb as int], forward, f),
            ),
            wv[(j * nb) as int],
        ),
    );
    assert(upd =~= stage_partial(prev, stagev, bl, hb, b, j + 1)) by {
        assert forall|k: int| 0 <= k < n implies #[trigger] stage_partial(prev, stagev, bl, hb, b, j
            + 1)[k] == upd[k] by {
            lemma_stage_index(n, l, stage, k);
            let off = k % (bl as int);
            if k == pa {
                assert(stagev[k] == complex_add(
                    spec_scale(prev[k], forward, f),
                    spec_scale(prev[k + hb], forward, f),
                ));
            } else if k == pb {
                assert(stagev[k] == complex_mul(
                    complex_sub(
                        spec_scale(prev[k - hb], forward, f),
                        spec_scale(prev[k], forward, f),
                    ),
                    wv[(off - hb) * (nb as int)],
                ));
            } else {
                if k / (bl as int) == b && off % (hb as int) == j {
                    lemma_off_is_pa_or_pb(n, l, stage, k, b, j);
                }
            }
        }
    }
}

/// The multiplied-out sizes of one stage's geometry.
proof fn lemma_stage_index_base(n: nat, l: nat, stage: nat)
    requires
        n == pow2(l),
        1 <= stage <= l,
    ensures
        (2 * pow2((l - stage) as nat)) * pow2((stage - 1) as nat) == n,
        pow2((l - stage) as nat) * pow2((stage - 1) as nat) == n / 2,
        2 * (n / 2) == n,
        n / pow2((stage - 1) as nat) == 2 * pow2((l - stage) as nat),
        n / pow2(stage as nat) == pow2((l - stage) as nat),
{
    lemma_pow2_pos((stage - 1) as nat);
    lemma_pow2_pos((l - stage) as nat);
    lemma_pow2_pos((l - stage + 1) as nat);
    lemma_pow2_pos(l);
    lemma_pow2_pos(stage as nat);
    lemma_pow2_adds(1nat, (l - stage) as nat);
    lemma_pow2_adds((l - stage + 1) as nat, (stage - 1) as nat);
    lemma_pow2_adds((l - stage) as nat, (stage - 1) as nat);
    lemma_pow2_adds((l - 1) as nat, 1nat);
    lemma2_to64();
    assert(n / 2 == pow2((l - 1) as nat)) by {
        vstd::arithmetic::div_mod::lemma_div_multiples_vanish(pow2((l - 1) as nat) as int, 2);
    }
    vstd::arithmetic::power2::lemma_pow2_subtracts((stage - 1) as nat, l);
    vstd::arithmetic::power2::lemma_pow2_subtracts(stage as nat, l);
    lemma_pow2_adds(1nat, (l - stage) as nat);
    assert(pow2((l - stage + 1) as nat) == 2 * pow2((l - stage) as nat));
}

/// Build the twiddle table for a length-`n` transform: factor 0 is no
/// rotation, and factors 1 to n/2 - 1 evaluate the polynomial cosine and
/// sine of one running phase advanced by `angle` at each step.
fn make_twiddles(n: usize, frac: u32, angle: Scalar, Ghost(f): Ghost<nat>, Ghost(av): Ghost<ScalarV>) -> (w:
    Vec<Complex>)
    requires
        frac as nat == f,
        f <= MAX_FRAC,
        angle@ == av,
        av.wf(),
    ensures
        w@.len() >= n / 2,
        forall|k: int| 0 <= k < n / 2 ==> bufv(w@)[k] == spec_twiddles(f, av, (n / 2) as nat)[k],
{
    let mut w: Vec<Complex> = Vec::with_capacity(n / 2);
    w.push(Complex { re: Scalar::from_int(1, frac), im: Scalar::from_int(0, frac) });

    let mut phi = angle;
    let mut i: usize = 1;
    while i < n / 2
        invariant
            1 <= i,
            i <= n / 2 || i == 1,
            w@.len() == i,
            frac as nat == f,
            f <= MAX_FRAC,
            angle@ == av,
            av.wf(),
            phi@ == spec_phase(av, i as nat),
            phi@.wf(),
            forall|k: int| 0 <= k < i ==> (#[trigger] w@[k])@ == spec_twiddle(f, av, k as nat),
        decreases n / 2 - i,
    {
        let re = crate::cos(phi);
        let im = crate::sin(phi);

        w.push(Complex { re, im });
        proof {
            lemma_phase_frac(av, i as nat);
        }
        phi = phi.add(angle);
        i = i + 1;
    }
    w
}

/// One in-place butterfly stage: for every block and butterfly index,
/// read the pair, scale it in the forward direction, and write back the
/// sum and the twiddled difference.
#[verifier::loop_isolation(false)]
fn stage_pass(
    vec: &mut Vec<Complex>,
    w: &Vec<Complex>,
    num_blocks: usize,
    num_butt: usize,
    forward: bool,
    two: Scalar,
    Ghost(f): Ghost<nat>,
    Ghost(big_l): Ghost<nat>,
    Ghost(stage): Ghost<nat>,
    Ghost(wv): Ghost<Seq<ComplexV>>,
)
    requires
        old(vec)@.len() == pow2(big_l),
        1 <= stage <= big_l,
        num_blocks == pow2((stage - 1) as nat),
        num_butt == pow2((big_l - stage) as nat),
        buf_wf(bufv(old(vec)@), f),
        f <= MAX_FRAC,
        two@ == scalar_from_int(2, f),
        wv.len() == old(vec)@.len() / 2,
        w@.len() >= old(vec)@.len() / 2,
        forall|k: int| 0 <= k < old(vec)@.len() / 2 ==> bufv(w@)[k] == wv[k],
        forall|k: int| 0 <= k < old(vec)@.len() / 2 ==> (#[trigger] wv[k]).wf(f),
    ensures
        final (vec)@.len() == old(vec)@.len(),
        bufv(final (vec)@) == spec_stage(
            bufv(old(vec)@),
            wv,
            old(vec)@.len() as nat,
            big_l,
            stage,
            forward,
            f,
        ),
        buf_wf(bufv(final (vec)@), f),
{
    let n = vec.len();
    let ghost prev = bufv(vec@);
    let ghost stagev = spec_stage(prev, wv, n as nat, big_l, stage, forward, f);
    let ghost hb = pow2((big_l - stage) as nat);
    let ghost bl = 2 * hb;
    proof {
        lemma_pow2_pos((big_l - stage) as nat);
        lemma_pow2_pos((stage - 1) as nat);
        lemma_stage_index_base(n as nat, big_l, stage);
        lemma_stage_wf(prev, wv, n as nat, big_l, stage, forward, f);
        assert(bufv(vec@) =~= stage_partial(prev, stagev, bl, hb, 0, 0)) by {
            assert forall|k: int| 0 <= k < n implies #[trigger] stage_partial(
                prev,
                stagev,
                bl,
                hb,
                0,
                0,
            )[k] == prev[k] by {
                lemma_stage_index(n as nat, big_l, stage, k);
                vstd::arithmetic::div_mod::lemma_div_pos_is_pos(k, bl as int);
            }
        }
    }

    let mut block: usize = 0;
    while block < num_blocks
        invariant
            0 <= block <= num_blocks,
            vec@.len() == n,
            bufv(vec@) == stage_partial(prev, stagev, bl, hb, block as nat, 0),
        decreases num_blocks - block,
    {
        proof {
            assert((block as int) * (bl as int) + bl <= n) by (nonlinear_arith)
                requires
                    block < num_blocks,
                    (bl as int) * (num_blocks as int) == n,
                    bl >= 1,
            ;
        }
        let pa = block * (n / num_blocks);
        let pb = block * (n / num_blocks) + num_butt;

        let mut j: usize = 0;
        while j < num_butt
            invariant
                0 <= j <= num_butt,
                vec@.len() == n,
                bufv(vec@) == stage_partial(prev, stagev, bl, hb, block as nat, j as nat),
            decreases num_butt - j,
        {
            proof {
                lemma_partial_step(
                    prev,
                    wv,
                    n as nat,
                    big_l,
                    stage,
                    block as nat,
                    j as nat,
                    forward,
                    f,
                );
            }
            let mut a = vec[pa + j];
            let mut b = vec[pb + j];
            proof {
                assert(a@ == prev[pa + j] && b@ == prev[pb + j]);
                assert(prev[pa + j].wf(f) && prev[pb + j].wf(f));
                crate::complex::lemma_complex_ops_wf(prev[pa + j], prev[pa + j], two@, f);
                crate::complex::lemma_complex_ops_wf(prev[pb + j], prev[pb + j], two@, f);
            }
            if forward {
                // Scale the operands to avoid overflow.
                a = crate::complex::div_cartesian(a, two);
                b = crate::complex::div_cartesian(b, two);
            }
            proof {
                assert(a@ == spec_scale(prev[pa + j], forward, f));
                assert(b@ == spec_scale(prev[pb + j], forward, f));
                assert((j as int) * (num_blocks as int) < n / 2) by (nonlinear_arith)
                    requires
                        j < hb,
                        (hb as int) * (num_blocks as int) == n / 2,
                        num_blocks >= 1,
                ;
            }
            let w_temp = w[j * num_blocks];

            butterfly_df(&mut a, &mut b, w_temp);

            let ghost s0 = vec@;
            vec[pa + j] = a;
            vec[pb + j] = b;
            proof {
                lemma_bufv_update(s0, pa + j, a);
                lemma_bufv_update(s0.update(pa + j, a), pb + j, b);
                assert(bufv(vec@) == stage_partial(
                    prev,
                    stagev,
                    bl,
                    hb,
                    block as nat,
                    (j + 1) as nat,
                ));
            }
            j = j + 1;
        }
        proof {
            lemma_partial_block_done(prev, stagev, n as nat, big_l, stage, block as nat);
        }
        block = block + 1;
    }
    proof {
        lemma_partial_block_done(
            prev,
            stagev,
            n as nat,
            big_l,
            stage,
            (num_blocks - 1) as nat,
        );
    }
}

/// The shared butterfly processor of both transform directions, followed
/// by the bit-reversal pass: `log2(n)` stages of in-place butterflies.
fn transform(vec: &mut Vec<Complex>, forward: bool)
    requires
        is_pow2(old(vec)@.len() as int),
        buf_wf(bufv(old(vec)@), buf_frac(bufv(old(vec)@))),
    ensures
        final (vec)@.len() == old(vec)@.len(),
        bufv(final (vec)@) == spec_fft_dir(bufv(old(vec)@), buf_frac(bufv(old(vec)@)), forward),
{
    let ghost input0 = bufv(old(vec)@);
    let ghost f = buf_frac(input0);
    let n = vec.len();
    proof {
        lemma_is_pow2_lg2(n as nat);
        assert(input0.len() == n);
        assert(input0[0].wf(f));
    }
    let ghost big_l = lg2(n as nat);
    let frac = vec[0].re.frac;
    proof {
        assert(input0[0] == vec@[0]@);
        assert(frac as nat == f);
        assert(f <= MAX_FRAC);
    }

    let stages = log2(n);
    proof {
        assert(stages as nat == big_l);
    }

    let ghost angle_v = spec_angle(f, big_l, forward);
    let tau = Scalar::tau(frac);
    let angle = if forward {
        tau.neg().shr(stages as u32)
    } else {
        tau.shr(stages as u32)
    };
    proof {
        assert(angle@ == angle_v);
        crate::scalar::lemma_scalar_ops_wf(scalar_neg(scalar_tau(f)), scalar_tau(f));
        crate::scalar::lemma_scalar_ops_wf(scalar_tau(f), scalar_tau(f));
        assert(angle_v.wf());
    }

    let w = make_twiddles(n, frac, angle, Ghost(f), Ghost(angle_v));
    let ghost wv = spec_twiddles(f, angle_v, (n / 2) as nat);
    proof {
        assert forall|k: int| 0 <= k < n / 2 implies #[trigger] wv[k].wf(f) by {
            lemma_twiddle_wf(f, angle_v, k as nat);
        }
    }

    // Number of butterfly computations per block, and number of blocks.
    let mut num_butt: usize = n / 2;
    let mut num_blocks: usize = 1;
    let two = Scalar::from_int(2, frac);

    proof {
        lemma2_to64();
        if big_l >= 1 {
            vstd::arithmetic::power2::lemma_pow2_subtracts(1nat, big_l);
        } else {
            lemma_fundamental_div_mod_converse(1, 2, 0, 1);
        }
    }

    let mut stage: usize = 1;
    while stage <= stages
        invariant
            1 <= stage <= stages + 1,
            stages as nat == big_l,
            stages < 64,
            n == vec@.len(),
            n == pow2(big_l),
            num_blocks == pow2((stage - 1) as nat),
            num_butt == n as nat / pow2(stage as nat),
            f <= MAX_FRAC,
            two@ == scalar_from_int(2, f),
            wv == spec_twiddles(f, angle_v, (n / 2) as nat),
            w@.len() >= n / 2,
            forall|k: int| 0 <= k < n / 2 ==> bufv(w@)[k] == wv[k],
            forall|k: int| 0 <= k < n / 2 ==> (#[trigger] wv[k]).wf(f),
            bufv(vec@) == spec_stages(
                input0,
                wv,
                n as nat,
                big_l,
                (stage - 1) as nat,
                forward,
                f,
            ),
            buf_wf(bufv(vec@), f),
        decreases stages + 1 - stage,
    {
        proof {
            lemma_stage_index_base(n as nat, big_l, stage as nat);
        }
        stage_pass(
            vec,
            &w,
            num_blocks,
            num_butt,
            forward,
            two,
            Ghost(f),
            Ghost(big_l),
            Ghost(stage as nat),
            Ghost(wv),
        );
        proof {
            lemma_pow2_pos(stage as nat);
            vstd::arithmetic::div_mod::lemma_div_denominator(
                n as int,
                pow2(stage as nat) as int,
                2,
            );
            lemma_pow2_adds(stage as nat, 1nat);
            lemma_pow2_adds((stage - 1) as nat, 1nat);
            lemma2_to64();
            lemma_pow2_pos(stage as nat);
            assert(num_blocks * 2 == pow2(stage as nat));
            assert(num_butt / 2 == n as nat / pow2((stage + 1) as nat));
            assert(num_blocks * 2 <= n) by {
                if (stage as nat) < big_l {
                    lemma_pow2_strictly_increases(stage as nat, big_l);
                }
            }
        }
        num_blocks = num_blocks * 2;
        num_butt = num_butt / 2;
        stage = stage + 1;
    }

    // Reorder from frequency-decimated order to natural index order.
    proof {
        assert forall|k: int| 0 <= k < vec@.len() implies #[trigger] bit_rev(
            big_l,
            k as nat,
        ) < vec@.len() by {
            lemma_bit_rev_bound(big_l, k as nat);
        }
    }
    let ghost before = vec@;
    bitreverse_array_order(vec);
    proof {
        lemma_bufv_bitrev(before, big_l);
    }
}


/// Calculate the radix-2 decimation-in-frequency FFT for fixed-point
/// numbers, computed in place and scaled at each butterfly: the result is
/// the 1/N-normalized transform of the input, in natural frequency order.
/// A buffer whose length is not a power of two is rejected untouched.
pub fn fft(vec: &mut Vec<Complex>) -> (res: Result<(), FftError>)
    requires
        buf_wf(bufv(old(vec)@), buf_frac(bufv(old(vec)@))),
    ensures
        final (vec)@.len() == old(vec)@.len(),
        is_pow2(old(vec)@.len() as int) ==> res == Ok::<(), FftError>(()) && bufv(final (vec)@)
            == spec_fft_dir(bufv(old(vec)@), buf_frac(bufv(old(vec)@)), true),
        !is_pow2(old(vec)@.len() as int) ==> res == Err::<(), FftError>(FftError::InvalidLength)
            && final (vec)@ == old(vec)@,
{
    if !is_power_of_two(vec.len()) {
        return Err(FftError::InvalidLength);
    }
    transform(vec, true);
    Ok(())
}

/// Calculate the radix-2 decimation-in-frequency IFFT for fixed-point
/// numbers, computed in place with unscaled butterflies and the opposite
/// phase-rotation sign: the result is N times the inverse transform of
/// the input.  A buffer whose length is not a power of two is rejected
/// untouched.
pub fn ifft(vec: &mut Vec<Complex>) -> (res: Result<(), FftError>)
    requires
        buf_wf(bufv(old(vec)@), buf_frac(bufv(old(vec)@))),
    ensures
        final (vec)@.len() == old(vec)@.len(),
        is_pow2(old(vec)@.len() as int) ==> res == Ok::<(), FftError>(()) && bufv(final (vec)@)
            == spec_fft_dir(bufv(old(vec)@), buf_frac(bufv(old(vec)@)), false),
        !is_pow2(old(vec)@.len() as int) ==> res == Err::<(), FftError>(FftError::InvalidLength)
            && final (vec)@ == old(vec)@,
{
    if !is_power_of_two(vec.len()) {
        return Err(FftError::InvalidLength);
    }
    transform(vec, false);
    Ok(())
}

/// The complex zero in format `f`.
pub open spec fn czero(f: nat) -> ComplexV {
    ComplexV { re: ScalarV { bits: 0, frac: f }, im: ScalarV { bits: 0, frac: f } }
}

/// What one butterfly stage does to the bin-0 sample of an all-equal
/// buffer: both scaled halves add.
pub open spec fn spec_dc_gain(c: ComplexV, s: nat, f: nat) -> ComplexV
    decreases s,
{
    if s == 0 {
        c
    } else {
        let p = spec_dc_gain(c, (s - 1) as nat, f);
        complex_add(spec_scale(p, true, f), spec_scale(p, true, f))
    }
}

/// Arithmetic on the complex zero: scaling, adding and subtracting keep
/// it zero, and a zero factor annihilates any product.
proof fn lemma_zero_ops(w: ComplexV, f: nat)
    requires
        f <= MAX_FRAC,
    ensures
        spec_scale(czero(f), true, f) == czero(f),
        complex_add(czero(f), czero(f)) == czero(f),
        complex_mul(czero(f), w) == czero(f),
{
    lemma_pow2_pos(f);
    lemma2_to64();
    crate::scalar::lemma_from_int_nonzero(1, 1, f);
    assert(1 * pow2(1nat) == 2);
    assert(scalar_from_int(2, f).bits != 0);
    vstd::arithmetic::div_mod::lemma_div_of0(pow2(f) as int);
    vstd::arithmetic::div_mod::lemma_div_of0(scalar_from_int(2, f).bits);
    vstd::arithmetic::div_mod::lemma_div_of0(-scalar_from_int(2, f).bits);
    crate::scalar::lemma_crop32_range(0);
    assert(0 * w.re.bits == 0 && 0 * w.im.bits == 0 && 0 * pow2(f) as int == 0)
        by (nonlinear_arith);
}

/// Subtracting a sample from itself gives the complex zero.
proof fn lemma_self_sub_zero(c: ComplexV, f: nat)
    requires
        c.re.frac == f,
        c.im.frac == f,
    ensures
        complex_sub(c, c) == czero(f),
{
    crate::scalar::lemma_crop32_range(0);
}

/// One stage of an all-equal buffer with a zero tail: the equal front
/// shrinks to half its length and doubles in sample value, and the zero
/// tail grows to cover the rest.
proof fn lemma_dc_stage(
    c: ComplexV,
    w: Seq<ComplexV>,
    n: nat,
    l: nat,
    stage: nat,
    f: nat,
)
    requires
        n == pow2(l),
        1 <= stage <= l,
        f <= MAX_FRAC,
        c.re.frac == f,
        c.im.frac == f,
    ensures
        spec_stage(
            Seq::new(n, |i: int| if i < n / pow2((stage - 1) as nat) { c } else { czero(f) }),
            w,
            n,
            l,
            stage,
            true,
            f,
        ) == Seq::new(
            n,
            |i: int|
                if i < n / pow2(stage) {
                    complex_add(spec_scale(c, true, f), spec_scale(c, true, f))
                } else {
                    czero(f)
                },
        ),
{
    let prev = Seq::new(n, |i: int| if i < n / pow2((stage - 1) as nat) { c } else { czero(f) });
    let out = Seq::new(
        n,
        |i: int|
            if i < n / pow2(stage) {
                complex_add(spec_scale(c, true, f), spec_scale(c, true, f))
            } else {
                czero(f)
            },
    );
    lemma_stage_index_base(n, l, stage);
    let hb = pow2((l - stage) as nat);
    let bl = 2 * hb;
    let cp = spec_scale(c, true, f);
    let cn = complex_add(cp, cp);
    assert(spec_stage(prev, w, n, l, stage, true, f) =~= out) by {
        assert forall|idx: int| 0 <= idx < n implies #[trigger] spec_stage(
            prev,
            w,
            n,
            l,
            stage,
            true,
            f,
        )[idx] == out[idx] by {
            lemma_stage_index(n, l, stage, idx);
            let off = idx % (bl as int);
            let wterm = w[(off - hb) * (pow2((stage - 1) as nat) as int)];
            lemma_zero_ops(wterm, f);
            lemma_self_sub_zero(cp, f);
            lemma_self_sub_zero(spec_scale(czero(f), true, f), f);
            if idx < bl {
                vstd::arithmetic::div_mod::lemma_basic_div(idx, bl as int);
                vstd::arithmetic::div_mod::lemma_small_mod(idx as nat, bl as nat);
                assert(off == idx);
                if off < hb {
                    assert(prev[idx] == c && prev[idx + hb] == c);
                    assert(spec_stage(prev, w, n, l, stage, true, f)[idx] == cn);
                    assert(out[idx] == cn);
                } else {
                    assert(prev[idx - hb] == c && prev[idx] == c);
                    assert(complex_sub(spec_scale(prev[idx - hb], true, f), spec_scale(prev[idx], true, f)) == czero(f));
                    assert(spec_stage(prev, w, n, l, stage, true, f)[idx] == complex_mul(czero(f), wterm));
                    assert(out[idx] == czero(f));
                }
            } else {
                assert(prev[idx] == czero(f));
                if off < hb {
                    assert(idx + hb >= bl);
                    assert(prev[idx + hb] == czero(f));
                    assert(spec_stage(prev, w, n, l, stage, true, f)[idx] == complex_add(
                        spec_scale(czero(f), true, f),
                        spec_scale(czero(f), true, f),
                    ));
                } else {
                    lemma_fundamental_div_mod(idx, bl as int);
                    vstd::arithmetic::div_mod::lemma_mod_bound(idx, bl as int);
                    vstd::arithmetic::div_mod::lemma_div_pos_is_pos(idx, bl as int);
                    let q = idx / (bl as int);
                    assert(q >= 1) by {
                        if q == 0 {
                            assert((bl as int) * 0 == 0) by (nonlinear_arith);
                        }
                    }
                    assert(idx - hb >= bl) by (nonlinear_arith)
                        requires
                            idx == (bl as int) * q + off,
                            q >= 1,
                            off >= hb,
                            bl == 2 * hb,
                            hb >= 1,
                    ;
                    assert(prev[idx - hb] == czero(f));
                    assert(spec_stage(prev, w, n, l, stage, true, f)[idx] == complex_mul(
                        complex_sub(
                            spec_scale(prev[idx - hb], true, f),
                            spec_scale(prev[idx], true, f),
                        ),
                        wterm,
                    ));
                }
                assert(out[idx] == czero(f));
            }
        }
    }
}

/// DC concentration: the forward transform of an all-equal buffer puts
/// everything into frequency bin 0 and leaves every other bin exactly
/// zero; bin 0 holds the input sample halved and re-doubled once per
/// stage.
pub proof fn lemma_fft_dc_concentration(c: ComplexV, n: nat, f: nat)
    requires
        is_pow2(n as int),
        f <= MAX_FRAC,
        c.re.frac == f,
        c.im.frac == f,
    ensures
        spec_fft_dir(Seq::new(n, |i: int| c), f, true) == Seq::new(
            n,
            |i: int| if i == 0 { spec_dc_gain(c, lg2(n), f) } else { czero(f) },
        ),
{
    lemma_is_pow2_lg2(n);
    let l = lg2(n);
    let input = Seq::new(n, |i: int| c);
    let w = spec_twiddles(f, spec_angle(f, l, true), n / 2);
    lemma_dc_stages(c, w, n, l, l, f);
    lemma_pow2_pos(l);
    let staged = spec_stages(input, w, n, l, l, true, f);
    assert(n / pow2(l) == 1) by {
        lemma_fundamental_div_mod_converse(n as int, pow2(l) as int, 1, 0);
    }
    assert(staged =~= Seq::new(
        n,
        |i: int| if i < 1 { spec_dc_gain(c, l, f) } else { czero(f) },
    ));
    lemma_bit_rev_zero(l);
    assert(bitrev_perm(staged, l) =~= Seq::new(
        n,
        |i: int| if i == 0 { spec_dc_gain(c, l, f) } else { czero(f) },
    )) by {
        assert forall|i: int| 0 <= i < n implies #[trigger] bitrev_perm(staged, l)[i] == (if i == 0 {
            spec_dc_gain(c, l, f)
        } else {
            czero(f)
        }) by {
            lemma_bit_rev_bound(l, i as nat);
            if i >= 1 && bit_rev(l, i as nat) == 0 {
                lemma_bit_rev_involution(l, i as nat);
            }
        }
    }
}

/// The all-equal buffer with a zero tail through the first `s` stages.
proof fn lemma_dc_stages(c: ComplexV, w: Seq<ComplexV>, n: nat, l: nat, s: nat, f: nat)
    requires
        n == pow2(l),
        s <= l,
        f <= MAX_FRAC,
        c.re.frac == f,
        c.im.frac == f,
    ensures
        spec_stages(Seq::new(n, |i: int| c), w, n, l, s, true, f) == Seq::new(
            n,
            |i: int| if i < n / pow2(s) { spec_dc_gain(c, s, f) } else { czero(f) },
        ),
    decreases s,
{
    lemma_pow2_pos(s);
    lemma_pow2_pos(l);
    if s == 0 {
        lemma2_to64();
        vstd::arithmetic::div_mod::lemma_fundamental_div_mod_converse(
            n as int,
            1,
            n as int,
            0,
        );
        assert(spec_stages(Seq::new(n, |i: int| c), w, n, l, 0, true, f) =~= Seq::new(
            n,
            |i: int| if i < n / pow2(0) { spec_dc_gain(c, 0, f) } else { czero(f) },
        ));
    } else {
        lemma_dc_stages(c, w, n, l, (s - 1) as nat, f);
        let cs = spec_dc_gain(c, (s - 1) as nat, f);
        assert(cs.re.frac == f && cs.im.frac == f) by {
            lemma_dc_gain_frac(c, (s - 1) as nat, f);
        }
        lemma_dc_stage(cs, w, n, l, s, f);
    }
}

/// The bin-0 gain keeps the input's format.
proof fn lemma_dc_gain_frac(c: ComplexV, s: nat, f: nat)
    requires
        c.re.frac == f,
        c.im.frac == f,
    ensures
        spec_dc_gain(c, s, f).re.frac == f,
        spec_dc_gain(c, s, f).im.frac == f,
    decreases s,
{
    if s > 0 {
        lemma_dc_gain_frac(c, (s - 1) as nat, f);
    }
}

/// The complex multiplicative identity (the zeroth twiddle factor).
pub open spec fn cone(f: nat) -> ComplexV {
    ComplexV { re: scalar_from_int(1, f), im: scalar_from_int(0, f) }
}

/// Adding zero, subtracting zero, and multiplying by the identity leave a
/// well-formed sample exactly unchanged: the fixed-point roundings all
/// happen to be exact here.
proof fn lemma_identity_ops(g: ComplexV, f: nat)
    requires
        g.wf(f),
    ensures
        complex_add(g, czero(f)) == g,
        complex_sub(g, czero(f)) == g,
        complex_mul(g, cone(f)) == g,
{
    lemma_pow2_pos(f);
    crate::scalar::lemma_pow2_small(f);
    crate::scalar::lemma_crop32_range(1 * pow2(f) as int);
    crate::scalar::lemma_crop32_range(0 * pow2(f) as int);
    crate::scalar::lemma_crop32_range(g.re.bits);
    crate::scalar::lemma_crop32_range(g.im.bits);
    crate::scalar::lemma_crop32_range(0);
    assert(scalar_from_int(1, f).bits == pow2(f) && scalar_from_int(0, f).bits == 0);
    assert(g.re.bits * pow2(f) as int == pow2(f) as int * g.re.bits && g.im.bits * pow2(
        f,
    ) as int == pow2(f) as int * g.im.bits && g.re.bits * 0 == 0 && g.im.bits * 0 == 0)
        by (nonlinear_arith);
    vstd::arithmetic::div_mod::lemma_div_multiples_vanish(g.re.bits, pow2(f) as int);
    vstd::arithmetic::div_mod::lemma_div_multiples_vanish(g.im.bits, pow2(f) as int);
    vstd::arithmetic::div_mod::lemma_div_of0(pow2(f) as int);
}

/// One unscaled butterfly stage of a single-tone comb: samples sitting at
/// multiples of the previous period carry `g`, everything else is zero,
/// and the stage halves the period.
proof fn lemma_comb_stage(g: ComplexV, n: nat, l: nat, stage: nat, f: nat)
    requires
        n == pow2(l),
        1 <= stage <= l,
        f <= MAX_FRAC,
        g.wf(f),
    ensures
        spec_stage(
            Seq::new(
                n,
                |i: int| if i % (n as int / pow2((stage - 1) as nat) as int) == 0 {
                    g
                } else {
                    czero(f)
                },
            ),
            spec_twiddles(f, spec_angle(f, l, false), n / 2),
            n,
            l,
            stage,
            false,
            f,
        ) == Seq::new(
            n,
            |i: int| if i % (n as int / pow2(stage as nat) as int) == 0 {
                g
            } else {
                czero(f)
            },
        ),
{
    let w = spec_twiddles(f, spec_angle(f, l, false), n / 2);
    let prev = Seq::new(
        n,
        |i: int| if i % (n as int / pow2((stage - 1) as nat) as int) == 0 {
            g
        } else {
            czero(f)
        },
    );
    let out = Seq::new(
        n,
        |i: int| if i % (n as int / pow2(stage as nat) as int) == 0 {
            g
        } else {
            czero(f)
        },
    );
    lemma_stage_index_base(n, l, stage);
    let hb = pow2((l - stage) as nat);
    let bl = 2 * hb;
    lemma_pow2_pos((l - stage) as nat);
    lemma_pow2_pos(l);
    lemma_pow2_strictly_increases_or_eq(0nat, (l - stage) as nat);
    assert(spec_stage(prev, w, n, l, stage, false, f) =~= out) by {
        assert forall|idx: int| 0 <= idx < n implies #[trigger] spec_stage(
            prev,
            w,
            n,
            l,
            stage,
            false,
            f,
        )[idx] == out[idx] by {
            lemma_stage_index(n, l, stage, idx);
            let off = idx % (bl as int);
            let wterm = w[(off - hb) * (pow2((stage - 1) as nat) as int)];
            lemma_zero_ops(wterm, f);
            lemma_identity_ops(g, f);
            lemma_self_sub_zero(czero(f), f);
            vstd::arithmetic::div_mod::lemma_breakdown(idx, hb as int, 2);
            vstd::arithmetic::div_mod::lemma_mod_bound(idx, hb as int);
            vstd::arithmetic::div_mod::lemma_mod_bound(idx / (hb as int), 2);
            assert(off == (hb as int) * ((idx / (hb as int)) % 2) + idx % (hb as int));
            assert((hb as int) * ((idx / (hb as int)) % 2) == 0 || (hb as int) * ((idx / (
            hb as int)) % 2) == hb) by (nonlinear_arith)
                requires
                    (idx / (hb as int)) % 2 == 0 || (idx / (hb as int)) % 2 == 1,
            ;
            // The sample's comb positions inside its block.
            assert((off == 0 || off == hb) <==> idx % (hb as int) == 0);
            if off < hb {
                assert((idx + hb) % (bl as int) == off + hb && off + hb != 0);
                if off == 0 {
                    assert(spec_stage(prev, w, n, l, stage, false, f)[idx] == complex_add(
                        g,
                        czero(f),
                    ));
                } else {
                    assert(spec_stage(prev, w, n, l, stage, false, f)[idx] == complex_add(
                        czero(f),
                        czero(f),
                    ));
                }
            } else {
                assert((idx - hb) % (bl as int) == off - hb);
                if off == hb {
                    assert(n / 2 >= 1) by {
                        lemma_pow2_pos((l - 1) as nat);
                    }
                    assert(wterm == spec_twiddle(f, spec_angle(f, l, false), 0)) by {
                        assert((off - hb) * (pow2((stage - 1) as nat) as int) == 0)
                            by (nonlinear_arith)
                            requires
                                off == hb,
                        ;
                    }
                    assert(spec_stage(prev, w, n, l, stage, false, f)[idx] == complex_mul(
                        complex_sub(g, czero(f)),
                        cone(f),
                    ));
                } else {
                    assert(spec_stage(prev, w, n, l, stage, false, f)[idx] == complex_mul(
                        complex_sub(czero(f), czero(f)),
                        wterm,
                    ));
                }
            }
        }
    }
}

/// Powers of two are monotone.
proof fn lemma_pow2_strictly_increases_or_eq(a: nat, b: nat)
    requires
        a <= b,
    ensures
        pow2(a) <= pow2(b),
{
    if a < b {
        lemma_pow2_strictly_increases(a, b);
    }
}

/// A single tone in bin 0 through the first `s` unscaled stages: the comb
/// of period `n / 2^s`.
proof fn lemma_comb_stages(g: ComplexV, n: nat, l: nat, s: nat, f: nat)
    requires
        n == pow2(l),
        s <= l,
        f <= MAX_FRAC,
        g.wf(f),
    ensures
        spec_stages(
            Seq::new(n, |i: int| if i == 0 { g } else { czero(f) }),
            spec_twiddles(f, spec_angle(f, l, false), n / 2),
            n,
            l,
            s,
            false,
            f,
        ) == Seq::new(
            n,
            |i: int| if i % (n as int / pow2(s) as int) == 0 {
                g
            } else {
                czero(f)
            },
        ),
    decreases s,
{
    let w = spec_twiddles(f, spec_angle(f, l, false), n / 2);
    let input = Seq::new(n, |i: int| if i == 0 { g } else { czero(f) });
    lemma_pow2_pos(s);
    lemma_pow2_pos(l);
    if s == 0 {
        lemma2_to64();
        lemma_fundamental_div_mod_converse(n as int, 1, n as int, 0);
        assert(spec_stages(input, w, n, l, 0, false, f) =~= Seq::new(
            n,
            |i: int| if i % (n as int / pow2(0) as int) == 0 {
                g
            } else {
                czero(f)
            },
        )) by {
            assert forall|i: int| 0 <= i < n implies input[i] == (if i % (n as int) == 0 {
                g
            } else {
                czero(f)
            }) by {
                vstd::arithmetic::div_mod::lemma_small_mod(i as nat, n);
            }
        }
    } else {
        lemma_comb_stages(g, n, l, (s - 1) as nat, f);
        lemma_comb_stage(g, n, l, s, f);
    }
}

/// A lone sample in bin 0 spreads, unscaled, to every output position:
/// the inverse transform of `g, 0, ..., 0` is the constant buffer `g`.
pub proof fn lemma_ifft_single_bin(g: ComplexV, n: nat, f: nat)
    requires
        is_pow2(n as int),
        f <= MAX_FRAC,
        g.wf(f),
    ensures
        spec_fft_dir(Seq::new(n, |i: int| if i == 0 { g } else { czero(f) }), f, false)
            == Seq::new(n, |i: int| g),
{
    lemma_is_pow2_lg2(n);
    let l = lg2(n);
    lemma_comb_stages(g, n, l, l, f);
    lemma_pow2_pos(l);
    let staged = spec_stages(
        Seq::new(n, |i: int| if i == 0 { g } else { czero(f) }),
        spec_twiddles(f, spec_angle(f, l, false), n / 2),
        n,
        l,
        l,
        false,
        f,
    );
    assert(n as int / pow2(l) as int == 1) by {
        lemma_fundamental_div_mod_converse(n as int, pow2(l) as int, 1, 0);
    }
    assert(staged =~= Seq::new(n, |i: int| g)) by {
        assert forall|i: int| 0 <= i < n implies staged[i] == g by {
            lemma_fundamental_div_mod_converse(i, 1, i, 0);
        }
    }
    assert(bitrev_perm(staged, l) =~= Seq::new(n, |i: int| g)) by {
        assert forall|i: int| 0 <= i < n implies #[trigger] bitrev_perm(staged, l)[i] == g by {
            lemma_bit_rev_bound(l, i as nat);
        }
    }
}

/// The bin-0 gain of the forward transform stays well formed, and after
/// the first stage it is the input with each mantissa's low bit cleared
/// (so an even-mantissa sample survives untouched).
proof fn lemma_dc_gain_value(c: ComplexV, s: nat, f: nat)
    requires
        c.wf(f),
        f <= MAX_FRAC,
    ensures
        spec_dc_gain(c, s, f).wf(f),
        s >= 1 ==> spec_dc_gain(c, s, f) == (ComplexV {
            re: ScalarV { bits: 2 * (c.re.bits / 2), frac: f },
            im: ScalarV { bits: 2 * (c.im.bits / 2), frac: f },
        }),
    decreases s,
{
    lemma_pow2_pos(f);
    crate::scalar::lemma_pow2_small(f);
    if s == 0 {
    } else {
        lemma_dc_gain_value(c, (s - 1) as nat, f);
        let p = spec_dc_gain(c, (s - 1) as nat, f);
        lemma_halving_add(p, f);
        if s >= 2 {
            vstd::arithmetic::div_mod::lemma_fundamental_div_mod_converse(
                2 * (c.re.bits / 2),
                2,
                c.re.bits / 2,
                0,
            );
            vstd::arithmetic::div_mod::lemma_fundamental_div_mod_converse(
                2 * (c.im.bits / 2),
                2,
                c.im.bits / 2,
                0,
            );
        }
    }
}

/// Halving a well-formed sample and adding the two halves clears the low
/// mantissa bit of each component.
proof fn lemma_halving_add(p: ComplexV, f: nat)
    requires
        p.wf(f),
        f <= MAX_FRAC,
    ensures
        complex_add(spec_scale(p, true, f), spec_scale(p, true, f)) == (ComplexV {
            re: ScalarV { bits: 2 * (p.re.bits / 2), frac: f },
            im: ScalarV { bits: 2 * (p.im.bits / 2), frac: f },
        }),
{
    lemma_pow2_pos(f);
    crate::scalar::lemma_pow2_small(f);
    crate::scalar::lemma_crop32_range(2 * pow2(f) as int);
    crate::scalar::lemma_from_int_nonzero(1, 1, f);
    lemma2_to64();
    assert(1 * pow2(1nat) == 2);
    assert(scalar_from_int(2, f).bits == 2 * pow2(f));
    lemma_div_two_exact(p.re, f);
    lemma_div_two_exact(p.im, f);
    vstd::arithmetic::div_mod::lemma_fundamental_div_mod(p.re.bits, 2);
    vstd::arithmetic::div_mod::lemma_fundamental_div_mod(p.im.bits, 2);
    vstd::arithmetic::div_mod::lemma_mod_bound(p.re.bits, 2);
    vstd::arithmetic::div_mod::lemma_mod_bound(p.im.bits, 2);
    crate::scalar::lemma_crop32_range(2 * (p.re.bits / 2));
    crate::scalar::lemma_crop32_range(2 * (p.im.bits / 2));
}

/// Fixed-point division of a well-formed scalar by the constant 2 floors
/// the mantissa by 2 exactly.
proof fn lemma_div_two_exact(a: ScalarV, f: nat)
    requires
        a.frac == f,
        f <= MAX_FRAC,
        -0x8000_0000 <= a.bits < 0x8000_0000,
    ensures
        crate::scalar::scalar_div(a, scalar_from_int(2, f)).bits == a.bits / 2,
{
    lemma_pow2_pos(f);
    crate::scalar::lemma_pow2_small(f);
    crate::scalar::lemma_crop32_range(2 * pow2(f) as int);
    assert(scalar_from_int(2, f).bits == 2 * pow2(f));
    vstd::arithmetic::div_mod::lemma_fundamental_div_mod(a.bits, 2);
    vstd::arithmetic::div_mod::lemma_mod_bound(a.bits, 2);
    assert(a.bits * pow2(f) as int == (a.bits / 2) * (2 * pow2(f) as int) + (a.bits % 2) * pow2(
        f,
    ) as int) by (nonlinear_arith)
        requires
            a.bits == 2 * (a.bits / 2) + a.bits % 2,
    ;
    assert(0 <= (a.bits % 2) * (pow2(f) as int) && (a.bits % 2) * (pow2(f) as int) < 2 * (pow2(
        f,
    ) as int)) by (nonlinear_arith)
        requires
            0 <= a.bits % 2 < 2,
            pow2(f) >= 1,
    ;
    vstd::arithmetic::div_mod::lemma_fundamental_div_mod_converse(
        a.bits * pow2(f) as int,
        2 * pow2(f) as int,
        a.bits / 2,
        (a.bits % 2) * pow2(f) as int,
    );
    vstd::arithmetic::div_mod::lemma_div_is_ordered(-0x8000_0000, a.bits, 2);
    vstd::arithmetic::div_mod::lemma_div_is_ordered(a.bits, 0x8000_0000, 2);
    crate::scalar::lemma_crop32_range(a.bits / 2);
}

/// Round trip on an all-equal buffer: the inverse transform of the
/// forward transform reproduces the buffer, except that each mantissa's
/// low bit is cleared by the forward halving (an even-mantissa sample
/// comes back exactly).  The inverse applies no normalization, so its
/// n-fold gain exactly cancels the forward 1/n scaling.
pub proof fn lemma_round_trip_all_equal(c: ComplexV, n: nat, f: nat)
    requires
        is_pow2(n as int),
        f <= MAX_FRAC,
        c.wf(f),
    ensures
        spec_fft_dir(spec_fft_dir(Seq::new(n, |i: int| c), f, true), f, false) == Seq::new(
            n,
            |i: int| spec_dc_gain(c, lg2(n), f),
        ),
        (n >= 2 && c.re.bits % 2 == 0 && c.im.bits % 2 == 0) ==> spec_fft_dir(
            spec_fft_dir(Seq::new(n, |i: int| c), f, true),
            f,
            false,
        ) == Seq::new(n, |i: int| c),
{
    lemma_is_pow2_lg2(n);
    let l = lg2(n);
    lemma_fft_dc_concentration(c, n, f);
    lemma_dc_gain_value(c, l, f);
    lemma_ifft_single_bin(spec_dc_gain(c, l, f), n, f);
    assert(spec_fft_dir(Seq::new(n, |i: int| c), f, true) == Seq::new(
        n,
        |i: int| if i == 0 { spec_dc_gain(c, l, f) } else { czero(f) },
    ));
    if n >= 2 && c.re.bits % 2 == 0 && c.im.bits % 2 == 0 {
        assert(l >= 1) by {
            lemma2_to64();
            if l == 0 {
                assert(pow2(0nat) == 1);
            }
        }
        assert(2 * (c.re.bits / 2) == c.re.bits && 2 * (c.im.bits / 2) == c.im.bits) by {
            vstd::arithmetic::div_mod::lemma_fundamental_div_mod(c.re.bits, 2);
            vstd::arithmetic::div_mod::lemma_fundamental_div_mod(c.im.bits, 2);
        }
        assert(spec_dc_gain(c, l, f) == c);
    }
}

/// A twiddle factor is well formed in the table's format.
proof fn lemma_twiddle_wf(f: nat, angle: ScalarV, i: nat)
    requires
        f <= MAX_FRAC,
        angle.frac == f,
    ensures
        spec_twiddle(f, angle, i).wf(f),
    decreases i,
{
    crate::scalar::lemma_crop32_range(1 * pow2(f) as int);
    crate::scalar::lemma_crop32_range(0 * pow2(f) as int);
    if i > 0 {
        lemma_phase_frac(angle, i);
        lemma_sin_cos_wf(spec_phase(angle, i));
    }
}

/// The accumulated phase stays in the step's format.
proof fn lemma_phase_frac(angle: ScalarV, i: nat)
    ensures
        spec_phase(angle, i).frac == angle.frac,
    decreases i,
{
    if i > 1 {
        lemma_phase_frac(angle, (i - 1) as nat);
    }
}

/// The polynomial sine and cosine of any phase are well formed in the
/// phase's format.
proof fn lemma_sin_cos_wf(x: ScalarV)
    requires
        x.frac <= MAX_FRAC,
    ensures
        spec_sin(x).wf(),
        spec_sin(x).frac == x.frac,
        spec_cos(x).wf(),
        spec_cos(x).frac == x.frac,
{
    reveal(crate::spec_cos);
    lemma_sin_shape(x);
    let f = x.frac;
    let shifted = scalar_add(x, crate::scalar::scalar_pi_half(f));
    let wrapped = crate::spec_wrap_phase(shifted);
    assert(wrapped.frac == f);
    lemma_sin_shape(wrapped);
}

/// The sine polynomial yields a well-formed result in its input's format.
proof fn lemma_sin_shape(x: ScalarV)
    requires
        x.frac <= MAX_FRAC,
    ensures
        spec_sin(x).wf(),
        spec_sin(x).frac == x.frac,
{
    reveal(crate::spec_sin);
    let f = x.frac;
    let ph = crate::scalar::scalar_pi_half(f);
    let xr = if x.bits < -ph.bits {
        crate::scalar::scalar_sub(scalar_neg(ph), scalar_add(x, ph))
    } else if ph.bits < x.bits {
        crate::scalar::scalar_sub(ph, crate::scalar::scalar_sub(x, ph))
    } else {
        x
    };
    crate::scalar::lemma_scalar_ops_wf(scalar_neg(ph), scalar_add(x, ph));
    crate::scalar::lemma_scalar_ops_wf(ph, crate::scalar::scalar_sub(x, ph));
    crate::scalar::lemma_scalar_ops_wf(x, x);
    assert(xr.frac == f);
    let t1 = crate::scalar::scalar_sub(
        xr,
        crate::scalar::scalar_div(crate::spec_powi(xr, 3), scalar_from_int(6, f)),
    );
    let t2 = scalar_add(
        t1,
        crate::scalar::scalar_div(crate::spec_powi(xr, 5), scalar_from_int(120, f)),
    );
    let t3 = crate::scalar::scalar_sub(
        t2,
        scalar_shr(
            crate::scalar::scalar_div(crate::spec_powi(xr, 7), scalar_from_int(315, f)),
            4,
        ),
    );
    lemma_powi_frac(xr, 3);
    lemma_powi_frac(xr, 5);
    lemma_powi_frac(xr, 7);
    lemma_powi_frac(xr, 9);
    crate::scalar::lemma_scalar_ops_wf(crate::spec_powi(xr, 3), scalar_from_int(6, f));
    crate::scalar::lemma_scalar_ops_wf(crate::spec_powi(xr, 5), scalar_from_int(120, f));
    crate::scalar::lemma_scalar_ops_wf(crate::spec_powi(xr, 7), scalar_from_int(315, f));
    crate::scalar::lemma_scalar_ops_wf(crate::spec_powi(xr, 9), scalar_from_int(81, f));
    crate::scalar::lemma_scalar_ops_wf(
        crate::scalar::scalar_div(crate::spec_powi(xr, 9), scalar_from_int(81, f)),
        scalar_from_int(7, f),
    );
    crate::scalar::lemma_scalar_ops_wf(
        crate::scalar::scalar_div(
            crate::scalar::scalar_div(crate::spec_powi(xr, 9), scalar_from_int(81, f)),
            scalar_from_int(7, f),
        ),
        scalar_from_int(5, f),
    );
    crate::scalar::lemma_scalar_ops_wf(
        xr,
        crate::scalar::scalar_div(crate::spec_powi(xr, 3), scalar_from_int(6, f)),
    );
    crate::scalar::lemma_scalar_ops_wf(
        t1,
        crate::scalar::scalar_div(crate::spec_powi(xr, 5), scalar_from_int(120, f)),
    );
    crate::scalar::lemma_scalar_ops_wf(
        t2,
        scalar_shr(
            crate::scalar::scalar_div(crate::spec_powi(xr, 7), scalar_from_int(315, f)),
            4,
        ),
    );
    crate::scalar::lemma_scalar_ops_wf(
        t3,
        scalar_shr(
            crate::scalar::scalar_div(
                crate::scalar::scalar_div(
                    crate::scalar::scalar_div(crate::spec_powi(xr, 9), scalar_from_int(81, f)),
                    scalar_from_int(7, f),
                ),
                scalar_from_int(5, f),
            ),
            7,
        ),
    );
}

/// An integer power keeps its base's format.
proof fn lemma_powi_frac(b: ScalarV, p: nat)
    ensures
        crate::spec_powi(b, p).frac == b.frac,
    decreases p,
{
    if p > 1 {
        lemma_powi_frac(b, (p - 1) as nat);
    }
}

/// Inside a block, an offset whose butterfly number is `j` sits either in
/// the first half at `j` or in the second half at `hb + j`.
proof fn lemma_off_is_pa_or_pb(n: nat, l: nat, stage: nat, k: int, b: nat, j: nat)
    requires
        n == pow2(l),
        1 <= stage <= l,
        0 <= k < n,
        k / (2 * pow2((l - stage) as nat) as int) == b,
        (k % (2 * pow2((l - stage) as nat) as int)) % (pow2((l - stage) as nat) as int) == j,
        j < pow2((l - stage) as nat),
    ensures
        k == b * (2 * pow2((l - stage) as nat)) + j || k == b * (2 * pow2((l - stage) as nat))
            + pow2((l - stage) as nat) + j,
{
    let hb = pow2((l - stage) as nat) as int;
    let bl = 2 * hb;
    lemma_pow2_pos((l - stage) as nat);
    lemma_fundamental_div_mod(k, bl);
    let off = k % bl;
    vstd::arithmetic::div_mod::lemma_mod_bound(k, bl);
    lemma_fundamental_div_mod(off, hb);
    vstd::arithmetic::div_mod::lemma_mod_bound(off, hb);
    let q = off / hb;
    assert(0 <= q < 2) by {
        if q >= 2 {
            assert(hb * q >= 2 * hb) by (nonlinear_arith)
                requires
                    q >= 2,
                    hb >= 1,
            ;
        }
        vstd::arithmetic::div_mod::lemma_div_pos_is_pos(off, hb);
    }
    assert(hb * q == 0 || hb * q == hb) by (nonlinear_arith)
        requires
            q == 0 || q == 1,
    ;
    assert(k == (bl as int) * (b as int) + off);
    assert(k == b * bl + off) by (nonlinear_arith)
        requires
            k == (bl as int) * (b as int) + off,
    ;
}

/// The offset `hb + j` reduces to `j` modulo `hb`.
proof fn lemma_mod_shift_half(hb: nat, j: nat)
    requires
        j < hb,
    ensures
        (hb as int + j) % (hb as int) == j,
{
    lemma_fundamental_div_mod_converse(hb as int + j, hb as int, 1, j as int);
}

/// The view of a permuted buffer is the permuted view.
proof fn lemma_bufv_bitrev(s: Seq<Complex>, l: nat)
    requires
        forall|k: int| 0 <= k < s.len() ==> #[trigger] bit_rev(l, k as nat) < s.len(),
    ensures
        bufv(bitrev_perm(s, l)) == bitrev_perm(bufv(s), l),
{
    assert(bufv(bitrev_perm(s, l)) =~= bitrev_perm(bufv(s), l));
}

/// Check if `x` is a power of two: positive, with exactly one set bit.
pub fn is_power_of_two(x: usize) -> (r: bool)
    ensures
        r == is_pow2(x as int),
{
    let x64 = x as u64;
    proof {
        lemma_pow2_bit_trick(x64);
    }
    if 0 < x64 && (x64 & (x64 - 1)) == 0 {
        return true;
    }
    return false;
}

/// The single-set-bit test agrees with the recursive power-of-two
/// predicate.
proof fn lemma_pow2_bit_trick(x: u64)
    ensures
        (x != 0 && (x & (x - 1) as u64) == 0) <==> is_pow2(x as int),
    decreases x,
{
    reveal(is_pow2);
    if x == 0 {
    } else if x == 1 {
        assert(1u64 & 0u64 == 0) by (bit_vector);
    } else {
        let h = x / 2;
        lemma_pow2_bit_trick(h);
        if x % 2 == 0 {
            assert(((x & (x - 1) as u64) == 0) == ((h & (h - 1) as u64) == 0)) by (bit_vector)
                requires
                    h == x / 2,
                    x % 2 == 0,
                    x > 1,
            ;
        } else {
            assert((x & (x - 1) as u64) != 0) by (bit_vector)
                requires
                    x % 2 == 1,
                    x > 1,
            ;
        }
    }
}

/// The base-2 logarithm of a power of two, as a recursive specification.
pub open spec fn lg2(n: nat) -> nat
    decreases n,
{
    if n <= 1 {
        0
    } else {
        1 + lg2(n / 2)
    }
}

/// `lg2` inverts `pow2`.
pub proof fn lemma_lg2_pow2(l: nat)
    ensures
        lg2(pow2(l)) == l,
    decreases l,
{
    lemma_pow2_pos(l);
    if l == 0 {
        lemma2_to64();
    } else {
        lemma_pow2_pos((l - 1) as nat);
        assert(pow2(l) == 2 * pow2((l - 1) as nat)) by {
            lemma_pow2_adds(1nat, (l - 1) as nat);
            lemma2_to64();
        }
        lemma_lg2_pow2((l - 1) as nat);
        assert(pow2(l) / 2 == pow2((l - 1) as nat));
    }
}

/// A power of two is determined by any bracketing pair of powers.
pub proof fn lemma_pow2_unique(a: nat, b: nat)
    requires
        pow2(a) <= pow2(b) < pow2(a + 1),
    ensures
        a == b,
{
    if a < b {
        lemma_pow2_strictly_increases(a, b);
        if a + 1 < b {
            lemma_pow2_strictly_increases(a + 1, b);
        }
    }
    if b < a {
        lemma_pow2_strictly_increases(b, a);
    }
}

/// Calculate the base-2 logarithm of `x`: the position of its highest set
/// bit.  Defined only for `x >= 1`; a zero argument would underflow the
/// final decrement and is excluded.
pub fn log2(x: usize) -> (r: usize)
    requires
        x >= 1,
    ensures
        pow2(r as nat) <= x < pow2((r + 1) as nat),
        r < 64,
        x == pow2(lg2(x as nat)) ==> r == lg2(x as nat),
{
    let mut k: usize = x;
    let mut i: usize = 0;
    proof {
        lemma2_to64();
        vstd::arithmetic::power2::lemma2_to64_rest();
        lemma_fundamental_div_mod_converse(x as int, 1, x as int, 0);
    }
    while k != 0
        invariant
            i <= 64,
            k == x as nat / pow2(i as nat),
            i > 0 ==> pow2((i - 1) as nat) <= x,
            x < pow2(64),
        decreases k,
    {
        proof {
            lemma_pow2_pos(i as nat);
            lemma_pow2_adds(i as nat, 1nat);
            lemma2_to64();
            vstd::arithmetic::div_mod::lemma_div_denominator(
                x as int,
                pow2(i as nat) as int,
                2,
            );
            assert(k / 2 == x as nat / pow2((i + 1) as nat));
            assert(k >= 1 ==> pow2(i as nat) <= x) by {
                vstd::arithmetic::div_mod::lemma_fundamental_div_mod(
                    x as int,
                    pow2(i as nat) as int,
                );
                if k >= 1 {
                    assert(x as int >= pow2(i as nat) as int * (k as int)) by (nonlinear_arith)
                        requires
                            x as int == pow2(i as nat) as int * (k as int) + x as int % pow2(
                                i as nat,
                            ) as int,
                            x as int % pow2(i as nat) as int >= 0,
                    ;
                    assert(pow2(i as nat) as int * 1 <= pow2(i as nat) as int * (k as int))
                        by (nonlinear_arith)
                        requires
                            k >= 1,
                            pow2(i as nat) >= 1,
                    ;
                }
            }
            assert(i < 64) by {
                if i >= 64 {
                    lemma_pow2_strictly_increases(63nat, i as nat);
                    vstd::arithmetic::div_mod::lemma_basic_div(x as int, pow2(i as nat) as int);
                }
            }
        }
        k = k / 2;
        i = i + 1;
    }
    proof {
        lemma_pow2_pos(i as nat);
        assert(i > 0) by {
            lemma2_to64();
        }
        assert(x < pow2(i as nat)) by {
            vstd::arithmetic::div_mod::lemma_fundamental_div_mod(x as int, pow2(i as nat) as int);
            vstd::arithmetic::div_mod::lemma_mod_bound(x as int, pow2(i as nat) as int);
        }
        if x == pow2(lg2(x as nat)) {
            lemma_pow2_unique((i - 1) as nat, lg2(x as nat));
            lemma_lg2_pow2(lg2(x as nat));
        }
    }
    return i - 1;
}

/// 2^k as a `usize`, for exponents whose power fits.
pub(crate) fn pow2_usize(k: usize) -> (r: usize)
    requires
        pow2(k as nat) <= usize::MAX,
    ensures
        r == pow2(k as nat),
        r >= 1,
{
    let mut r: usize = 1;
    let mut i: usize = 0;
    proof {
        lemma2_to64();
    }
    while i < k
        invariant
            i <= k,
            r == pow2(i as nat),
            pow2(k as nat) <= usize::MAX,
        decreases k - i,
    {
        proof {
            lemma_pow2_adds(i as nat, 1nat);
            lemma2_to64();
            if (i + 1) as nat <= k as nat {
                if ((i + 1) as nat) < k as nat {
                    lemma_pow2_strictly_increases((i + 1) as nat, k as nat);
                }
            }
        }
        r = r * 2;
        i = i + 1;
    }
    proof {
        lemma_pow2_pos(k as nat);
    }
    r
}

/// The bit-reversal of the low `l` bits of `i`: the classic permutation
/// index map, defined from the low end upward.
pub open spec fn bit_rev(l: nat, i: nat) -> nat
    decreases l,
{
    if l == 0 {
        0
    } else {
        (i % 2) * pow2((l - 1) as nat) + bit_rev((l - 1) as nat, i / 2)
    }
}

/// Bit-reversal stays below 2^l.
pub proof fn lemma_bit_rev_bound(l: nat, i: nat)
    ensures
        bit_rev(l, i) < pow2(l),
    decreases l,
{
    lemma_pow2_pos(l);
    if l == 0 {
        lemma2_to64();
    } else {
        lemma_bit_rev_bound((l - 1) as nat, i / 2);
        lemma_pow2_adds(1nat, (l - 1) as nat);
        lemma2_to64();
        let b = i % 2;
        assert(b == 0 || b == 1) by {
            vstd::arithmetic::div_mod::lemma_mod_bound(i as int, 2);
        }
        if b == 0 {
            assert(b * pow2((l - 1) as nat) == 0) by (nonlinear_arith)
                requires
                    b == 0,
            ;
        } else {
            assert(b * pow2((l - 1) as nat) == pow2((l - 1) as nat)) by (nonlinear_arith)
                requires
                    b == 1,
            ;
        }
    }
}

/// Reversing the reversal gives the index back, for indices below 2^l.
pub proof fn lemma_bit_rev_involution(l: nat, i: nat)
    requires
        i < pow2(l),
    ensures
        bit_rev(l, bit_rev(l, i)) == i,
    decreases l,
{
    if l == 0 {
        lemma2_to64();
    } else {
        let lp = (l - 1) as nat;
        let b = i % 2;
        let rest = bit_rev(lp, i / 2);
        lemma_pow2_pos(lp);
        lemma_bit_rev_bound(lp, i / 2);
        assert(i / 2 < pow2(lp)) by {
            lemma_pow2_adds(1nat, lp);
            lemma2_to64();
            vstd::arithmetic::div_mod::lemma_div_denominator(i as int, 2, pow2(lp) as int);
            vstd::arithmetic::div_mod::lemma_basic_div(
                (i as int) / 2,
                pow2(lp) as int,
            );
            assert((i as int) / 2 / (pow2(lp) as int) == 0 ==> (i as int) / 2 < pow2(lp) as int)
                by {
                vstd::arithmetic::div_mod::lemma_fundamental_div_mod(
                    (i as int) / 2,
                    pow2(lp) as int,
                );
                vstd::arithmetic::div_mod::lemma_mod_bound((i as int) / 2, pow2(lp) as int);
            }
        }
        lemma_bit_rev_involution(lp, i / 2);
        let r = bit_rev(l, i);
        assert(r == b * pow2(lp) + rest);
        assert(r / 2 == (b * pow2(lp) + rest) / 2);
        // The reversal of r: its low bits come from rest, its top bit is b.
        assert(r % pow2(lp) == rest && r / pow2(lp) == b) by {
            lemma_fundamental_div_mod_converse(r as int, pow2(lp) as int, b as int, rest as int);
        }
        lemma_bit_rev_high_low(l, b, rest);
        assert(bit_rev(l, r) == bit_rev(lp, rest) * 2 + b);
        assert(bit_rev(lp, rest) == i / 2);
        assert(i == 2 * (i / 2) + i % 2) by {
            lemma_fundamental_div_mod(i as int, 2);
        }
    }
}

/// A sequence reordered by bit-reversal of its indices.
pub open spec fn bitrev_perm<A>(s: Seq<A>, l: nat) -> Seq<A> {
    Seq::new(s.len(), |i: int| s[bit_rev(l, i as nat) as int])
}

/// The running-target update of the in-place permutation: clear set bits
/// downward from the mask, then set the first clear one.  (On a
/// bit-reversed index this is the bit-reversed increment.)
pub open spec fn rev_incr(t: nat, m: nat) -> nat
    decreases m,
{
    if m == 0 {
        t
    } else if (t / m) % 2 == 1 {
        rev_incr((t - m) as nat, m / 2)
    } else {
        t + m
    }
}

/// Advancing the bit-reversed target: the carry pass applied to the
/// reversal of `i`, with the mask starting at 2^(l-1), yields the
/// reversal of `i + 1`.
pub proof fn lemma_rev_incr(l: nat, i: nat)
    requires
        l >= 1,
        i + 1 < pow2(l),
    ensures
        rev_incr(bit_rev(l, i), pow2((l - 1) as nat)) == bit_rev(l, i + 1),
    decreases l,
{
    let lp = (l - 1) as nat;
    let m = pow2(lp);
    let rest = bit_rev(lp, i / 2);
    lemma_pow2_pos(lp);
    lemma_bit_rev_bound(lp, i / 2);
    lemma_pow2_adds(1nat, lp);
    lemma2_to64();
    if i % 2 == 0 {
        let t = bit_rev(l, i);
        assert(t == rest) by (nonlinear_arith)
            requires
                t == (i % 2) * m + rest,
                i % 2 == 0,
        ;
        assert(t / m == 0) by {
            lemma_fundamental_div_mod_converse(t as int, m as int, 0, t as int);
        }
        assert(rev_incr(t, m) == t + m);
        assert((i + 1) % 2 == 1 && (i + 1) / 2 == i / 2) by {
            lemma_fundamental_div_mod(i as int, 2);
            lemma_fundamental_div_mod_converse(i as int + 1, 2, (i as int) / 2, 1);
        }
        assert(bit_rev(l, i + 1) == 1 * m + rest);
    } else {
        let t = bit_rev(l, i);
        assert(t == 1 * m + rest) by (nonlinear_arith)
            requires
                t == (i % 2) * m + rest,
                i % 2 == 1,
        ;
        assert(t / m == 1 && (t / m) % 2 == 1) by {
            lemma_fundamental_div_mod_converse(t as int, m as int, 1, rest as int);
        }
        assert(l >= 2) by {
            if l == 1 {
                assert(pow2(1nat) == 2) by {
                    lemma2_to64();
                }
            }
        }
        let lpp = (lp - 1) as nat;
        assert(m / 2 == pow2(lpp)) by {
            lemma_pow2_adds(1nat, lpp);
            lemma2_to64();
        }
        assert((i + 1) % 2 == 0 && (i + 1) / 2 == i / 2 + 1) by {
            lemma_fundamental_div_mod(i as int, 2);
            lemma_fundamental_div_mod_converse(i as int + 1, 2, (i as int) / 2 + 1, 0);
        }
        assert(i / 2 + 1 < pow2(lp)) by {
            lemma_fundamental_div_mod(i as int + 1, 2);
        }
        lemma_rev_incr(lp, i / 2);
        assert(rev_incr(t, m) == rev_incr(rest, pow2(lpp)));
        assert(bit_rev(l, i + 1) == 0 * m + bit_rev(lp, i / 2 + 1));
    }
}

/// Bit-reverse the order of the input array, computed in place: a single
/// left-to-right pass that keeps a running bit-reversed target index and
/// swaps each pair once.  The permutation is defined for power-of-two
/// lengths; any other length leaves the buffer unchanged.
pub fn bitreverse_array_order<T: Copy>(arr: &mut Vec<T>)
    ensures
        final (arr).len() == old(arr).len(),
        is_pow2(old(arr).len() as int) ==> final (arr)@ == bitrev_perm(
            old(arr)@,
            lg2(old(arr).len() as nat),
        ),
        !is_pow2(old(arr).len() as int) ==> final (arr)@ == old(arr)@,
{
    let n: usize = arr.len();
    if !is_power_of_two(n) {
        return ;
    }
    let ghost l = lg2(n as nat);
    proof {
        lemma_is_pow2_lg2(n as nat);
    }

    let mut target_index: usize = 0;
    let mut index: usize = 0;
    proof {
        lemma_bit_rev_zero(l);
    }
    while index < n
        invariant
            arr.len() == n,
            n == pow2(l),
            is_pow2(n as int),
            index <= n,
            index < n ==> target_index == bit_rev(l, index as nat),
            forall|k: int|
                0 <= k < n ==> arr@[k] == (if k < index || bit_rev(l, k as nat) < index {
                    old(arr)@[bit_rev(l, k as nat) as int]
                } else {
                    old(arr)@[k]
                }),
        decreases n - index,
    {
        proof {
            lemma_bit_rev_bound(l, index as nat);
            lemma_bit_rev_involution(l, index as nat);
        }
        if index < target_index {
            let temp = arr[target_index];

            arr[target_index] = arr[index];
            arr[index] = temp;
        }
        proof {
            assert forall|k: int|
                0 <= k < n implies arr@[k] == (if k < index + 1 || bit_rev(l, k as nat) < index
                + 1 {
                old(arr)@[bit_rev(l, k as nat) as int]
            } else {
                old(arr)@[k]
            }) by {
                lemma_bit_rev_bound(l, k as nat);
                lemma_bit_rev_involution(l, k as nat);
            }
        }

        let mut mask: usize = n / 2;
        let ghost t0 = target_index as nat;
        let ghost mut j: nat = (l - 1) as nat;
        proof {
            if n >= 2 {
                lemma2_to64();
                assert(l >= 1);
                lemma_pow2_adds(1nat, j);
                assert(n == 2 * pow2(j));
                vstd::arithmetic::div_mod::lemma_div_multiples_vanish(pow2(j) as int, 2);
                assert(mask == pow2(j));
                assert(t0 < n);
                assert(t0 < 2 * mask);
            } else {
                assert(l == 0) by {
                    if l >= 1 {
                        lemma_pow2_strictly_increases(0nat, l);
                        lemma2_to64();
                    }
                }
                assert(mask == 0 && t0 == 0);
            }
        }

        while mask > 0 && (target_index / mask) % 2 == 1
            invariant
                mask <= n / 2,
                mask > 0 ==> mask == pow2(j) && target_index < 2 * mask,
                mask == 0 ==> target_index == 0,
                rev_incr(t0, if n >= 2 {
                    pow2((l - 1) as nat)
                } else {
                    0
                }) == rev_incr(target_index as nat, mask as nat),
            decreases mask,
        {
            proof {
                assert(target_index >= mask) by {
                    if target_index < mask {
                        vstd::arithmetic::div_mod::lemma_basic_div(
                            target_index as int,
                            mask as int,
                        );
                    }
                }
                if mask == 1 {
                    assert(target_index == 1) by {
                        lemma_fundamental_div_mod(target_index as int, 1);
                        lemma_fundamental_div_mod_converse(
                            target_index as int,
                            1,
                            target_index as int,
                            0,
                        );
                    }
                } else {
                    assert(j >= 1) by {
                        lemma2_to64();
                    }
                    assert(mask / 2 == pow2((j - 1) as nat) && 2 * (mask / 2) == mask) by {
                        lemma_pow2_adds(1nat, (j - 1) as nat);
                        lemma2_to64();
                    }
                }
                j = if j >= 1 {
                    (j - 1) as nat
                } else {
                    0
                };
            }
            target_index = target_index - mask;
            mask = mask / 2;
        }
        proof {
            if mask > 0 {
                lemma_fundamental_div_mod(target_index as int, mask as int);
                vstd::arithmetic::div_mod::lemma_mod_bound(target_index as int, mask as int);
                let q = target_index as int / mask as int;
                assert(q < 2) by {
                    if q >= 2 {
                        assert(mask as int * q >= 2 * mask) by (nonlinear_arith)
                            requires
                                q >= 2,
                                mask > 0,
                        ;
                    }
                }
                assert(q == 0);
                assert(mask as int * q == 0) by (nonlinear_arith)
                    requires
                        q == 0,
                ;
                assert(target_index < mask);
            }
        }
        target_index = target_index + mask;
        proof {
            assert(target_index as nat == rev_incr(t0, if n >= 2 {
                pow2((l - 1) as nat)
            } else {
                0
            }));
            if index + 1 < n {
                assert(l >= 1) by {
                    if l == 0 {
                        lemma2_to64();
                    }
                }
                lemma_rev_incr(l, index as nat);
            }
        }
        index = index + 1;
    }
    proof {
        assert(arr@ =~= bitrev_perm(old(arr)@, l));
    }
}

/// The reversal of index zero is zero.
pub proof fn lemma_bit_rev_zero(l: nat)
    ensures
        bit_rev(l, 0) == 0,
    decreases l,
{
    if l > 0 {
        lemma_bit_rev_zero((l - 1) as nat);
        assert(0nat % 2 == 0 && 0nat / 2 == 0);
        assert(bit_rev(l, 0) == (0nat % 2) * pow2((l - 1) as nat) + bit_rev((l - 1) as nat, 0));
        assert((0nat % 2) * pow2((l - 1) as nat) == 0) by (nonlinear_arith)
            requires
                0nat % 2 == 0,
        ;
    }
}

/// Calculate the bit-reversed counterpart of index `n` inside an array of
/// length `n_capital`: source bit `log2(n_capital) - j` becomes target bit
/// `j - 1`.
pub fn _reverse(n_capital: usize, n: usize) -> (p: usize)
    requires
        n_capital >= 1,
    ensures
        is_pow2(n_capital as int) ==> p == bit_rev(lg2(n_capital as nat), n as nat),
        p < n_capital,
{
    let l = log2(n_capital);
    proof {
        if is_pow2(n_capital as int) {
            lemma_is_pow2_lg2(n_capital as nat);
            lemma_pow2_unique(l as nat, lg2(n_capital as nat));
            lemma_lg2_pow2(lg2(n_capital as nat));
        }
    }
    let mut p: usize = 0;
    let mut j: usize = 1;
    proof {
        lemma2_to64();
        lemma_fundamental_div_mod_converse(n as int, 1, n as int, 0);
        lemma_pow2_pos(l as nat);
        assert(bit_rev(0nat, n as nat / pow2(l as nat)) == 0);
    }
    while j <= l
        invariant
            1 <= j <= l + 1,
            l < 64,
            pow2(l as nat) <= n_capital,
            n_capital <= usize::MAX,
            p == bit_rev((j - 1) as nat, n as nat / pow2((l - j + 1) as nat)),
            p < pow2((j - 1) as nat),
        decreases l + 1 - j,
    {
        let ghost m = n as nat / pow2((l - j + 1) as nat);
        proof {
            lemma_pow2_pos((l - j) as nat);
            lemma_pow2_pos((l - j + 1) as nat);
            lemma_pow2_pos((j - 1) as nat);
            lemma_pow2_adds((l - j) as nat, 1nat);
            lemma_pow2_adds((j - 1) as nat, 1nat);
            lemma2_to64();
            if (l - j) as nat <= l as nat && ((l - j) as nat) < l as nat {
                lemma_pow2_strictly_increases((l - j) as nat, l as nat);
            }
            if ((j - 1) as nat) < l as nat {
                lemma_pow2_strictly_increases((j - 1) as nat, l as nat);
            }
            if (j as nat) < l as nat {
                lemma_pow2_strictly_increases(j as nat, l as nat);
            }
            vstd::arithmetic::div_mod::lemma_div_denominator(
                n as int,
                pow2((l - j) as nat) as int,
                2,
            );
        }
        let bit_source = (n / pow2_usize(l - j)) % 2;
        let ghost mp = n as nat / pow2((l - j) as nat);
        proof {
            assert(mp / 2 == m);
            lemma_fundamental_div_mod(mp as int, 2);
            lemma_bit_rev_bound((j - 1) as nat, m);
            assert(bit_rev(j as nat, mp) == (mp % 2) * pow2((j - 1) as nat) + bit_rev(
                (j - 1) as nat,
                m,
            ));
            if mp % 2 == 0 {
                assert((mp % 2) * pow2((j - 1) as nat) == 0) by (nonlinear_arith)
                    requires
                        mp % 2 == 0,
                ;
            } else {
                vstd::arithmetic::div_mod::lemma_mod_bound(mp as int, 2);
                assert((mp % 2) * pow2((j - 1) as nat) == pow2((j - 1) as nat))
                    by (nonlinear_arith)
                    requires
                        mp % 2 == 1,
                ;
            }
        }
        if bit_source == 1 {
            p = p + pow2_usize(j - 1);
        }
        j = j + 1;
    }
    proof {
        if is_pow2(n_capital as int) {
            assert(n as nat / pow2(0nat) == n as nat) by {
                lemma2_to64();
                lemma_fundamental_div_mod_converse(n as int, 1, n as int, 0);
            }
        }
    }
    return p;
}

/// Reorder a buffer into bit-reversed index order through a scratch
/// copy: position `i` of the result takes the sample whose index is the
/// reversal of `i`.  The out-of-place counterpart of
/// [`bitreverse_array_order`].
pub fn _order(f1: &mut Vec<Complex>)
    requires
        old(f1).len() >= 1,
    ensures
        final (f1).len() == old(f1).len(),
        is_pow2(old(f1).len() as int) ==> final (f1)@ == bitrev_perm(
            old(f1)@,
            lg2(old(f1).len() as nat),
        ),
{
    let ghost l = lg2(f1.len() as nat);
    let n = f1.len();
    // Create a copy of f1, reordered.
    let mut f2: Vec<Complex> = Vec::with_capacity(n);

    let mut i: usize = 0;
    while i < n
        invariant
            i <= n,
            n == f1.len(),
            n >= 1,
            l == lg2(n as nat),
            f2.len() == i,
            is_pow2(n as int) ==> forall|k: int|
                0 <= k < i ==> f2@[k] == f1@[bit_rev(l, k as nat) as int],
        decreases n - i,
    {
        proof {
            if is_pow2(n as int) {
                lemma_is_pow2_lg2(n as nat);
                lemma_lg2_pow2(l);
            }
        }
        let p = _reverse(n, i);
        f2.push(f1[p]);
        proof {
            if is_pow2(n as int) {
                assert(p == bit_rev(l, i as nat));
                assert(f2@[i as int] == f1@[bit_rev(l, i as nat) as int]);
            }
        }
        i = i + 1;
    }
    let mut j: usize = 0;
    while j < n
        invariant
            j <= n,
            n == f1.len(),
            n >= 1,
            l == lg2(n as nat),
            f2.len() == n,
            is_pow2(n as int) ==> forall|k: int|
                0 <= k < n ==> f2@[k] == old(f1)@[bit_rev(l, k as nat) as int],
            forall|k: int| j <= k < n ==> f1@[k] == old(f1)@[k],
            forall|k: int| 0 <= k < j ==> f1@[k] == f2@[k],
        decreases n - j,
    {
        f1[j] = f2[j];
        j = j + 1;
    }
    proof {
        if is_pow2(n as int) {
            assert forall|k: int| 0 <= k < n implies f1@[k] == #[trigger] bitrev_perm(
                old(f1)@,
                l,
            )[k] by {
                assert(f1@[k] == f2@[k]);
                assert(f2@[k] == old(f1)@[bit_rev(l, k as nat) as int]);
            }
            assert(f1@ =~= bitrev_perm(old(f1)@, l));
        }
    }
}

/// A power of two recovers itself through `lg2`.
pub proof fn lemma_is_pow2_lg2(n: nat)
    requires
        is_pow2(n as int),
    ensures
        n == pow2(lg2(n)),
        n >= 1,
{
    vstd::arithmetic::power2::is_pow2_equiv(n as int);
    let e = choose|e: nat| vstd::arithmetic::power::pow(2, e) == n as int;
    assert(pow2(e) == n) by {
        vstd::arithmetic::power::lemma_pow_positive(2, e);
    }
    lemma_lg2_pow2(e);
    lemma_pow2_pos(e);
}

/// Reversing `b * 2^(l-1) + rest` (top bit `b`, low part `rest`) yields
/// the reversal of `rest` shifted up one bit, with `b` in the low bit.
proof fn lemma_bit_rev_high_low(l: nat, b: nat, rest: nat)
    requires
        l >= 1,
        b <= 1,
        rest < pow2((l - 1) as nat),
    ensures
        bit_rev(l, b * pow2((l - 1) as nat) + rest) == 2 * bit_rev((l - 1) as nat, rest) + b,
    decreases l,
{
    let lp = (l - 1) as nat;
    let v = b * pow2(lp) + rest;
    lemma_pow2_pos(lp);
    if l == 1 {
        lemma2_to64();
        assert(pow2(lp) == 1);
        assert(b * pow2(lp) == b) by (nonlinear_arith)
            requires
                pow2(lp) == 1,
        ;
        assert(v == b);
        assert(bit_rev(1nat, b) == (b % 2) * pow2(0nat) + bit_rev(0nat, b / 2));
        assert(b % 2 == b && b / 2 == 0);
        assert((b % 2) * pow2(0nat) == b) by (nonlinear_arith)
            requires
                b % 2 == b,
                pow2(0nat) == 1,
        ;
    } else {
        let lpp = (lp - 1) as nat;
        lemma_pow2_pos(lpp);
        lemma_pow2_adds(1nat, lpp);
        lemma2_to64();
        // v = b * 2^(l-1) + rest; v % 2 == rest % 2, v / 2 == b * 2^(l-2) + rest / 2
        assert(v % 2 == rest % 2 && v / 2 == b * pow2(lpp) + rest / 2) by {
            lemma_fundamental_div_mod(rest as int, 2);
            lemma_fundamental_div_mod_converse(
                v as int,
                2,
                b as int * pow2(lpp) as int + (rest as int) / 2,
                (rest as int) % 2,
            );
            assert(v as int == 2 * (b as int * pow2(lpp) as int + (rest as int) / 2) + (rest as int)
                % 2) by (nonlinear_arith)
                requires
                    v == b * pow2(lp) + rest,
                    pow2(lp) == 2 * pow2(lpp),
                    rest as int == 2 * ((rest as int) / 2) + (rest as int) % 2,
            ;
        }
        assert(rest / 2 < pow2(lpp)) by {
            assert(rest < 2 * pow2(lpp));
        }
        lemma_bit_rev_high_low(lp, b, rest / 2);
        assert(bit_rev(l, v) == (v % 2) * pow2(lp) + bit_rev(lp, v / 2));
        assert(bit_rev(lp, b * pow2(lpp) + rest / 2) == 2 * bit_rev(lpp, rest / 2) + b);
        assert(bit_rev(lp, rest) == (rest % 2) * pow2(lpp) + bit_rev(lpp, rest / 2));
        assert((rest % 2) * pow2(lp) + 2 * bit_rev(lpp, rest / 2) + b == 2 * ((rest % 2) * pow2(lpp)
            + bit_rev(lpp, rest / 2)) + b) by (nonlinear_arith)
            requires
                pow2(lp) == 2 * pow2(lpp),
        ;
    }
}

} // verus!

//! The lincheck argument for a block-diagonal instance: one product sumcheck ties the
//! folded witness to the claims on `A z` and `B z`, and leaves a single claim on `z`.

use crate::block_major::{bind_top, block_shape, FoldOptions};
use crate::challenger::Challenger;
use crate::circuit::{comb_table, LincheckCircuit};
use crate::dispatch::{block_fold_at, fold_block_major_one_shot_with, fold_granule, partial_fold_packed_z_best, FoldArch};
use crate::eq::{build_eq_table, build_quirky_eq_table, dot, eq_table, inner_product, lagrange_weights, lagrange_weights_naive, quirky_eq_table};
use crate::field::{fadd, fmul, fzero, F128};
use crate::num::pow2_usize;
use crate::stripe::{live_cols, stripe_fold};
use crate::sumcheck::{round_msg, sumcheck_bind_both_and_eval_next, sumcheck_bind_top_in_place_par, sumcheck_round_eval_par};
use vstd::arithmetic::power2::pow2;
use vstd::prelude::*;

verus! {

/// A claim point: one coordinate for all skipped variables, one for each of the other
/// inner variables, and one for each outer variable.
#[derive(Clone, Debug, PartialEq, Eq)]
pub struct QuirkyPoint {
    pub z_skip: F128,
    pub x_inner_rest: Vec<F128>,
    pub x_outer: Vec<F128>,
}

/// The prover's messages: `(q(1), q(inf))` of every round, and the folded witness
/// that is left when the rounds are over.
#[derive(Clone, Debug, PartialEq, Eq)]
pub struct LincheckProof {
    pub rounds: Vec<(F128, F128)>,
    pub z_partial: Vec<F128>,
}

/// The claim that is left: the value of the witness extension at the sampled inner
/// point and the outer half of the input point.
#[derive(Clone, Debug, PartialEq, Eq)]
pub struct LincheckClaim {
    pub r_inner_skip: F128,
    pub r_inner_rest: Vec<F128>,
    pub w: F128,
}

/// Why a proof was rejected.
#[derive(Clone, Debug, PartialEq, Eq)]
pub enum VerifyError {
    BadVectorLength { which: &'static str, expected: usize, got: usize },
    BadInnerRestLength { which: &'static str, expected: usize, got: usize },
    BadOuterLength { which: &'static str, expected: usize, got: usize },
    BadMatrixShape { which: &'static str, expected: usize, got_rows: usize, got_cols: usize },
    KSkipExceedsKLog { k_skip: usize, k_log: usize },
    ConsistencyFailed { which: &'static str },
}

/// A packed witness in one of its two layouts.
#[derive(Clone, Copy)]
pub enum PackedZ<'a> {
    LincheckStripe(&'a [u8]),
    BlockMajor(&'a [F128]),
}

/// The domain label `flock-lincheck-v0`.
pub open spec fn lincheck_label() -> Seq<u8> {
    seq![102u8, 108, 111, 99, 107, 45, 108, 105, 110, 99, 104, 101, 99, 107, 45, 118, 48]
}

fn label_bytes() -> (r: [u8; 17])
    ensures
        r@ == lincheck_label(),
{
    let r: [u8; 17] = [102, 108, 111, 99, 107, 45, 108, 105, 110, 99, 104, 101, 99, 107, 45, 118, 48];
    proof {
        assert(r@ =~= lincheck_label());
    }
    r
}

/// The batching challenges and the challenger's state behind them.
pub struct Batch<S> {
    pub alpha: F128,
    pub beta: Option<F128>,
    pub state: S,
}

/// The batching challenges drawn after the label; the second one only where a wire is
/// pinned.
pub open spec fn batch<Ch: Challenger>(s: Ch::S, pinned: bool) -> Batch<Ch::S> {
    let s0 = Ch::after_label(s, lincheck_label());
    let s1 = Ch::after_sample(s0);
    if pinned {
        Batch {
            alpha: Ch::challenge(s0),
            beta: Some(Ch::challenge(s1)),
            state: Ch::after_sample(s1),
        }
    } else {
        Batch { alpha: Ch::challenge(s0), beta: None, state: s1 }
    }
}

/// A table with `beta` added at the pinned column.
pub open spec fn with_pin(v: Seq<F128>, pin: Option<usize>, beta: Option<F128>) -> Seq<F128> {
    match (pin, beta) {
        (Some(col), Some(b)) => v.update(col as int, fadd(v[col as int], b)),
        _ => v,
    }
}

/// The batched matrix table that the sumcheck starts from.
pub open spec fn start_comb<C: LincheckCircuit>(
    circuit: &C,
    x: QuirkyPoint,
    k_skip: nat,
    alpha: F128,
    beta: Option<F128>,
) -> Seq<F128> {
    with_pin(
        comb_table(
            circuit.a_entry(),
            circuit.b_entry(),
            circuit.row_count(),
            circuit.cols(),
            alpha,
            quirky_eq_table(x.z_skip, x.x_inner_rest@, k_skip),
        ),
        circuit.pin(),
        beta,
    )
}

/// The value that the sumcheck starts from.
pub open spec fn start_target(alpha: F128, beta: Option<F128>, v_a: F128, v_b: F128) -> F128 {
    let t = fadd(fmul(alpha, v_a), v_b);
    match beta {
        Some(b) => fadd(t, b),
        None => t,
    }
}

/// The prover's side of some rounds.
pub struct ProverRun<S> {
    pub rounds: Seq<(F128, F128)>,
    pub rs: Seq<F128>,
    pub comb: Seq<F128>,
    pub z: Seq<F128>,
    pub state: S,
}

/// The state after a round's message went in.
pub open spec fn after_msg<Ch: Challenger>(s: Ch::S, msg: (F128, F128)) -> Ch::S {
    Ch::after_f128(Ch::after_f128(s, msg.0), msg.1)
}

/// `n` rounds of the honest prover: send the message, draw a challenge, bind.
pub open spec fn prover_run<Ch: Challenger>(
    s: Ch::S,
    comb: Seq<F128>,
    z: Seq<F128>,
    n: nat,
) -> ProverRun<Ch::S>
    decreases n,
{
    if n == 0 {
        ProverRun { rounds: Seq::empty(), rs: Seq::empty(), comb, z, state: s }
    } else {
        let p = prover_run::<Ch>(s, comb, z, (n - 1) as nat);
        let msg = round_msg(p.comb, p.z);
        let t = after_msg::<Ch>(p.state, msg);
        let r = Ch::challenge(t);
        ProverRun {
            rounds: p.rounds.push(msg),
            rs: p.rs.push(r),
            comb: bind_top(p.comb, r),
            z: bind_top(p.z, r),
            state: Ch::after_sample(t),
        }
    }
}

/// The verifier's side of some rounds.
pub struct VerifierRun<S> {
    pub rs: Seq<F128>,
    pub comb: Seq<F128>,
    pub running: F128,
    pub state: S,
}

/// The round polynomial at `r`, from the running claim and the message.
pub open spec fn round_value(running: F128, msg: (F128, F128), r: F128) -> F128 {
    let e0 = fadd(running, msg.0);
    let c1 = fadd(fadd(e0, msg.0), msg.1);
    fadd(fadd(fmul(fmul(msg.1, r), r), fmul(c1, r)), e0)
}

/// The first `n` rounds of the verifier on the given messages.
pub open spec fn verifier_run<Ch: Challenger>(
    s: Ch::S,
    comb: Seq<F128>,
    target: F128,
    rounds: Seq<(F128, F128)>,
    n: nat,
) -> VerifierRun<Ch::S>
    decreases n,
{
    if n == 0 {
        VerifierRun { rs: Seq::empty(), comb, running: target, state: s }
    } else {
        let p = verifier_run::<Ch>(s, comb, target, rounds, (n - 1) as nat);
        let msg = rounds[n - 1];
        let t = after_msg::<Ch>(p.state, msg);
        let r = Ch::challenge(t);
        VerifierRun {
            rs: p.rs.push(r),
            comb: bind_top(p.comb, r),
            running: round_value(p.running, msg, r),
            state: Ch::after_sample(t),
        }
    }
}

/// `claim` is what follows from `z_partial` once the rounds drew `rs` and ended in
/// state `s`.
pub open spec fn is_claim<Ch: Challenger>(
    claim: LincheckClaim,
    rs: Seq<F128>,
    z_partial: Seq<F128>,
    k_skip: nat,
    s: Ch::S,
) -> bool {
    let t = Ch::after_f128_slice(s, z_partial);
    &&& claim.r_inner_skip == Ch::challenge(t)
    &&& claim.r_inner_rest@ == rs.reverse()
    &&& claim.w == dot(lagrange_weights(k_skip, Ch::challenge(t)), z_partial, pow2(k_skip))
}

/// The state behind an accepted proof.
pub open spec fn after_claim<Ch: Challenger>(z_partial: Seq<F128>, s: Ch::S) -> Ch::S {
    Ch::after_sample(Ch::after_f128_slice(s, z_partial))
}

/// The honest prover's rounds on the folded witness `z_vec`.
pub open spec fn honest_run<Ch: Challenger, C: LincheckCircuit>(
    s: Ch::S,
    circuit: &C,
    x: QuirkyPoint,
    k_skip: nat,
    z_vec: Seq<F128>,
) -> ProverRun<Ch::S> {
    let b = batch::<Ch>(s, circuit.pin() is Some);
    prover_run::<Ch>(
        b.state,
        start_comb(circuit, x, k_skip, b.alpha, b.beta),
        z_vec,
        x.x_inner_rest@.len(),
    )
}

/// `proof` and `claim` are what the honest prover sends for the folded witness
/// `z_vec`.
pub open spec fn is_honest<Ch: Challenger, C: LincheckCircuit>(
    s: Ch::S,
    circuit: &C,
    x: QuirkyPoint,
    k_skip: nat,
    z_vec: Seq<F128>,
    proof: LincheckProof,
    claim: LincheckClaim,
) -> bool {
    let run = honest_run::<Ch, C>(s, circuit, x, k_skip, z_vec);
    &&& proof.rounds@ == run.rounds
    &&& proof.z_partial@ == run.z
    &&& is_claim::<Ch>(claim, run.rs, run.z, k_skip, run.state)
}

/// The state behind the honest prover.
pub open spec fn after_honest<Ch: Challenger, C: LincheckCircuit>(
    s: Ch::S,
    circuit: &C,
    x: QuirkyPoint,
    k_skip: nat,
    z_vec: Seq<F128>,
) -> Ch::S {
    let run = honest_run::<Ch, C>(s, circuit, x, k_skip, z_vec);
    after_claim::<Ch>(run.z, run.state)
}

/// The verifier's rounds on a proof.
pub open spec fn checked_run<Ch: Challenger, C: LincheckCircuit>(
    s: Ch::S,
    circuit: &C,
    x: QuirkyPoint,
    k_skip: nat,
    v_a: F128,
    v_b: F128,
    rounds: Seq<(F128, F128)>,
) -> VerifierRun<Ch::S> {
    let b = batch::<Ch>(s, circuit.pin() is Some);
    verifier_run::<Ch>(
        b.state,
        start_comb(circuit, x, k_skip, b.alpha, b.beta),
        start_target(b.alpha, b.beta, v_a, v_b),
        rounds,
        rounds.len(),
    )
}

/// Whether the last check of a proof passes.
pub open spec fn final_ok<S>(run: VerifierRun<S>, z_partial: Seq<F128>) -> bool {
    run.running == dot(run.comb, z_partial, run.comb.len())
}

/// The first shape check that fails, in the order in which they are made.
pub open spec fn shape_error(
    m: usize,
    k_log: usize,
    k_skip: usize,
    cols: nat,
    x: QuirkyPoint,
    proof: LincheckProof,
) -> Option<VerifyError> {
    let rest = (k_log - k_skip) as usize;
    let n_log = (m - k_log) as usize;
    let k = pow2(k_log as nat) as usize;
    let n_skip = pow2(k_skip as nat) as usize;
    if k_skip > k_log {
        Some(VerifyError::KSkipExceedsKLog { k_skip, k_log })
    } else if x.x_inner_rest@.len() != rest {
        Some(
            VerifyError::BadInnerRestLength {
                which: "x_ab",
                expected: rest,
                got: x.x_inner_rest@.len() as usize,
            },
        )
    } else if x.x_outer@.len() != n_log {
        Some(
            VerifyError::BadOuterLength {
                which: "x_ab",
                expected: n_log,
                got: x.x_outer@.len() as usize,
            },
        )
    } else if cols != k {
        Some(
            VerifyError::BadMatrixShape {
                which: "circuit",
                expected: k,
                got_rows: k,
                got_cols: cols as usize,
            },
        )
    } else if proof.rounds@.len() != rest {
        Some(
            VerifyError::BadVectorLength {
                which: "rounds",
                expected: rest,
                got: proof.rounds@.len() as usize,
            },
        )
    } else if proof.z_partial@.len() != n_skip {
        Some(
            VerifyError::BadVectorLength {
                which: "z_partial",
                expected: n_skip,
                got: proof.z_partial@.len() as usize,
            },
        )
    } else {
        None
    }
}

/// The circuit fits its own column count: no row is out of reach, and the pinned wire
/// is a column.
pub open spec fn circuit_fits<C: LincheckCircuit>(circuit: &C) -> bool {
    &&& circuit.row_count() <= circuit.cols()
    &&& circuit.pin() matches Some(col) ==> col < circuit.cols()
}

/// The label, and then the batched table with its challenges: what prover and verifier
/// both start with.
fn open_batch<Ch: Challenger, C: LincheckCircuit>(
    circuit: &C,
    x_ab: &QuirkyPoint,
    k_skip: usize,
    challenger: &mut Ch,
) -> (out: (Vec<F128>, F128, Option<F128>))
    requires
        circuit.wf(),
        circuit_fits(circuit),
        k_skip + x_ab.x_inner_rest@.len() < usize::BITS,
        circuit.cols() == pow2(k_skip as nat + x_ab.x_inner_rest@.len()),
    ensures
        ({
            let b = batch::<Ch>(old(challenger).state(), circuit.pin() is Some);
            &&& out.0@ == start_comb(circuit, *x_ab, k_skip as nat, b.alpha, b.beta)
            &&& out.1 == b.alpha
            &&& out.2 == b.beta
            &&& final(challenger).state() == b.state
        }),
{
    let label: [u8; 17] = label_bytes();
    challenger.observe_label(label.as_slice());
    let alpha: F128 = challenger.sample_f128();
    let eq_inner: Vec<F128> = build_quirky_eq_table(
        x_ab.z_skip,
        x_ab.x_inner_rest.as_slice(),
        k_skip,
    );
    let mut comb: Vec<F128> = circuit.fold_alpha_batched(alpha, eq_inner.as_slice());
    let beta: Option<F128> = match circuit.const_pin_col() {
        Some(col) => {
            let b: F128 = challenger.sample_f128();
            let pinned: F128 = comb[col] + b;
            comb.set(col, pinned);
            Some(b)
        },
        None => None,
    };
    (comb, alpha, beta)
}

/// What prover and verifier both end with: the last challenge and the claim.
fn close_claim<Ch: Challenger>(
    k_skip: usize,
    z_partial: &Vec<F128>,
    rs: Vec<F128>,
    challenger: &mut Ch,
    Ghost(s): Ghost<Ch::S>,
) -> (claim: LincheckClaim)
    requires
        k_skip < usize::BITS,
        z_partial@.len() == pow2(k_skip as nat),
        old(challenger).state() == Ch::after_f128_slice(s, z_partial@),
    ensures
        is_claim::<Ch>(claim, rs@, z_partial@, k_skip as nat, s),
        final(challenger).state() == after_claim::<Ch>(z_partial@, s),
{
    let r_inner_skip: F128 = challenger.sample_f128();
    let lambda: Vec<F128> = lagrange_weights_naive(k_skip, r_inner_skip);
    let w: F128 = inner_product(lambda.as_slice(), z_partial.as_slice());
    let r_inner_rest: Vec<F128> = reversed(&rs);
    LincheckClaim { r_inner_skip, r_inner_rest, w }
}

/// The entries in the opposite order.
fn reversed(v: &Vec<F128>) -> (out: Vec<F128>)
    ensures
        out@ == v@.reverse(),
{
    let n: usize = v.len();
    let mut out: Vec<F128> = Vec::with_capacity(n);
    let mut i: usize = 0;
    while i < n
        invariant
            i <= n,
            n == v@.len(),
            out@.len() == i,
            forall|j: int| 0 <= j < i ==> #[trigger] out@[j] == v@[n - 1 - j],
        decreases n - i,
    {
        out.push(v[n - 1 - i]);
        i = i + 1;
    }
    proof {
        assert(out@ =~= v@.reverse());
    }
    out
}

/// A copy of a table.
fn copied(v: &Vec<F128>) -> (out: Vec<F128>)
    ensures
        out@ == v@,
{
    let n: usize = v.len();
    let mut out: Vec<F128> = Vec::with_capacity(n);
    let mut i: usize = 0;
    while i < n
        invariant
            i <= n,
            n == v@.len(),
            out@ == v@.take(i as int),
        decreases n - i,
    {
        out.push(v[i]);
        proof {
            assert(v@.take(i + 1) =~= v@.take(i as int).push(v@[i as int]));
        }
        i = i + 1;
    }
    proof {
        assert(v@.take(n as int) =~= v@);
    }
    out
}

/// The prover's tables keep their common length: `2^(k_log - n)` after `n` rounds.
pub proof fn lemma_prover_lengths<Ch: Challenger>(
    s: Ch::S,
    comb: Seq<F128>,
    z: Seq<F128>,
    k_log: nat,
    n: nat,
)
    requires
        comb.len() == pow2(k_log),
        z.len() == pow2(k_log),
        n <= k_log,
    ensures
        prover_run::<Ch>(s, comb, z, n).comb.len() == pow2((k_log - n) as nat),
        prover_run::<Ch>(s, comb, z, n).z.len() == pow2((k_log - n) as nat),
        prover_run::<Ch>(s, comb, z, n).rounds.len() == n,
        prover_run::<Ch>(s, comb, z, n).rs.len() == n,
    decreases n,
{
    if n > 0 {
        lemma_prover_lengths::<Ch>(s, comb, z, k_log, (n - 1) as nat);
        vstd::arithmetic::power2::lemma_pow2_unfold((k_log - n + 1) as nat);
        assert((k_log - (n - 1)) as nat == (k_log - n + 1) as nat);
    }
}

/// The verifier's table keeps pace: `2^(k_log - n)` entries after `n` rounds.
pub proof fn lemma_verifier_lengths<Ch: Challenger>(
    s: Ch::S,
    comb: Seq<F128>,
    target: F128,
    rounds: Seq<(F128, F128)>,
    k_log: nat,
    n: nat,
)
    requires
        comb.len() == pow2(k_log),
        n <= k_log,
    ensures
        verifier_run::<Ch>(s, comb, target, rounds, n).comb.len() == pow2((k_log - n) as nat),
        verifier_run::<Ch>(s, comb, target, rounds, n).rs.len() == n,
    decreases n,
{
    if n > 0 {
        lemma_verifier_lengths::<Ch>(s, comb, target, rounds, k_log, (n - 1) as nat);
        vstd::arithmetic::power2::lemma_pow2_unfold((k_log - n + 1) as nat);
        assert((k_log - (n - 1)) as nat == (k_log - n + 1) as nat);
    }
}

/// The prover's rounds, with each round's message coming out of the previous bind.
fn prove_rounds<Ch: Challenger>(
    comb: Vec<F128>,
    z_vec: Vec<F128>,
    k_log: usize,
    n: usize,
    challenger: &mut Ch,
) -> (out: (Vec<(F128, F128)>, Vec<F128>, Vec<F128>))
    requires
        comb@.len() == pow2(k_log as nat),
        z_vec@.len() == pow2(k_log as nat),
        n <= k_log,
    ensures
        ({
            let run = prover_run::<Ch>(old(challenger).state(), comb@, z_vec@, n as nat);
            &&& out.0@ == run.rounds
            &&& out.1@ == run.rs
            &&& out.2@ == run.z
            &&& final(challenger).state() == run.state
        }),
{
    let ghost s0 = challenger.state();
    let ghost (c0, z0) = (comb@, z_vec@);
    let mut comb: Vec<F128> = comb;
    let mut z: Vec<F128> = z_vec;
    let mut rounds: Vec<(F128, F128)> = Vec::with_capacity(n);
    let mut rs: Vec<F128> = Vec::with_capacity(n);
    if n == 0 {
        return (rounds, rs, z);
    }
    let mut msg: (F128, F128) = sumcheck_round_eval_par(comb.as_slice(), z.as_slice());
    let mut t: usize = 0;
    while t < n
        invariant
            t <= n <= k_log,
            c0.len() == pow2(k_log as nat),
            z0.len() == pow2(k_log as nat),
            rounds@ == prover_run::<Ch>(s0, c0, z0, t as nat).rounds,
            rs@ == prover_run::<Ch>(s0, c0, z0, t as nat).rs,
            comb@ == prover_run::<Ch>(s0, c0, z0, t as nat).comb,
            z@ == prover_run::<Ch>(s0, c0, z0, t as nat).z,
            challenger.state() == prover_run::<Ch>(s0, c0, z0, t as nat).state,
            t < n ==> msg == round_msg(comb@, z@),
        decreases n - t,
    {
        challenger.observe_f128(msg.0);
        challenger.observe_f128(msg.1);
        let r: F128 = challenger.sample_f128();
        rounds.push(msg);
        rs.push(r);
        proof {
            lemma_prover_lengths::<Ch>(s0, c0, z0, k_log as nat, t as nat);
        }
        if t + 1 < n {
            proof {
                let e = (k_log - t) as nat;
                vstd::arithmetic::power2::lemma_pow2_unfold(e);
                vstd::arithmetic::power2::lemma_pow2_unfold((e - 1) as nat);
                vstd::arithmetic::power2::lemma_pow2_pos((e - 2) as nat);
            }
            msg = sumcheck_bind_both_and_eval_next(&mut comb, &mut z, r);
        } else {
            sumcheck_bind_top_in_place_par(&mut comb, r);
            sumcheck_bind_top_in_place_par(&mut z, r);
        }
        t = t + 1;
    }
    (rounds, rs, z)
}

/// The folded witness that a proof speaks of.
pub open spec fn witness_fold(
    z: PackedZ,
    m: int,
    k_log: nat,
    useful: int,
    x_outer: Seq<F128>,
    arch: FoldArch,
) -> Seq<F128> {
    let k = pow2(k_log) as int;
    match z {
        PackedZ::LincheckStripe(bytes) => Seq::new(
            k as nat,
            |i: int|
                if i < live_cols(useful, fold_granule(arch, m, k_log as int), k) {
                    stripe_fold(bytes@, k, eq_table(x_outer), i)
                } else {
                    fzero()
                },
        ),
        PackedZ::BlockMajor(words) => block_fold_at(words@, k, x_outer, useful),
    }
}

/// Whether a packed witness has the size that `(m, k_log)` asks for.
pub open spec fn witness_shape(z: PackedZ, m: int, k_log: int) -> bool {
    match z {
        PackedZ::LincheckStripe(bytes) => k_log >= 0 && k_log + 3 <= m < usize::BITS && bytes@.len()
            == pow2(m as nat) / 8,
        PackedZ::BlockMajor(words) => block_shape(
            words@,
            m,
            k_log,
            pow2((m - k_log) as nat),
        ),
    }
}

/// What the prover needs of its inputs besides the witness.
pub open spec fn prover_input<C: LincheckCircuit>(
    m: int,
    k_log: int,
    k_skip: int,
    useful_bits: int,
    circuit: &C,
    x: QuirkyPoint,
) -> bool {
    &&& circuit.wf()
    &&& circuit_fits(circuit)
    &&& k_skip <= k_log
    &&& useful_bits <= pow2(k_log as nat)
    &&& circuit.cols() == pow2(k_log as nat)
    &&& x.x_inner_rest@.len() == k_log - k_skip
    &&& x.x_outer@.len() == m - k_log
}

/// Folds the witness over the outer variables.
fn fold_witness(
    z_packed: PackedZ<'_>,
    m: usize,
    k_log: usize,
    useful_bits: usize,
    x_outer: &[F128],
    arch: FoldArch,
    opts: FoldOptions,
) -> (out: Vec<F128>)
    requires
        witness_shape(z_packed, m as int, k_log as int),
        useful_bits <= pow2(k_log as nat),
        x_outer@.len() == m - k_log,
    ensures
        out@ == witness_fold(z_packed, m as int, k_log as nat, useful_bits as int, x_outer@, arch),
{
    match z_packed {
        PackedZ::LincheckStripe(bytes) => {
            let eq: Vec<F128> = build_eq_table(x_outer);
            let out: Vec<F128> = partial_fold_packed_z_best(
                bytes,
                m,
                k_log,
                useful_bits,
                eq.as_slice(),
                arch,
            );
            proof {
                assert(out@ =~= witness_fold(
                    z_packed,
                    m as int,
                    k_log as nat,
                    useful_bits as int,
                    x_outer@,
                    arch,
                ));
            }
            out
        },
        PackedZ::BlockMajor(words) => fold_block_major_one_shot_with(
            words,
            m,
            k_log,
            useful_bits,
            x_outer,
            None,
            opts,
        ),
    }
}

/// Proves an instance, on the witness or on a fold of it that is already there, and
/// hands out the folded witness where that is asked for. `arch` and `opts` say how a
/// witness in either layout is folded.
pub fn prove_padded_inner<Ch: Challenger, C: LincheckCircuit>(
    z_packed: PackedZ<'_>,
    m: usize,
    k_log: usize,
    k_skip: usize,
    useful_bits: usize,
    circuit: &C,
    x_ab: &QuirkyPoint,
    capture_z_vec: bool,
    kicked: Option<Vec<F128>>,
    arch: FoldArch,
    opts: FoldOptions,
    challenger: &mut Ch,
) -> (out: (LincheckProof, LincheckClaim, Option<Vec<F128>>))
    requires
        witness_shape(z_packed, m as int, k_log as int),
        prover_input(
            m as int,
            k_log as int,
            k_skip as int,
            useful_bits as int,
            circuit,
            *x_ab,
        ),
        kicked matches Some(v) ==> v@ == witness_fold(
            z_packed,
            m as int,
            k_log as nat,
            useful_bits as int,
            x_ab.x_outer@,
            arch,
        ),
    ensures
        ({
            let z_vec = witness_fold(
                z_packed,
                m as int,
                k_log as nat,
                useful_bits as int,
                x_ab.x_outer@,
                arch,
            );
            let s = old(challenger).state();
            &&& is_honest::<Ch, C>(s, circuit, *x_ab, k_skip as nat, z_vec, out.0, out.1)
            &&& final(challenger).state() == after_honest::<Ch, C>(
                s,
                circuit,
                *x_ab,
                k_skip as nat,
                z_vec,
            )
            &&& capture_z_vec == (out.2 is Some)
            &&& out.2 matches Some(v) ==> v@ == z_vec
        }),
{
    let rest: usize = k_log - k_skip;
    let (comb, _alpha, _beta) = open_batch(circuit, x_ab, k_skip, challenger);
    let z_vec: Vec<F128> = match kicked {
        Some(v) => v,
        None => fold_witness(
            z_packed,
            m,
            k_log,
            useful_bits,
            x_ab.x_outer.as_slice(),
            arch,
            opts,
        ),
    };
    let captured: Option<Vec<F128>> = if capture_z_vec {
        Some(copied(&z_vec))
    } else {
        None
    };
    let ghost (s1, c1, zv) = (challenger.state(), comb@, z_vec@);
    let (rounds, rs, z_partial) = prove_rounds(comb, z_vec, k_log, rest, challenger);
    let ghost s2 = challenger.state();
    proof {
        lemma_prover_lengths::<Ch>(s1, c1, zv, k_log as nat, rest as nat);
    }
    challenger.observe_f128_slice(z_partial.as_slice());
    let claim: LincheckClaim = close_claim(k_skip, &z_partial, rs, challenger, Ghost(s2));
    (LincheckProof { rounds, z_partial }, claim, captured)
}

/// Proves an instance whose witness is in the stripe layout.
pub fn prove<Ch: Challenger, C: LincheckCircuit>(
    z_packed: &[u8],
    m: usize,
    k_log: usize,
    k_skip: usize,
    circuit: &C,
    x_ab: &QuirkyPoint,
    challenger: &mut Ch,
) -> (out: (LincheckProof, LincheckClaim))
    requires
        witness_shape(PackedZ::LincheckStripe(z_packed), m as int, k_log as int),
        prover_input(
            m as int,
            k_log as int,
            k_skip as int,
            pow2(k_log as nat) as int,
            circuit,
            *x_ab,
        ),
    ensures
        ({
            let z_vec = witness_fold(
                PackedZ::LincheckStripe(z_packed),
                m as int,
                k_log as nat,
                pow2(k_log as nat) as int,
                x_ab.x_outer@,
                FoldArch::Portable,
            );
            let s = old(challenger).state();
            &&& is_honest::<Ch, C>(s, circuit, *x_ab, k_skip as nat, z_vec, out.0, out.1)
            &&& final(challenger).state() == after_honest::<Ch, C>(
                s,
                circuit,
                *x_ab,
                k_skip as nat,
                z_vec,
            )
        }),
{
    let k: usize = pow2_usize(k_log);
    prove_padded(z_packed, m, k_log, k_skip, k, circuit, x_ab, challenger)
}

/// [`prove`] for a witness whose blocks carry data in their first `useful_bits` rows.
pub fn prove_padded<Ch: Challenger, C: LincheckCircuit>(
    z_packed: &[u8],
    m: usize,
    k_log: usize,
    k_skip: usize,
    useful_bits: usize,
    circuit: &C,
    x_ab: &QuirkyPoint,
    challenger: &mut Ch,
) -> (out: (LincheckProof, LincheckClaim))
    requires
        witness_shape(PackedZ::LincheckStripe(z_packed), m as int, k_log as int),
        prover_input(
            m as int,
            k_log as int,
            k_skip as int,
            useful_bits as int,
            circuit,
            *x_ab,
        ),
    ensures
        ({
            let z_vec = witness_fold(
                PackedZ::LincheckStripe(z_packed),
                m as int,
                k_log as nat,
                useful_bits as int,
                x_ab.x_outer@,
                FoldArch::Portable,
            );
            let s = old(challenger).state();
            &&& is_honest::<Ch, C>(s, circuit, *x_ab, k_skip as nat, z_vec, out.0, out.1)
            &&& final(challenger).state() == after_honest::<Ch, C>(
                s,
                circuit,
                *x_ab,
                k_skip as nat,
                z_vec,
            )
        }),
{
    let (proof, claim, _captured) = prove_padded_inner(
        PackedZ::LincheckStripe(z_packed),
        m,
        k_log,
        k_skip,
        useful_bits,
        circuit,
        x_ab,
        false,
        None,
        FoldArch::Portable,
        FoldOptions::portable(),
        challenger,
    );
    (proof, claim)
}

/// [`prove_padded`] that also returns the folded witness.
pub fn prove_padded_capture_z_vec<Ch: Challenger, C: LincheckCircuit>(
    z_packed: &[u8],
    m: usize,
    k_log: usize,
    k_skip: usize,
    useful_bits: usize,
    circuit: &C,
    x_ab: &QuirkyPoint,
    challenger: &mut Ch,
) -> (out: (LincheckProof, LincheckClaim, Vec<F128>))
    requires
        witness_shape(PackedZ::LincheckStripe(z_packed), m as int, k_log as int),
        prover_input(
            m as int,
            k_log as int,
            k_skip as int,
            useful_bits as int,
            circuit,
            *x_ab,
        ),
    ensures
        ({
            let z_vec = witness_fold(
                PackedZ::LincheckStripe(z_packed),
                m as int,
                k_log as nat,
                useful_bits as int,
                x_ab.x_outer@,
                FoldArch::Portable,
            );
            let s = old(challenger).state();
            &&& is_honest::<Ch, C>(s, circuit, *x_ab, k_skip as nat, z_vec, out.0, out.1)
            &&& final(challenger).state() == after_honest::<Ch, C>(
                s,
                circuit,
                *x_ab,
                k_skip as nat,
                z_vec,
            )
            &&& out.2@ == z_vec
        }),
{
    let (proof, claim, captured) = prove_padded_inner(
        PackedZ::LincheckStripe(z_packed),
        m,
        k_log,
        k_skip,
        useful_bits,
        circuit,
        x_ab,
        true,
        None,
        FoldArch::Portable,
        FoldOptions::portable(),
        challenger,
    );
    (proof, claim, captured.unwrap())
}

/// [`prove_padded_capture_z_vec`] for a witness in the block-major layout.
pub fn prove_padded_capture_z_vec_block_major<Ch: Challenger, C: LincheckCircuit>(
    z_packed: &[F128],
    m: usize,
    k_log: usize,
    k_skip: usize,
    useful_bits: usize,
    circuit: &C,
    x_ab: &QuirkyPoint,
    challenger: &mut Ch,
) -> (out: (LincheckProof, LincheckClaim, Vec<F128>))
    requires
        witness_shape(PackedZ::BlockMajor(z_packed), m as int, k_log as int),
        prover_input(
            m as int,
            k_log as int,
            k_skip as int,
            useful_bits as int,
            circuit,
            *x_ab,
        ),
    ensures
        ({
            let z_vec = block_fold_at(
                z_packed@,
                pow2(k_log as nat) as int,
                x_ab.x_outer@,
                useful_bits as int,
            );
            let s = old(challenger).state();
            &&& is_honest::<Ch, C>(s, circuit, *x_ab, k_skip as nat, z_vec, out.0, out.1)
            &&& final(challenger).state() == after_honest::<Ch, C>(
                s,
                circuit,
                *x_ab,
                k_skip as nat,
                z_vec,
            )
            &&& out.2@ == z_vec
        }),
{
    let (proof, claim, captured) = prove_padded_inner(
        PackedZ::BlockMajor(z_packed),
        m,
        k_log,
        k_skip,
        useful_bits,
        circuit,
        x_ab,
        true,
        None,
        FoldArch::Portable,
        FoldOptions::portable(),
        challenger,
    );
    (proof, claim, captured.unwrap())
}

/// Checks a proof against the claims `v_a` and `v_b`, walking the challenger in step
/// with the prover, and derives the claim that is left.
pub fn verify<Ch: Challenger, C: LincheckCircuit>(
    m: usize,
    k_log: usize,
    k_skip: usize,
    circuit: &C,
    x_ab: &QuirkyPoint,
    v_a: F128,
    v_b: F128,
    proof: &LincheckProof,
    challenger: &mut Ch,
) -> (r: Result<LincheckClaim, VerifyError>)
    requires
        k_log <= m,
        k_log < usize::BITS,
        circuit.wf(),
        shape_error(m, k_log, k_skip, circuit.cols(), *x_ab, *proof) is None ==> circuit_fits(
            circuit,
        ),
    ensures
        match shape_error(m, k_log, k_skip, circuit.cols(), *x_ab, *proof) {
            Some(e) => r == Err::<LincheckClaim, VerifyError>(e) && final(challenger).state() == old(
                challenger,
            ).state(),
            None => {
                let s = old(challenger).state();
                let run = checked_run::<Ch, C>(
                    s,
                    circuit,
                    *x_ab,
                    k_skip as nat,
                    v_a,
                    v_b,
                    proof.rounds@,
                );
                if final_ok(run, proof.z_partial@) {
                    &&& r matches Ok(claim) && is_claim::<Ch>(
                        claim,
                        run.rs,
                        proof.z_partial@,
                        k_skip as nat,
                        run.state,
                    )
                    &&& final(challenger).state() == after_claim::<Ch>(
                        proof.z_partial@,
                        run.state,
                    )
                } else {
                    &&& r == Err::<LincheckClaim, VerifyError>(
                        VerifyError::ConsistencyFailed { which: "sumcheck-final" },
                    )
                    &&& final(challenger).state() == Ch::after_f128_slice(
                        run.state,
                        proof.z_partial@,
                    )
                }
            },
        },
{
    let k: usize = pow2_usize(k_log);
    let n_log: usize = m - k_log;
    if k_skip > k_log {
        return Err(VerifyError::KSkipExceedsKLog { k_skip, k_log });
    }
    let rest: usize = k_log - k_skip;
    let n_skip: usize = pow2_usize(k_skip);
    if x_ab.x_inner_rest.len() != rest {
        return Err(
            VerifyError::BadInnerRestLength {
                which: "x_ab",
                expected: rest,
                got: x_ab.x_inner_rest.len(),
            },
        );
    }
    if x_ab.x_outer.len() != n_log {
        return Err(
            VerifyError::BadOuterLength {
                which: "x_ab",
                expected: n_log,
                got: x_ab.x_outer.len(),
            },
        );
    }
    let n_cols: usize = circuit.n_cols();
    if n_cols != k {
        return Err(
            VerifyError::BadMatrixShape {
                which: "circuit",
                expected: k,
                got_rows: k,
                got_cols: n_cols,
            },
        );
    }
    if proof.rounds.len() != rest {
        return Err(
            VerifyError::BadVectorLength {
                which: "rounds",
                expected: rest,
                got: proof.rounds.len(),
            },
        );
    }
    if proof.z_partial.len() != n_skip {
        return Err(
            VerifyError::BadVectorLength {
                which: "z_partial",
                expected: n_skip,
                got: proof.z_partial.len(),
            },
        );
    }
    let (comb0, alpha, beta) = open_batch(circuit, x_ab, k_skip, challenger);
    let mut comb: Vec<F128> = comb0;
    let mut running: F128 = alpha * v_a + v_b;
    if let Some(b) = beta {
        running = running + b;
    }
    let ghost (s1, c1, target) = (challenger.state(), comb@, running);
    let ghost msgs = proof.rounds@;
    let mut rs: Vec<F128> = Vec::with_capacity(rest);
    let mut t: usize = 0;
    while t < rest
        invariant
            t <= rest,
            rest == proof.rounds@.len(),
            msgs == proof.rounds@,
            rs@ == verifier_run::<Ch>(s1, c1, target, msgs, t as nat).rs,
            comb@ == verifier_run::<Ch>(s1, c1, target, msgs, t as nat).comb,
            running == verifier_run::<Ch>(s1, c1, target, msgs, t as nat).running,
            challenger.state() == verifier_run::<Ch>(s1, c1, target, msgs, t as nat).state,
        decreases rest - t,
    {
        let (e1, einf) = proof.rounds[t];
        challenger.observe_f128(e1);
        challenger.observe_f128(einf);
        let r: F128 = challenger.sample_f128();
        let e0: F128 = running + e1;
        let c1x: F128 = e0 + e1 + einf;
        running = einf * r * r + c1x * r + e0;
        sumcheck_bind_top_in_place_par(&mut comb, r);
        rs.push(r);
        t = t + 1;
    }
    proof {
        lemma_verifier_lengths::<Ch>(s1, c1, target, msgs, k_log as nat, rest as nat);
    }
    let ghost s2 = challenger.state();
    challenger.observe_f128_slice(proof.z_partial.as_slice());
    let final_sum: F128 = inner_product(comb.as_slice(), proof.z_partial.as_slice());
    if running != final_sum {
        return Err(VerifyError::ConsistencyFailed { which: "sumcheck-final" });
    }
    Ok(close_claim(k_skip, &proof.z_partial, rs, challenger, Ghost(s2)))
}

} // verus!

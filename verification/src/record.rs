//! What prover and verifier draw, and when: the record of their challenger calls. Every
//! challenge that a proof or a claim speaks of is the answer to one call of the record.

use crate::challenger::{random_after, Challenger, RandomChallenger};
use crate::circuit::LincheckCircuit;
use crate::eq::dot;
use crate::field::{fadd, fzero, F128};
use crate::field::lemma_add_zero;
use crate::lincheck::{after_claim, after_honest, batch, checked_run, circuit_fits, final_ok, honest_run, is_claim, is_honest, prover_run, shape_error, start_comb, start_target, verifier_run, LincheckClaim, LincheckProof, QuirkyPoint, VerifyError};
use crate::lincheck_laws::{is_fold_of, true_value};
use crate::lincheck_soundness::{lemma_alpha_cancels_once, lemma_error_of_the_claims};
use crate::poly::lemma_differ;
use vstd::arithmetic::power2::pow2;
use vstd::prelude::*;

verus! {

/// One call of a challenger.
pub enum Call {
    Label(Seq<u8>),
    Scalar(F128),
    Slice(Seq<F128>),
    Draw,
}

/// The state behind one call.
pub open spec fn called<Ch: Challenger>(s: Ch::S, call: Call) -> Ch::S {
    match call {
        Call::Label(l) => Ch::after_label(s, l),
        Call::Scalar(v) => Ch::after_f128(s, v),
        Call::Slice(vs) => Ch::after_f128_slice(s, vs),
        Call::Draw => Ch::after_sample(s),
    }
}

/// The state behind a record of calls.
pub open spec fn replayed<Ch: Challenger>(s: Ch::S, calls: Seq<Call>) -> Ch::S
    decreases calls.len(),
{
    if calls.len() == 0 {
        s
    } else {
        called::<Ch>(replayed::<Ch>(s, calls.drop_last()), calls.last())
    }
}

/// What a draw at place `i` of a record answers.
pub open spec fn drawn<Ch: Challenger>(s: Ch::S, calls: Seq<Call>, i: int) -> F128 {
    Ch::challenge(replayed::<Ch>(s, calls.take(i)))
}

/// The calls before the rounds: the label `flock-lincheck-v0`, a draw, and a second draw
/// where a wire is pinned.
pub open spec fn opening(pinned: bool) -> Seq<Call> {
    let label = seq![
        0x66u8, 0x6c, 0x6f, 0x63, 0x6b, 0x2d, 0x6c, 0x69, 0x6e, 0x63, 0x68, 0x65, 0x63, 0x6b, 0x2d,
        0x76, 0x30,
    ];
    if pinned {
        seq![Call::Label(label), Call::Draw, Call::Draw]
    } else {
        seq![Call::Label(label), Call::Draw]
    }
}

/// The calls of the rounds: both parts of each message, and a draw.
pub open spec fn round_calls(rounds: Seq<(F128, F128)>) -> Seq<Call> {
    Seq::new(
        3 * rounds.len(),
        |i: int|
            if i % 3 == 0 {
                Call::Scalar(rounds[i / 3].0)
            } else if i % 3 == 1 {
                Call::Scalar(rounds[i / 3].1)
            } else {
                Call::Draw
            },
    )
}

/// The whole record of a proof.
pub open spec fn record(pinned: bool, p: LincheckProof) -> Seq<Call> {
    opening(pinned) + round_calls(p.rounds@) + seq![Call::Slice(p.z_partial@), Call::Draw]
}

/// Where the draw of round `t` stands in the record.
pub open spec fn round_draw(pinned: bool, t: int) -> int {
    opening(pinned).len() as int + 3 * t + 2
}

/// Where the last draw stands in the record.
pub open spec fn last_draw(pinned: bool, p: LincheckProof) -> int {
    opening(pinned).len() as int + 3 * p.rounds@.len() + 1
}

proof fn lemma_replay_push<Ch: Challenger>(s: Ch::S, calls: Seq<Call>, c: Call)
    ensures
        replayed::<Ch>(s, calls.push(c)) == called::<Ch>(replayed::<Ch>(s, calls), c),
{
    assert(calls.push(c).drop_last() =~= calls);
}

proof fn lemma_replay_opening<Ch: Challenger>(s: Ch::S, pinned: bool)
    ensures
        ({
            let b = batch::<Ch>(s, pinned);
            &&& b.alpha == drawn::<Ch>(s, opening(pinned), 1)
            &&& b.beta is Some == pinned
            &&& pinned ==> b.beta == Some(drawn::<Ch>(s, opening(pinned), 2))
            &&& b.state == replayed::<Ch>(s, opening(pinned))
        }),
{
    let o = opening(pinned);
    assert(o[0] == Call::Label(crate::lincheck::lincheck_label())) by {
        assert(o[0]->Label_0 =~= crate::lincheck::lincheck_label());
    }
    let none = Seq::<Call>::empty();
    lemma_replay_push::<Ch>(s, none, o[0]);
    assert(o.take(1) =~= none.push(o[0]));
    lemma_replay_push::<Ch>(s, o.take(1), Call::Draw);
    assert(o.take(2) =~= o.take(1).push(Call::Draw));
    if pinned {
        lemma_replay_push::<Ch>(s, o.take(2), Call::Draw);
        assert(o =~= o.take(2).push(Call::Draw));
    } else {
        assert(o =~= o.take(2));
    }
}

/// A round in the record: its message goes in, and a draw follows.
proof fn lemma_replay_round<Ch: Challenger>(
    s: Ch::S,
    head: Seq<Call>,
    rounds: Seq<(F128, F128)>,
    n: int,
)
    requires
        0 <= n < rounds.len(),
    ensures
        ({
            let before = replayed::<Ch>(s, head + round_calls(rounds.take(n)));
            let t = Ch::after_f128(Ch::after_f128(before, rounds[n].0), rounds[n].1);
            let all = head + round_calls(rounds);
            &&& all.take(head.len() as int + 3 * n) == head + round_calls(rounds.take(n))
            &&& drawn::<Ch>(s, all, head.len() as int + 3 * n + 2) == Ch::challenge(t)
            &&& replayed::<Ch>(s, head + round_calls(rounds.take(n + 1))) == Ch::after_sample(t)
        }),
{
    let all = head + round_calls(rounds);
    let at = head.len() as int + 3 * n;
    let (x, y) = (Call::Scalar(rounds[n].0), Call::Scalar(rounds[n].1));
    let a = head + round_calls(rounds.take(n));
    assert(all.take(at) =~= a);
    assert((3 * n) / 3 == n && (3 * n + 1) / 3 == n && (3 * n + 2) / 3 == n);
    assert(all.take(at + 1) =~= a.push(x));
    assert(all.take(at + 2) =~= a.push(x).push(y));
    assert(head + round_calls(rounds.take(n + 1)) =~= a.push(x).push(y).push(Call::Draw));
    lemma_replay_push::<Ch>(s, a, x);
    lemma_replay_push::<Ch>(s, a.push(x), y);
    lemma_replay_push::<Ch>(s, a.push(x).push(y), Call::Draw);
}

/// What comes behind a place of a record does not change what was drawn there.
proof fn lemma_drawn_prefix<Ch: Challenger>(s: Ch::S, a: Seq<Call>, b: Seq<Call>, i: int)
    requires
        0 <= i <= a.len(),
    ensures
        drawn::<Ch>(s, a + b, i) == drawn::<Ch>(s, a, i),
{
    assert((a + b).take(i) =~= a.take(i));
}

/// The verifier's rounds draw at their places of the record.
proof fn lemma_verifier_draws<Ch: Challenger>(
    s: Ch::S,
    head: Seq<Call>,
    comb: Seq<F128>,
    target: F128,
    rounds: Seq<(F128, F128)>,
    n: nat,
)
    requires
        n <= rounds.len(),
    ensures
        ({
            let run = verifier_run::<Ch>(replayed::<Ch>(s, head), comb, target, rounds, n);
            let all = head + round_calls(rounds);
            &&& run.state == replayed::<Ch>(s, head + round_calls(rounds.take(n as int)))
            &&& run.rs.len() == n
            &&& forall|t: int|
                0 <= t < n ==> #[trigger] run.rs[t] == drawn::<Ch>(s, all, head.len() + 3 * t + 2)
        }),
    decreases n,
{
    if n == 0 {
        assert(head + round_calls(rounds.take(0)) =~= head);
    } else {
        lemma_verifier_draws::<Ch>(s, head, comb, target, rounds, (n - 1) as nat);
        lemma_replay_round::<Ch>(s, head, rounds, n - 1);
    }
}

/// The prover's rounds are the verifier's on the prover's messages, as far as challenges
/// and states go.
proof fn lemma_prover_draws<Ch: Challenger>(
    s: Ch::S,
    comb: Seq<F128>,
    z: Seq<F128>,
    rounds: Seq<(F128, F128)>,
    target: F128,
    n: nat,
)
    requires
        n <= rounds.len(),
        forall|t: nat|
            t < n ==> #[trigger] rounds[t as int] == crate::sumcheck::round_msg(
                prover_run::<Ch>(s, comb, z, t).comb,
                prover_run::<Ch>(s, comb, z, t).z,
            ),
    ensures
        prover_run::<Ch>(s, comb, z, n).state == verifier_run::<Ch>(s, comb, target, rounds, n).state,
        prover_run::<Ch>(s, comb, z, n).rs == verifier_run::<Ch>(s, comb, target, rounds, n).rs,
    decreases n,
{
    if n > 0 {
        lemma_prover_draws::<Ch>(s, comb, z, rounds, target, (n - 1) as nat);
        let t = (n - 1) as nat;
        assert(rounds[t as int] == crate::sumcheck::round_msg(
            prover_run::<Ch>(s, comb, z, t).comb,
            prover_run::<Ch>(s, comb, z, t).z,
        ));
    }
}

/// The end of the record: the folded witness goes in, and the last draw follows.
proof fn lemma_replay_end<Ch: Challenger>(s: Ch::S, pinned: bool, p: LincheckProof)
    ensures
        ({
            let before = replayed::<Ch>(s, opening(pinned) + round_calls(p.rounds@));
            let t = Ch::after_f128_slice(before, p.z_partial@);
            &&& drawn::<Ch>(s, record(pinned, p), last_draw(pinned, p)) == Ch::challenge(t)
            &&& replayed::<Ch>(s, record(pinned, p)) == Ch::after_sample(t)
        }),
{
    let a = opening(pinned) + round_calls(p.rounds@);
    let c = Call::Slice(p.z_partial@);
    assert(record(pinned, p).take(last_draw(pinned, p)) =~= a.push(c));
    assert(record(pinned, p) =~= a.push(c).push(Call::Draw));
    lemma_replay_push::<Ch>(s, a, c);
    lemma_replay_push::<Ch>(s, a.push(c), Call::Draw);
}

/// The batching challenges are the draws right behind the label: the first one whether or
/// not a wire is pinned, the second one only where one is.
pub proof fn lemma_batching_draws<Ch: Challenger>(s: Ch::S, pinned: bool, p: LincheckProof)
    ensures
        ({
            let b = batch::<Ch>(s, pinned);
            &&& b.alpha == drawn::<Ch>(s, record(pinned, p), 1)
            &&& b.beta == if pinned {
                Some(drawn::<Ch>(s, record(pinned, p), 2))
            } else {
                None
            }
        }),
{
    let tail = round_calls(p.rounds@) + seq![Call::Slice(p.z_partial@), Call::Draw];
    assert(record(pinned, p) =~= opening(pinned) + tail);
    lemma_replay_opening::<Ch>(s, pinned);
    lemma_drawn_prefix::<Ch>(s, opening(pinned), tail, 1);
    lemma_drawn_prefix::<Ch>(s, opening(pinned), tail, 2);
}

/// The claim that a verifier derives is made of draws: each coordinate but the skipped one
/// is what a round drew, the last round first, and the skipped one is what was drawn once
/// the folded witness had gone in. The challenger is left where the record ends.
pub proof fn lemma_verifier_record<Ch: Challenger, C: LincheckCircuit>(
    s: Ch::S,
    circuit: &C,
    x: QuirkyPoint,
    k_skip: nat,
    v_a: F128,
    v_b: F128,
    p: LincheckProof,
    claim: LincheckClaim,
)
    requires
        ({
            let run = checked_run::<Ch, C>(s, circuit, x, k_skip, v_a, v_b, p.rounds@);
            is_claim::<Ch>(claim, run.rs, p.z_partial@, k_skip, run.state)
        }),
    ensures
        ({
            let pinned = circuit.pin() is Some;
            let n = p.rounds@.len();
            let run = checked_run::<Ch, C>(s, circuit, x, k_skip, v_a, v_b, p.rounds@);
            &&& claim.r_inner_skip == drawn::<Ch>(s, record(pinned, p), last_draw(pinned, p))
            &&& claim.r_inner_rest@.len() == n
            &&& forall|t: int|
                0 <= t < n ==> #[trigger] claim.r_inner_rest@[n - 1 - t] == drawn::<Ch>(
                    s,
                    record(pinned, p),
                    round_draw(pinned, t),
                )
            &&& after_claim::<Ch>(p.z_partial@, run.state) == replayed::<Ch>(s, record(pinned, p))
        }),
{
    let pinned = circuit.pin() is Some;
    let n = p.rounds@.len();
    let b = batch::<Ch>(s, pinned);
    let comb = start_comb(circuit, x, k_skip, b.alpha, b.beta);
    let target = start_target(b.alpha, b.beta, v_a, v_b);
    let run = checked_run::<Ch, C>(s, circuit, x, k_skip, v_a, v_b, p.rounds@);
    let o = opening(pinned);
    let all = o + round_calls(p.rounds@);
    lemma_replay_opening::<Ch>(s, pinned);
    lemma_verifier_draws::<Ch>(s, o, comb, target, p.rounds@, n);
    assert(p.rounds@.take(n as int) =~= p.rounds@);
    lemma_replay_end::<Ch>(s, pinned, p);
    assert forall|t: int| 0 <= t < n implies #[trigger] claim.r_inner_rest@[n - 1 - t] == drawn::<
        Ch,
    >(s, record(pinned, p), round_draw(pinned, t)) by {
        assert(run.rs.reverse()[n - 1 - t] == run.rs[t]);
        lemma_drawn_prefix::<Ch>(
            s,
            all,
            seq![Call::Slice(p.z_partial@), Call::Draw],
            round_draw(pinned, t),
        );
    }
}

/// The claim that an honest prover leaves is made of draws in the same way, and the
/// prover's challenger is left where the record ends.
pub proof fn lemma_prover_record<Ch: Challenger, C: LincheckCircuit>(
    s: Ch::S,
    circuit: &C,
    x: QuirkyPoint,
    k_skip: nat,
    z_vec: Seq<F128>,
    p: LincheckProof,
    claim: LincheckClaim,
)
    requires
        is_honest::<Ch, C>(s, circuit, x, k_skip, z_vec, p, claim),
    ensures
        ({
            let pinned = circuit.pin() is Some;
            let n = x.x_inner_rest@.len();
            &&& p.rounds@.len() == n
            &&& claim.r_inner_skip == drawn::<Ch>(s, record(pinned, p), last_draw(pinned, p))
            &&& claim.r_inner_rest@.len() == n
            &&& forall|t: int|
                0 <= t < n ==> #[trigger] claim.r_inner_rest@[n - 1 - t] == drawn::<Ch>(
                    s,
                    record(pinned, p),
                    round_draw(pinned, t),
                )
            &&& after_honest::<Ch, C>(s, circuit, x, k_skip, z_vec) == replayed::<Ch>(
                s,
                record(pinned, p),
            )
        }),
{
    let pinned = circuit.pin() is Some;
    let n = x.x_inner_rest@.len();
    let b = batch::<Ch>(s, pinned);
    let comb = start_comb(circuit, x, k_skip, b.alpha, b.beta);
    let run = honest_run::<Ch, C>(s, circuit, x, k_skip, z_vec);
    lemma_prover_rounds::<Ch>(b.state, comb, z_vec, n);
    let target = start_target(b.alpha, b.beta, fzero(), fzero());
    lemma_prover_draws::<Ch>(b.state, comb, z_vec, p.rounds@, target, n);
    let v = checked_run::<Ch, C>(s, circuit, x, k_skip, fzero(), fzero(), p.rounds@);
    assert(v.state == run.state && v.rs == run.rs);
    lemma_verifier_record::<Ch, C>(s, circuit, x, k_skip, fzero(), fzero(), p, claim);
}

proof fn lemma_prover_rounds<Ch: Challenger>(s: Ch::S, comb: Seq<F128>, z: Seq<F128>, n: nat)
    ensures
        prover_run::<Ch>(s, comb, z, n).rounds.len() == n,
        forall|t: nat|
            t < n ==> #[trigger] prover_run::<Ch>(s, comb, z, n).rounds[t as int]
                == crate::sumcheck::round_msg(
                prover_run::<Ch>(s, comb, z, t).comb,
                prover_run::<Ch>(s, comb, z, t).z,
            ),
    decreases n,
{
    if n > 0 {
        lemma_prover_rounds::<Ch>(s, comb, z, (n - 1) as nat);
    }
}

/// Output number `i` of SplitMix64 from `seed`, counted from one: the `i`-th multiple of
/// the golden-ratio increment on top of the seed, mixed.
pub open spec fn splitmix_output(seed: u64, i: nat) -> u64 {
    let z = ((seed + i * 0x9E37_79B9_7F4A_7C15) % 0x1_0000_0000_0000_0000) as u64;
    let a = (z ^ (z >> 30)).wrapping_mul(0xBF58_476D_1CE4_E5B9);
    let b = (a ^ (a >> 27)).wrapping_mul(0x94D0_49BB_1331_11EB);
    b ^ (b >> 31)
}

/// Draw number `i` of the pseudo-random source from `seed`, counted from zero: two outputs
/// of the generator for each draw.
pub open spec fn random_draw(seed: u64, i: nat) -> F128 {
    F128 { lo: splitmix_output(seed, 2 * i + 1), hi: splitmix_output(seed, 2 * i + 2) }
}

/// One step of the generator's state.
proof fn lemma_splitmix_step(a: int, s: u64)
    requires
        0 <= a,
        s == a % 0x1_0000_0000_0000_0000,
    ensures
        crate::challenger::splitmix_next(s) == (a + 0x9E37_79B9_7F4A_7C15)
            % 0x1_0000_0000_0000_0000,
{
}

proof fn lemma_random_state(seed: u64, i: nat)
    ensures
        random_after(seed, i) == (seed + (2 * i) * 0x9E37_79B9_7F4A_7C15)
            % 0x1_0000_0000_0000_0000,
    decreases i,
{
    if i > 0 {
        let j = (i - 1) as nat;
        lemma_random_state(seed, j);
        let g: int = 0x9E37_79B9_7F4A_7C15;
        let a = seed + (2 * j) * g;
        let s = random_after(seed, j);
        lemma_splitmix_step(a, s);
        lemma_splitmix_step(a + g, crate::challenger::splitmix_next(s));
        assert(seed + (2 * i) * g == a + g + g) by (nonlinear_arith)
            requires
                i == j + 1,
                a == seed + (2 * j) * g,
        ;
    }
}

proof fn lemma_random_single(seed: u64, i: nat)
    ensures
        RandomChallenger::challenge(random_after(seed, i)) == random_draw(seed, i),
{
    lemma_random_state(seed, i);
    let g: int = 0x9E37_79B9_7F4A_7C15;
    let s = random_after(seed, i);
    let a = seed + (2 * i) * g;
    lemma_splitmix_step(a, s);
    lemma_splitmix_step(a + g, crate::challenger::splitmix_next(s));
    assert(seed + (2 * i + 1) * g == a + g && seed + (2 * i + 2) * g == a + g + g)
        by (nonlinear_arith)
        requires
            a == seed + (2 * i) * g,
    ;
    let (one, two) = (
        crate::challenger::splitmix_next(s),
        crate::challenger::splitmix_next(crate::challenger::splitmix_next(s)),
    );
    assert(splitmix_output(seed, 2 * i + 1) == crate::challenger::splitmix_mix(one));
    assert(splitmix_output(seed, 2 * i + 2) == crate::challenger::splitmix_mix(two));
}

/// The pseudo-random source hands out the generator's outputs in order, two for each draw,
/// single or not.
pub proof fn lemma_random_draws(seed: u64, i: nat, n: nat)
    ensures
        RandomChallenger::challenge(random_after(seed, i)) == random_draw(seed, i),
        RandomChallenger::challenges(random_after(seed, i), n).len() == n,
        forall|j: int|
            0 <= j < n ==> #[trigger] RandomChallenger::challenges(random_after(seed, i), n)[j]
                == random_draw(seed, (i + j) as nat),
        RandomChallenger::after_sample_vec(random_after(seed, i), n) == random_after(seed, i + n),
{
    let s = random_after(seed, i);
    lemma_random_single(seed, i);
    crate::challenger::lemma_random_vec_is_singles(s, n);
    lemma_random_after_adds(seed, i, n);
    assert forall|j: int| 0 <= j < n implies #[trigger] RandomChallenger::challenges(s, n)[j]
        == random_draw(seed, (i + j) as nat) by {
        lemma_random_after_adds(seed, i, j as nat);
        lemma_random_single(seed, (i + j) as nat);
    }
}

proof fn lemma_random_after_adds(seed: u64, i: nat, j: nat)
    ensures
        random_after(random_after(seed, i), j) == random_after(seed, i + j),
    decreases j,
{
    if j > 0 {
        lemma_random_after_adds(seed, i, (j - 1) as nat);
    }
}

proof fn lemma_random_rounds(
    seed: u64,
    a: nat,
    comb: Seq<F128>,
    target: F128,
    rounds: Seq<(F128, F128)>,
    n: nat,
)
    ensures
        ({
            let run = verifier_run::<RandomChallenger>(
                random_after(seed, a),
                comb,
                target,
                rounds,
                n,
            );
            &&& run.state == random_after(seed, a + n)
            &&& run.rs.len() == n
            &&& forall|t: int|
                0 <= t < n ==> #[trigger] run.rs[t] == random_draw(seed, (a + t) as nat)
        }),
    decreases n,
{
    if n > 0 {
        lemma_random_rounds(seed, a, comb, target, rounds, (n - 1) as nat);
        lemma_random_single(seed, (a + n - 1) as nat);
    }
}

/// A random challenger takes no notice of what it is shown: observations leave its draws as
/// they were, and work costs it nothing, so that any nonce passes and the one it gives is
/// zero.
pub proof fn lemma_random_ignores_observations(
    seed: u64,
    i: nat,
    label: Seq<u8>,
    value: F128,
    values: Seq<F128>,
    nonce: u64,
    bits: u32,
)
    ensures
        ({
            let s = random_after(seed, i);
            &&& RandomChallenger::challenge(RandomChallenger::after_label(s, label)) == random_draw(
                seed,
                i,
            )
            &&& RandomChallenger::challenge(RandomChallenger::after_bytes(s, label)) == random_draw(
                seed,
                i,
            )
            &&& RandomChallenger::challenge(RandomChallenger::after_f128(s, value)) == random_draw(
                seed,
                i,
            )
            &&& RandomChallenger::challenge(RandomChallenger::after_f128_slice(s, values))
                == random_draw(seed, i)
            &&& RandomChallenger::challenge(RandomChallenger::after_pow(s, nonce)) == random_draw(
                seed,
                i,
            )
            &&& RandomChallenger::after_label(s, label) == s
            &&& RandomChallenger::after_bytes(s, label) == s
            &&& RandomChallenger::after_f128(s, value) == s
            &&& RandomChallenger::after_f128_slice(s, values) == s
            &&& RandomChallenger::after_pow(s, nonce) == s
            &&& RandomChallenger::can_grind(s, bits)
            &&& RandomChallenger::pow_ok(s, nonce, bits)
            &&& RandomChallenger::is_ground(s, bits, nonce) <==> nonce == 0
        }),
{
    lemma_random_draws(seed, i, 1);
}

/// With the pseudo-random source, challenges are its draws by number: the batching
/// challenges first, then one for each round, and then the skipped coordinate of the claim.
pub proof fn lemma_random_claim<C: LincheckCircuit>(
    seed: u64,
    circuit: &C,
    x: QuirkyPoint,
    k_skip: nat,
    v_a: F128,
    v_b: F128,
    p: LincheckProof,
    claim: LincheckClaim,
)
    requires
        ({
            let run = checked_run::<RandomChallenger, C>(
                seed,
                circuit,
                x,
                k_skip,
                v_a,
                v_b,
                p.rounds@,
            );
            is_claim::<RandomChallenger>(claim, run.rs, p.z_partial@, k_skip, run.state)
        }),
    ensures
        ({
            let b = batch::<RandomChallenger>(seed, circuit.pin() is Some);
            let n = p.rounds@.len();
            let first: nat = if circuit.pin() is Some {
                2
            } else {
                1
            };
            &&& b.alpha == random_draw(seed, 0)
            &&& circuit.pin() is Some ==> b.beta == Some(random_draw(seed, 1))
            &&& claim.r_inner_rest@.len() == n
            &&& forall|t: int|
                0 <= t < n ==> #[trigger] claim.r_inner_rest@[n - 1 - t] == random_draw(
                    seed,
                    (first + t) as nat,
                )
            &&& claim.r_inner_skip == random_draw(seed, first + n)
        }),
{
    let pinned = circuit.pin() is Some;
    let b = batch::<RandomChallenger>(seed, pinned);
    let n = p.rounds@.len();
    let first: nat = if pinned {
        2
    } else {
        1
    };
    lemma_random_single(seed, 0);
    lemma_random_single(seed, 1);
    reveal_with_fuel(random_after, 3);
    assert(b.state == random_after(seed, first));
    let comb = start_comb(circuit, x, k_skip, b.alpha, b.beta);
    let target = start_target(b.alpha, b.beta, v_a, v_b);
    lemma_random_rounds(seed, first, comb, target, p.rounds@, n);
    lemma_random_single(seed, first + n);
    let run = checked_run::<RandomChallenger, C>(seed, circuit, x, k_skip, v_a, v_b, p.rounds@);
    assert forall|t: int| 0 <= t < n implies #[trigger] claim.r_inner_rest@[n - 1 - t]
        == random_draw(seed, (first + t) as nat) by {
        assert(run.rs.reverse()[n - 1 - t] == run.rs[t]);
    }
}

/// Claims are bound to the first draw. Where two challengers draw different values behind
/// the label, and the same one for the pinned wire where there is one, and the sumcheck
/// starts from a true statement under both, then the first claim is true.
pub proof fn lemma_first_draw_binds_claims<Ch: Challenger, C: LincheckCircuit>(
    s: Ch::S,
    t: Ch::S,
    circuit: &C,
    x: QuirkyPoint,
    k_skip: nat,
    v_a: F128,
    v_b: F128,
    z_bit: spec_fn(int, int) -> bool,
    z: Seq<F128>,
)
    requires
        circuit_fits(circuit),
        z.len() == circuit.cols(),
        is_fold_of(z, z_bit, x.x_outer@),
        ({
            let pinned = circuit.pin() is Some;
            let o = opening(pinned);
            let (b, c) = (batch::<Ch>(s, pinned), batch::<Ch>(t, pinned));
            &&& drawn::<Ch>(s, o, 1) != drawn::<Ch>(t, o, 1)
            &&& pinned ==> drawn::<Ch>(s, o, 2) == drawn::<Ch>(t, o, 2)
            &&& start_target(b.alpha, b.beta, v_a, v_b) == dot(
                start_comb(circuit, x, k_skip, b.alpha, b.beta),
                z,
                z.len(),
            )
            &&& start_target(c.alpha, c.beta, v_a, v_b) == dot(
                start_comb(circuit, x, k_skip, c.alpha, c.beta),
                z,
                z.len(),
            )
        }),
    ensures
        v_a == true_value(
            circuit.a_entry(),
            z_bit,
            circuit.row_count(),
            circuit.cols(),
            k_skip,
            x,
        ),
{
    let pinned = circuit.pin() is Some;
    let (b, c) = (batch::<Ch>(s, pinned), batch::<Ch>(t, pinned));
    lemma_replay_opening::<Ch>(s, pinned);
    lemma_replay_opening::<Ch>(t, pinned);
    lemma_error_of_the_claims(circuit, x, k_skip, b.alpha, b.beta, z_bit, z, v_a, v_b);
    lemma_error_of_the_claims(circuit, x, k_skip, c.alpha, c.beta, z_bit, z, v_a, v_b);
    let (rows, cols) = (circuit.row_count(), circuit.cols());
    let t_a = true_value(circuit.a_entry(), z_bit, rows, cols, k_skip, x);
    let t_b = true_value(circuit.b_entry(), z_bit, rows, cols, k_skip, x);
    let wire = z[circuit.pin()->Some_0 as int];
    lemma_add_zero(start_target(b.alpha, b.beta, v_a, v_b));
    lemma_add_zero(start_target(c.alpha, c.beta, v_a, v_b));
    lemma_alpha_cancels_once(b.alpha, c.alpha, b.beta, fadd(v_a, t_a), fadd(v_b, t_b), wire);
    lemma_differ(v_a, t_a);
}

/// Without rounds a proof is accepted exactly where the sumcheck starts from a true
/// statement. So of two verifiers that draw different batching challenges, and the same one
/// for the pinned wire, at most one accepts a first claim that is false.
pub proof fn lemma_false_claim_under_two_draws<Ch: Challenger, C: LincheckCircuit>(
    s: Ch::S,
    t: Ch::S,
    circuit: &C,
    x: QuirkyPoint,
    k_skip: nat,
    v_a: F128,
    v_b: F128,
    z_bit: spec_fn(int, int) -> bool,
    z: Seq<F128>,
)
    requires
        circuit_fits(circuit),
        z.len() == circuit.cols(),
        is_fold_of(z, z_bit, x.x_outer@),
        ({
            let o = opening(circuit.pin() is Some);
            &&& drawn::<Ch>(s, o, 1) != drawn::<Ch>(t, o, 1)
            &&& circuit.pin() is Some ==> drawn::<Ch>(s, o, 2) == drawn::<Ch>(t, o, 2)
        }),
        v_a != true_value(
            circuit.a_entry(),
            z_bit,
            circuit.row_count(),
            circuit.cols(),
            k_skip,
            x,
        ),
    ensures
        ({
            let none = Seq::<(F128, F128)>::empty();
            !final_ok(checked_run::<Ch, C>(s, circuit, x, k_skip, v_a, v_b, none), z)
                || !final_ok(checked_run::<Ch, C>(t, circuit, x, k_skip, v_a, v_b, none), z)
        }),
{
    let none = Seq::<(F128, F128)>::empty();
    if final_ok(checked_run::<Ch, C>(s, circuit, x, k_skip, v_a, v_b, none), z) && final_ok(
        checked_run::<Ch, C>(t, circuit, x, k_skip, v_a, v_b, none),
        z,
    ) {
        lemma_first_draw_binds_claims::<Ch, C>(
            s,
            t,
            circuit,
            x,
            k_skip,
            v_a,
            v_b,
            z_bit,
            z,
        );
    }
}

/// A shape passes exactly where every length is the one that `m`, `k_log` and `k_skip` ask
/// for, and each length that is off is named, the first one in the order of the checks.
pub proof fn lemma_shapes(
    m: usize,
    k_log: usize,
    k_skip: usize,
    cols: nat,
    x: QuirkyPoint,
    p: LincheckProof,
)
    requires
        k_log <= m,
        k_log < usize::BITS,
        cols <= usize::MAX,
    ensures
        ({
            let e = shape_error(m, k_log, k_skip, cols, x, p);
            let skip_ok = k_skip <= k_log;
            let inner_ok = skip_ok && x.x_inner_rest@.len() + k_skip == k_log;
            let outer_ok = inner_ok && x.x_outer@.len() + k_log == m;
            let cols_ok = outer_ok && cols == pow2(k_log as nat);
            let rounds_ok = cols_ok && p.rounds@.len() + k_skip == k_log;
            let last_ok = rounds_ok && p.z_partial@.len() == pow2(k_skip as nat);
            &&& e is None <==> last_ok
            &&& (e is Some && e->Some_0 is KSkipExceedsKLog) <==> !skip_ok
            &&& (e is Some && e->Some_0 is BadInnerRestLength) <==> skip_ok && !inner_ok
            &&& (e is Some && e->Some_0 is BadOuterLength) <==> inner_ok && !outer_ok
            &&& (e is Some && e->Some_0 is BadMatrixShape) <==> outer_ok && !cols_ok
            &&& (e is Some && e->Some_0 is BadVectorLength) <==> cols_ok && !last_ok
            &&& e matches Some(VerifyError::BadInnerRestLength { expected, got, .. }) ==> expected
                + k_skip == k_log && got == x.x_inner_rest@.len()
            &&& e matches Some(VerifyError::BadOuterLength { expected, got, .. }) ==> expected
                + k_log == m && got == x.x_outer@.len()
            &&& e matches Some(VerifyError::BadMatrixShape { expected, got_cols, .. }) ==> expected
                == pow2(k_log as nat) && got_cols == cols
            &&& e matches Some(VerifyError::BadVectorLength { expected, got, .. }) ==> if rounds_ok {
                expected == pow2(k_skip as nat) && got == p.z_partial@.len()
            } else {
                expected + k_skip == k_log && got == p.rounds@.len()
            }
        }),
{
    assert(x.x_inner_rest.len() == x.x_inner_rest@.len() && x.x_outer.len() == x.x_outer@.len());
    assert(p.rounds.len() == p.rounds@.len() && p.z_partial.len() == p.z_partial@.len());
    vstd::bits::lemma_usize_pow2_no_overflow(k_log as nat);
    if k_skip <= k_log {
        vstd::bits::lemma_usize_pow2_no_overflow(k_skip as nat);
    }
}

} // verus!

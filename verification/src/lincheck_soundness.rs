//! What becomes of a false claim: it enters the sumcheck as an error that every round
//! turns into the value of a nonzero round polynomial, so that it can only vanish at a
//! root, of which each round polynomial has at most two.

use crate::block_major::bind_top;
use crate::challenger::Challenger;
use crate::circuit::{comb_table, LincheckCircuit};
use crate::eq::{dot, eq_weight, lagrange_weights, quirky_eq_table};
use crate::field::{fadd, fmul, fone, fzero, F128};
use crate::field::{lemma_add_assoc, lemma_add_comm, lemma_add_swap, lemma_add_zero};
use crate::field::{lemma_mul_add_left, lemma_mul_add_right, lemma_mul_comm, lemma_mul_nonzero, lemma_mul_one, lemma_mul_zero};
use crate::lincheck::{batch, checked_run, circuit_fits, final_ok, lemma_verifier_lengths, round_value, shape_error, start_comb, start_target, verifier_run, with_pin, LincheckProof, QuirkyPoint};
use crate::lincheck_laws::{is_fold_of, lemma_product_value, lemma_round_keeps_claim, lemma_start_target, true_value, z_fold};
use crate::poly::{combined, lemma_combined_separates, lemma_differ, lemma_roots, peval};
use crate::r1cs::marginal;
use crate::sumcheck::round_msg;
use crate::sums::{lemma_sum_add, lemma_sum_ext, lemma_sum_single, sel};
use vstd::arithmetic::power2::pow2;
use vstd::prelude::*;

verus! {

/// The messages added up.
pub open spec fn msg_add(a: (F128, F128), b: (F128, F128)) -> (F128, F128) {
    (fadd(a.0, b.0), fadd(a.1, b.1))
}

/// The round polynomial is linear in the running claim and the message.
pub proof fn lemma_round_value_add(
    u: F128,
    a: (F128, F128),
    v: F128,
    b: (F128, F128),
    r: F128,
)
    ensures
        round_value(fadd(u, v), msg_add(a, b), r) == fadd(
            round_value(u, a, r),
            round_value(v, b, r),
        ),
{
    let (ea, eb) = (fadd(u, a.0), fadd(v, b.0));
    let (ca, cb) = (fadd(fadd(ea, a.0), a.1), fadd(fadd(eb, b.0), b.1));
    lemma_add_swap(u, v, a.0, b.0);
    lemma_add_swap(ea, eb, a.0, b.0);
    lemma_add_swap(fadd(ea, a.0), fadd(eb, b.0), a.1, b.1);
    lemma_mul_add_left(a.1, b.1, r);
    lemma_mul_add_left(fmul(a.1, r), fmul(b.1, r), r);
    lemma_mul_add_left(ca, cb, r);
    let (sa, sb) = (fmul(fmul(a.1, r), r), fmul(fmul(b.1, r), r));
    lemma_add_swap(sa, sb, fmul(ca, r), fmul(cb, r));
    lemma_add_swap(fadd(sa, fmul(ca, r)), fadd(sb, fmul(cb, r)), ea, eb);
}

/// The round polynomial's values at zero and at one add up to the running claim.
pub proof fn lemma_round_ends(u: F128, a: (F128, F128))
    ensures
        round_value(u, a, fzero()) == fadd(u, a.0),
        round_value(u, a, fone()) == a.0,
        fadd(round_value(u, a, fzero()), round_value(u, a, fone())) == u,
{
    let e0 = fadd(u, a.0);
    let c1 = fadd(fadd(e0, a.0), a.1);
    lemma_mul_zero(fmul(a.1, fzero()));
    lemma_mul_zero(c1);
    lemma_add_zero(fzero());
    lemma_add_zero(e0);
    lemma_add_comm(fzero(), e0);
    lemma_mul_one(a.1);
    lemma_mul_one(c1);
    lemma_add_comm(a.1, c1);
    lemma_add_assoc(fadd(e0, a.0), a.1, a.1);
    lemma_add_zero(a.1);
    lemma_add_zero(fadd(e0, a.0));
    lemma_add_comm(e0, a.0);
    lemma_add_assoc(a.0, e0, e0);
    lemma_add_zero(a.0);
    lemma_add_assoc(u, a.0, a.0);
    lemma_add_zero(u);
}

/// A false claim stays false through a round, but for a root: whatever message is sent,
/// the error behind the round is the value at the challenge of a round polynomial whose
/// values at zero and at one add up to the error before it. Where that error is not zero,
/// the polynomial is not zero everywhere.
pub proof fn lemma_error_of_a_round(
    c: Seq<F128>,
    z: Seq<F128>,
    running: F128,
    msg: (F128, F128),
    r: F128,
)
    requires
        c.len() == z.len(),
        c.len() % 2 == 0,
    ensures
        ({
            let error = fadd(running, dot(c, z, c.len()));
            let off = msg_add(msg, round_msg(c, z));
            let bound = dot(bind_top(c, r), bind_top(z, r), bind_top(c, r).len());
            &&& fadd(round_value(running, msg, r), bound) == round_value(error, off, r)
            &&& fadd(round_value(error, off, fzero()), round_value(error, off, fone())) == error
            &&& error != fzero() ==> round_value(error, off, fzero()) != fzero() || round_value(
                error,
                off,
                fone(),
            ) != fzero()
        }),
{
    let truth = dot(c, z, c.len());
    let error = fadd(running, truth);
    let off = msg_add(msg, round_msg(c, z));
    lemma_round_keeps_claim(c, z, r);
    lemma_round_value_add(running, msg, truth, round_msg(c, z), r);
    lemma_round_ends(error, off);
    lemma_add_zero(fzero());
}

/// A pinned table adds `beta` times the pinned entry of the other.
proof fn lemma_pinned_dot(table: Seq<F128>, z: Seq<F128>, k: nat, col: usize, beta: F128)
    requires
        table.len() == k,
        z.len() == k,
        col < k,
    ensures
        dot(with_pin(table, Some(col), Some(beta)), z, k) == fadd(
            dot(table, z, k),
            fmul(beta, z[col as int]),
        ),
{
    let pinned = with_pin(table, Some(col), Some(beta));
    let plain = |i: int| fmul(table[i], z[i]);
    let extra = |i: int| sel(i == col, fmul(beta, z[i]));
    let full = |i: int| fmul(pinned[i], z[i]);
    assert forall|i: int| 0 <= i < k implies #[trigger] full(i) == fadd(plain(i), extra(i)) by {
        if i == col {
            lemma_mul_add_left(table[i], beta, z[i]);
        } else {
            lemma_add_zero(plain(i));
        }
    }
    lemma_sum_ext(k, full, |i: int| fadd(plain(i), extra(i)));
    lemma_sum_add(k, plain, extra);
    lemma_sum_single(k, col as int, extra);
    lemma_sum_ext(k, full, |i: int| fmul(pinned[i], z[i]));
    lemma_sum_ext(k, plain, |i: int| fmul(table[i], z[i]));
}

/// The error that false claims and a pinned wire that does not fold to one bring in: a
/// combination with the batching challenges.
pub open spec fn start_error(
    alpha: F128,
    beta: Option<F128>,
    off_a: F128,
    off_b: F128,
    wire: F128,
) -> F128 {
    let e = fadd(fmul(alpha, off_a), off_b);
    match beta {
        Some(b) => fadd(e, fmul(b, fadd(fone(), wire))),
        None => e,
    }
}

/// The sumcheck starts with exactly the error that the claims and the pinned wire have:
/// it is `alpha` times what the first claim is off by, plus what the second one is off
/// by, plus `beta` times what the wire is off by. With true claims and the wire at one it
/// is zero.
pub proof fn lemma_error_of_the_claims<C: LincheckCircuit>(
    circuit: &C,
    x: QuirkyPoint,
    k_skip: nat,
    alpha: F128,
    beta: Option<F128>,
    z_bit: spec_fn(int, int) -> bool,
    z: Seq<F128>,
    v_a: F128,
    v_b: F128,
)
    requires
        circuit_fits(circuit),
        z.len() == circuit.cols(),
        (circuit.pin() is Some) == (beta is Some),
        is_fold_of(z, z_bit, x.x_outer@),
    ensures
        ({
            let t_a = true_value(
                circuit.a_entry(),
                z_bit,
                circuit.row_count(),
                circuit.cols(),
                k_skip,
                x,
            );
            let t_b = true_value(
                circuit.b_entry(),
                z_bit,
                circuit.row_count(),
                circuit.cols(),
                k_skip,
                x,
            );
            let wire = z[circuit.pin()->Some_0 as int];
            fadd(
                start_target(alpha, beta, v_a, v_b),
                dot(start_comb(circuit, x, k_skip, alpha, beta), z, z.len()),
            ) == start_error(alpha, beta, fadd(v_a, t_a), fadd(v_b, t_b), wire)
        }),
{
    let q = quirky_eq_table(x.z_skip, x.x_inner_rest@, k_skip);
    let n = pow2(x.x_outer@.len());
    let w = |o: int| eq_weight(x.x_outer@, o);
    let (rows, k) = (circuit.row_count(), circuit.cols());
    let t_a = true_value(circuit.a_entry(), z_bit, rows, k, k_skip, x);
    let t_b = true_value(circuit.b_entry(), z_bit, rows, k, k_skip, x);
    let table = comb_table(circuit.a_entry(), circuit.b_entry(), rows, k, alpha, q);
    lemma_start_target(circuit.a_entry(), circuit.b_entry(), rows, k, q, alpha, None, None, z);
    lemma_product_value(circuit.a_entry(), z_bit, rows, k, n, q, w);
    lemma_product_value(circuit.b_entry(), z_bit, rows, k, n, q, w);
    lemma_sum_ext(
        k,
        |c: int| fmul(marginal(circuit.a_entry(), rows, q, c), z_fold(z_bit, n, w, c)),
        |c: int| fmul(marginal(circuit.a_entry(), rows, q, c), z[c]),
    );
    lemma_sum_ext(
        k,
        |c: int| fmul(marginal(circuit.b_entry(), rows, q, c), z_fold(z_bit, n, w, c)),
        |c: int| fmul(marginal(circuit.b_entry(), rows, q, c), z[c]),
    );
    let given = fadd(fmul(alpha, v_a), v_b);
    let truth = fadd(fmul(alpha, t_a), t_b);
    assert(dot(table, z, k) == truth);
    lemma_add_swap(fmul(alpha, v_a), v_b, fmul(alpha, t_a), t_b);
    lemma_mul_add_right(alpha, v_a, t_a);
    if circuit.pin() is Some {
        let col = circuit.pin()->Some_0;
        let b = beta->Some_0;
        let wire = z[col as int];
        lemma_pinned_dot(table, z, k, col, b);
        lemma_add_swap(given, b, truth, fmul(b, wire));
        lemma_mul_add_right(b, fone(), wire);
        lemma_mul_one(b);
    }
}

/// A false claim survives a round at no more than two challenges: out of any three, one
/// leaves an error behind.
pub proof fn lemma_false_claim_survives_at_two(
    error: F128,
    off: (F128, F128),
    r: F128,
    s: F128,
    t: F128,
)
    requires
        error != fzero(),
        r != s,
        r != t,
        s != t,
    ensures
        round_value(error, off, r) != fzero() || round_value(error, off, s) != fzero()
            || round_value(error, off, t) != fzero(),
{
    let e0 = fadd(error, off.0);
    let c1 = fadd(fadd(e0, off.0), off.1);
    let c = seq![e0, c1, off.1];
    let xs = seq![r, s, t];
    if round_value(error, off, r) == fzero() && round_value(error, off, s) == fzero()
        && round_value(error, off, t) == fzero() {
        lemma_round_poly(error, off, r);
        lemma_round_poly(error, off, s);
        lemma_round_poly(error, off, t);
        assert forall|i: int| 0 <= i < xs.len() implies peval(c, #[trigger] xs[i]) == fzero() by {
            assert(i == 0 || i == 1 || i == 2);
        }
        lemma_roots(c, xs, fzero());
        lemma_roots(c, xs, fone());
        lemma_round_poly(error, off, fzero());
        lemma_round_poly(error, off, fone());
        lemma_round_ends(error, off);
        lemma_add_zero(fzero());
    }
}

/// The round polynomial by its coefficients.
proof fn lemma_round_poly(u: F128, a: (F128, F128), z: F128)
    ensures
        ({
            let e0 = fadd(u, a.0);
            let c1 = fadd(fadd(e0, a.0), a.1);
            peval(seq![e0, c1, a.1], z) == round_value(u, a, z)
        }),
{
    let e0 = fadd(u, a.0);
    let c1 = fadd(fadd(e0, a.0), a.1);
    let c = seq![e0, c1, a.1];
    let (d, e) = (seq![c1, a.1], seq![a.1]);
    assert(c.drop_first() =~= d);
    assert(d.drop_first() =~= e);
    assert(peval(e.drop_first(), z) == fzero());
    lemma_mul_zero(z);
    lemma_add_zero(a.1);
    assert(peval(e, z) == a.1);
    assert(peval(d, z) == fadd(c1, fmul(z, a.1)));
    lemma_mul_add_right(z, c1, fmul(z, a.1));
    lemma_mul_comm(z, a.1);
    lemma_mul_comm(z, fmul(a.1, z));
    lemma_mul_comm(z, c1);
    let (p, q) = (fmul(c1, z), fmul(fmul(a.1, z), z));
    lemma_add_comm(p, q);
    lemma_add_comm(e0, fadd(q, p));
}

/// Two batching challenges that both cancel the error of the claims show that the first
/// claim is true.
pub proof fn lemma_alpha_cancels_once(
    a: F128,
    b: F128,
    beta: Option<F128>,
    off_a: F128,
    off_b: F128,
    wire: F128,
)
    requires
        a != b,
        start_error(a, beta, off_a, off_b, wire) == fzero(),
        start_error(b, beta, off_a, off_b, wire) == fzero(),
    ensures
        off_a == fzero(),
{
    let rest = match beta {
        Some(g) => fadd(off_b, fmul(g, fadd(fone(), wire))),
        None => off_b,
    };
    if let Some(g) = beta {
        let t = fmul(g, fadd(fone(), wire));
        lemma_add_assoc(fmul(a, off_a), off_b, t);
        lemma_add_assoc(fmul(b, off_a), off_b, t);
    }
    lemma_differ(fmul(a, off_a), rest);
    lemma_differ(fmul(b, off_a), rest);
    lemma_mul_add_left(a, b, off_a);
    lemma_differ(fmul(a, off_a), fmul(b, off_a));
    lemma_differ(a, b);
    if off_a != fzero() {
        lemma_mul_nonzero(fadd(a, b), off_a);
    }
}

/// Two pinning challenges that both cancel the error of the claims show that the pinned
/// wire folds to one.
pub proof fn lemma_beta_cancels_once(
    alpha: F128,
    a: F128,
    b: F128,
    off_a: F128,
    off_b: F128,
    wire: F128,
)
    requires
        a != b,
        start_error(alpha, Some(a), off_a, off_b, wire) == fzero(),
        start_error(alpha, Some(b), off_a, off_b, wire) == fzero(),
    ensures
        wire == fone(),
{
    let e = fadd(fmul(alpha, off_a), off_b);
    let w = fadd(fone(), wire);
    lemma_differ(e, fmul(a, w));
    lemma_differ(e, fmul(b, w));
    lemma_mul_add_left(a, b, w);
    lemma_differ(fmul(a, w), fmul(b, w));
    lemma_differ(a, b);
    if w != fzero() {
        lemma_mul_nonzero(fadd(a, b), w);
    }
    lemma_differ(fone(), wire);
}

/// The last challenge tells folded witnesses apart: two different ones leave the same
/// claim value at fewer than `2^k_skip` challenges.
pub proof fn lemma_claim_value_separates(
    k_skip: nat,
    z: Seq<F128>,
    other: Seq<F128>,
    xs: Seq<F128>,
)
    requires
        k_skip <= 8,
        z.len() == pow2(k_skip),
        other.len() == pow2(k_skip),
        z != other,
        xs.no_duplicates(),
        forall|i: int|
            0 <= i < xs.len() ==> dot(
                lagrange_weights(k_skip, #[trigger] xs[i]),
                z,
                pow2(k_skip),
            ) == dot(lagrange_weights(k_skip, xs[i]), other, pow2(k_skip)),
    ensures
        xs.len() < pow2(k_skip),
{
    assert forall|i: int| 0 <= i < xs.len() implies combined(k_skip, z, #[trigger] xs[i])
        == combined(k_skip, other, xs[i]) by {}
    lemma_combined_separates(k_skip, z, other, xs);
}

/// The folded witness once its top variables are bound at the challenges `rs`.
pub open spec fn bound_at(z: Seq<F128>, rs: Seq<F128>) -> Seq<F128>
    decreases rs.len(),
{
    if rs.len() == 0 {
        z
    } else {
        bind_top(bound_at(z, rs.drop_last()), rs.last())
    }
}

/// What the verifier's running claim is off by after `n` rounds, for the folded witness
/// `z`.
pub open spec fn error_after<Ch: Challenger>(
    s: Ch::S,
    comb: Seq<F128>,
    target: F128,
    rounds: Seq<(F128, F128)>,
    z: Seq<F128>,
    n: nat,
) -> F128 {
    let run = verifier_run::<Ch>(s, comb, target, rounds, n);
    fadd(run.running, dot(run.comb, bound_at(z, run.rs), run.comb.len()))
}

/// What the message of round `n` is off by.
pub open spec fn message_error<Ch: Challenger>(
    s: Ch::S,
    comb: Seq<F128>,
    target: F128,
    rounds: Seq<(F128, F128)>,
    z: Seq<F128>,
    n: nat,
) -> (F128, F128) {
    let run = verifier_run::<Ch>(s, comb, target, rounds, n);
    msg_add(rounds[n as int], round_msg(run.comb, bound_at(z, run.rs)))
}

/// Whether round `n` loses an error: there is one before it, and its challenge is a root
/// of the round polynomial that the error makes.
pub open spec fn loses_error<Ch: Challenger>(
    s: Ch::S,
    comb: Seq<F128>,
    target: F128,
    rounds: Seq<(F128, F128)>,
    z: Seq<F128>,
    n: nat,
) -> bool {
    let error = error_after::<Ch>(s, comb, target, rounds, z, n);
    let off = message_error::<Ch>(s, comb, target, rounds, z, n);
    let r = verifier_run::<Ch>(s, comb, target, rounds, n + 1).rs.last();
    error != fzero() && round_value(error, off, r) == fzero()
}

/// Each round turns the error into the value of its round polynomial at the challenge.
pub proof fn lemma_error_step<Ch: Challenger>(
    s: Ch::S,
    comb: Seq<F128>,
    target: F128,
    rounds: Seq<(F128, F128)>,
    z: Seq<F128>,
    k_log: nat,
    n: nat,
)
    requires
        comb.len() == pow2(k_log),
        z.len() == pow2(k_log),
        n < k_log,
    ensures
        bound_at(z, verifier_run::<Ch>(s, comb, target, rounds, n).rs).len() == pow2(
            (k_log - n) as nat,
        ),
        error_after::<Ch>(s, comb, target, rounds, z, n + 1) == round_value(
            error_after::<Ch>(s, comb, target, rounds, z, n),
            message_error::<Ch>(s, comb, target, rounds, z, n),
            verifier_run::<Ch>(s, comb, target, rounds, n + 1).rs.last(),
        ),
    decreases n,
{
    let run = verifier_run::<Ch>(s, comb, target, rounds, n);
    let next = verifier_run::<Ch>(s, comb, target, rounds, n + 1);
    let bound = bound_at(z, run.rs);
    lemma_verifier_lengths::<Ch>(s, comb, target, rounds, k_log, n);
    if n > 0 {
        let before = verifier_run::<Ch>(s, comb, target, rounds, (n - 1) as nat);
        lemma_error_step::<Ch>(s, comb, target, rounds, z, k_log, (n - 1) as nat);
        assert(run.rs.drop_last() =~= before.rs);
        vstd::arithmetic::power2::lemma_pow2_unfold((k_log - n + 1) as nat);
        assert((k_log - (n - 1)) as nat == (k_log - n + 1) as nat);
    }
    vstd::arithmetic::power2::lemma_pow2_unfold((k_log - n) as nat);
    let r = next.rs.last();
    assert(next.rs.drop_last() =~= run.rs);
    assert(bound_at(z, next.rs) == bind_top(bound, r));
    lemma_error_of_a_round(run.comb, bound, run.running, rounds[n as int], r);
}

/// An error that is gone after some rounds was lost in one of them.
pub proof fn lemma_some_round_loses_it<Ch: Challenger>(
    s: Ch::S,
    comb: Seq<F128>,
    target: F128,
    rounds: Seq<(F128, F128)>,
    z: Seq<F128>,
    k_log: nat,
    n: nat,
)
    requires
        comb.len() == pow2(k_log),
        z.len() == pow2(k_log),
        n <= k_log,
        error_after::<Ch>(s, comb, target, rounds, z, 0) != fzero(),
        error_after::<Ch>(s, comb, target, rounds, z, n) == fzero(),
    ensures
        exists|t: nat| t < n && #[trigger] loses_error::<Ch>(s, comb, target, rounds, z, t),
    decreases n,
{
    let t = (n - 1) as nat;
    lemma_error_step::<Ch>(s, comb, target, rounds, z, k_log, t);
    if error_after::<Ch>(s, comb, target, rounds, z, t) == fzero() {
        lemma_some_round_loses_it::<Ch>(s, comb, target, rounds, z, k_log, t);
    } else {
        assert(loses_error::<Ch>(s, comb, target, rounds, z, t));
    }
}

/// What it takes to have false claims accepted. With `z` the folded witness, a proof that
/// passes has one of three things: batching challenges that cancel what the claims and the
/// pinned wire are off by, a folded witness at its end that is not `z` bound at the
/// challenges, or a round whose challenge is a root of a round polynomial that is not
/// zero.
pub proof fn lemma_acceptance_needs_luck<Ch: Challenger, C: LincheckCircuit>(
    s: Ch::S,
    m: usize,
    k_log: usize,
    k_skip: usize,
    circuit: &C,
    x: QuirkyPoint,
    v_a: F128,
    v_b: F128,
    p: LincheckProof,
    z_bit: spec_fn(int, int) -> bool,
    z: Seq<F128>,
)
    requires
        k_skip <= k_log < usize::BITS,
        circuit_fits(circuit),
        shape_error(m, k_log, k_skip, circuit.cols(), x, p) is None,
        z.len() == circuit.cols(),
        is_fold_of(z, z_bit, x.x_outer@),
        final_ok(
            checked_run::<Ch, C>(s, circuit, x, k_skip as nat, v_a, v_b, p.rounds@),
            p.z_partial@,
        ),
    ensures
        ({
            let b = batch::<Ch>(s, circuit.pin() is Some);
            let comb = start_comb(circuit, x, k_skip as nat, b.alpha, b.beta);
            let target = start_target(b.alpha, b.beta, v_a, v_b);
            let run = checked_run::<Ch, C>(s, circuit, x, k_skip as nat, v_a, v_b, p.rounds@);
            let (rows, cols) = (circuit.row_count(), circuit.cols());
            let t_a = true_value(circuit.a_entry(), z_bit, rows, cols, k_skip as nat, x);
            let t_b = true_value(circuit.b_entry(), z_bit, rows, cols, k_skip as nat, x);
            let wire = z[circuit.pin()->Some_0 as int];
            ||| start_error(b.alpha, b.beta, fadd(v_a, t_a), fadd(v_b, t_b), wire) == fzero()
            ||| p.z_partial@ != bound_at(z, run.rs)
            ||| exists|t: nat|
                t < p.rounds@.len() && #[trigger] loses_error::<Ch>(
                    b.state,
                    comb,
                    target,
                    p.rounds@,
                    z,
                    t,
                )
        }),
{
    let b = batch::<Ch>(s, circuit.pin() is Some);
    let comb = start_comb(circuit, x, k_skip as nat, b.alpha, b.beta);
    let target = start_target(b.alpha, b.beta, v_a, v_b);
    let run = checked_run::<Ch, C>(s, circuit, x, k_skip as nat, v_a, v_b, p.rounds@);
    vstd::bits::lemma_usize_pow2_no_overflow(k_log as nat);
    lemma_error_of_the_claims(circuit, x, k_skip as nat, b.alpha, b.beta, z_bit, z, v_a, v_b);
    let n = p.rounds@.len();
    let e = error_after::<Ch>(b.state, comb, target, p.rounds@, z, 0);
    assert(bound_at(z, Seq::<F128>::empty()) == z);
    if e != fzero() && p.z_partial@ == bound_at(z, run.rs) {
        lemma_add_zero(run.running);
        lemma_some_round_loses_it::<Ch>(b.state, comb, target, p.rounds@, z, k_log as nat, n);
    }
}

} // verus!

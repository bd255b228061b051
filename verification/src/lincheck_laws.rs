//! What lincheck is for: an honest proof of true claims is accepted, and the claim it
//! leaves is the value of the witness extension.

use crate::block_major::{bind_top, block_bits};
use crate::challenger::Challenger;
use crate::circuit::{comb_table, LincheckCircuit};
use crate::dispatch::FoldArch;
use crate::eq::{dot, eq_table, eq_weight, lagrange_weight, lagrange_weights, lemma_eq_weight_factors, lemma_eq_weights_sum_to_one, quirky_eq_table, quirky_weight};
use crate::f128_slice::fmix;
use crate::field::{fadd, fmul, fone, fzero, F128};
use crate::field::{lemma_add_assoc, lemma_add_comm, lemma_add_swap, lemma_add_zero};
use crate::field::{lemma_mul_add_left, lemma_mul_add_right, lemma_mul_assoc, lemma_mul_comm, lemma_mul_nonzero, lemma_mul_one, lemma_mul_zero};
use crate::lincheck::{after_claim, after_honest, after_msg, batch, checked_run, circuit_fits, final_ok, honest_run, is_claim, is_honest, lemma_prover_lengths, lemma_verifier_lengths, prover_run, round_value, shape_error, start_comb, start_target, verifier_run, with_pin, witness_fold, LincheckClaim, LincheckProof, PackedZ, QuirkyPoint, VerifierRun};
use crate::r1cs::marginal;
use crate::stripe::{live_cols, stripe_bits, weights};
use crate::sumcheck::{round_msg, term_inf, term_one};
use crate::sums::{fsum, lemma_sum_add, lemma_sum_ext, lemma_sum_rows, lemma_sum_scale, lemma_sum_single, lemma_sum_split, lemma_sum_swap, sel};
use vstd::arithmetic::power2::pow2;
use vstd::prelude::*;

verus! {

/// Doubled summands cancel.
proof fn lemma_cross_terms(p: F128, q: F128, s: F128, t: F128)
    ensures
        fadd(fadd(p, q), fadd(p, s)) == fadd(fadd(p, t), fadd(fadd(p, q), fadd(s, t))),
{
    lemma_add_swap(p, q, p, s);
    lemma_add_zero(p);
    lemma_add_zero(fadd(q, s));
    lemma_add_swap(p, t, fadd(p, q), fadd(s, t));
    lemma_add_assoc(p, p, q);
    lemma_add_zero(q);
    lemma_add_comm(t, fadd(s, t));
    lemma_add_assoc(s, t, t);
    lemma_add_zero(t);
    lemma_add_zero(s);
}

/// The product of two mixes, as a polynomial in the mixing point.
pub proof fn lemma_mix_product(a: F128, b: F128, x: F128, y: F128, r: F128)
    ensures
        ({
            let q = fmul(fadd(b, a), fadd(y, x));
            let lo = fmul(a, x);
            let hi = fmul(b, y);
            fmul(fmix(a, b, r), fmix(x, y, r)) == fadd(
                fadd(fmul(r, fmul(r, q)), fmul(r, fadd(fadd(lo, hi), q))),
                lo,
            )
        }),
{
    let u = fadd(a, b);
    let v = fadd(x, y);
    let q = fmul(u, v);
    lemma_add_comm(a, b);
    lemma_add_comm(x, y);
    let (ax, ay, bx, by) = (fmul(a, x), fmul(a, y), fmul(b, x), fmul(b, y));
    let (ru, rv) = (fmul(r, u), fmul(r, v));
    // Expand the product.
    lemma_mul_add_left(a, ru, fadd(x, rv));
    lemma_mul_add_right(a, x, rv);
    lemma_mul_add_right(ru, x, rv);
    let av = fmul(a, v);
    let ux = fmul(u, x);
    assert(fmul(a, rv) == fmul(r, av)) by {
        lemma_mul_assoc(a, r, v);
        lemma_mul_comm(a, r);
        lemma_mul_assoc(r, a, v);
    }
    assert(fmul(ru, x) == fmul(r, ux)) by {
        lemma_mul_assoc(r, u, x);
    }
    assert(fmul(ru, rv) == fmul(r, fmul(r, q))) by {
        lemma_mul_assoc(r, u, rv);
        lemma_mul_assoc(u, r, v);
        lemma_mul_comm(u, r);
        lemma_mul_assoc(r, u, v);
    }
    // Collect the middle terms.
    assert(fadd(av, ux) == fadd(fadd(ax, by), q)) by {
        lemma_mul_add_right(a, x, y);
        lemma_mul_add_left(a, b, x);
        lemma_mul_add_left(a, b, v);
        lemma_mul_add_right(b, x, y);
        lemma_cross_terms(ax, ay, bx, by);
    }
    lemma_mul_add_right(r, av, ux);
    let (m1, m2, d) = (fmul(r, av), fmul(r, ux), fmul(r, fmul(r, q)));
    // (ax + m1) + (m2 + d) = (d + (m1 + m2)) + ax
    lemma_add_comm(ax, m1);
    lemma_add_comm(fadd(m1, ax), fadd(m2, d));
    lemma_add_comm(m2, d);
    lemma_add_assoc(d, m2, fadd(m1, ax));
    lemma_add_assoc(m2, m1, ax);
    lemma_add_comm(m2, m1);
    lemma_add_assoc(d, fadd(m1, m2), ax);
}

/// The low half of a round: the sum of the products of the low entries.
pub open spec fn low_half(c: Seq<F128>, z: Seq<F128>) -> F128 {
    fsum((c.len() / 2) as nat, |i: int| fmul(c[i], z[i]))
}

/// A dot product is its low half plus `q(1)`.
pub proof fn lemma_dot_halves(c: Seq<F128>, z: Seq<F128>)
    requires
        c.len() == z.len(),
        c.len() % 2 == 0,
    ensures
        dot(c, z, c.len()) == fadd(low_half(c, z), round_msg(c, z).0),
{
    let h = (c.len() / 2) as nat;
    let f = |i: int| fmul(c[i], z[i]);
    lemma_sum_split(h, h, f);
    assert(h + h == c.len());
    lemma_sum_ext(h, |i: int| f(h + i), |i: int| term_one(c, z, i));
}

/// One round keeps the claim: the round polynomial that the message determines takes
/// at `r` the value of the dot product of the bound tables.
pub proof fn lemma_round_keeps_claim(c: Seq<F128>, z: Seq<F128>, r: F128)
    requires
        c.len() == z.len(),
        c.len() % 2 == 0,
    ensures
        round_value(dot(c, z, c.len()), round_msg(c, z), r) == dot(
            bind_top(c, r),
            bind_top(z, r),
            bind_top(c, r).len(),
        ),
{
    let h = (c.len() / 2) as nat;
    let (e1, einf) = round_msg(c, z);
    let e0 = low_half(c, z);
    let (bc, bz) = (bind_top(c, r), bind_top(z, r));
    let lo = |i: int| fmul(c[i], z[i]);
    let hi = |i: int| term_one(c, z, i);
    let q = |i: int| term_inf(c, z, i);
    let mid = |i: int| fadd(fadd(lo(i), hi(i)), q(i));
    let lh = |i: int| fadd(lo(i), hi(i));
    let rq = |i: int| fmul(r, q(i));
    let rrq = |i: int| fmul(r, rq(i));
    let rmid = |i: int| fmul(r, mid(i));
    let top = |i: int| fadd(rrq(i), rmid(i));
    let all = |i: int| fadd(top(i), lo(i));
    let f = |i: int| fmul(bc[i], bz[i]);
    assert(bc.len() == h);
    assert forall|i: int| 0 <= i < h implies #[trigger] f(i) == all(i) by {
        lemma_mix_product(c[i], c[i + h], z[i], z[i + h], r);
        assert(c[h + i] == c[i + h] && z[h + i] == z[i + h]);
    }
    lemma_sum_ext(h, f, all);
    lemma_sum_add(h, top, lo);
    lemma_sum_ext(h, all, |i: int| fadd(top(i), lo(i)));
    lemma_sum_add(h, rrq, rmid);
    lemma_sum_ext(h, top, |i: int| fadd(rrq(i), rmid(i)));
    lemma_sum_scale(h, r, rq);
    lemma_sum_ext(h, rrq, |i: int| fmul(r, rq(i)));
    lemma_sum_scale(h, r, q);
    lemma_sum_ext(h, rq, |i: int| fmul(r, q(i)));
    lemma_sum_scale(h, r, mid);
    lemma_sum_ext(h, rmid, |i: int| fmul(r, mid(i)));
    lemma_sum_add(h, lh, q);
    lemma_sum_ext(h, mid, |i: int| fadd(lh(i), q(i)));
    lemma_sum_add(h, lo, hi);
    lemma_sum_ext(h, lh, |i: int| fadd(lo(i), hi(i)));
    assert(fsum(h, f) == fadd(
        fadd(fmul(r, fmul(r, einf)), fmul(r, fadd(fadd(e0, e1), einf))),
        e0,
    ));
    // The verifier recovers the low half from the running claim.
    lemma_dot_halves(c, z);
    lemma_add_assoc(e0, e1, e1);
    lemma_add_zero(e1);
    lemma_add_zero(e0);
    let c1 = fadd(fadd(e0, e1), einf);
    lemma_mul_comm(c1, r);
    lemma_mul_comm(einf, r);
    lemma_mul_comm(fmul(r, einf), r);
}

/// Later rounds do not change the messages of earlier ones.
pub proof fn lemma_rounds_prefix<Ch: Challenger>(
    s: Ch::S,
    comb: Seq<F128>,
    z: Seq<F128>,
    n: nat,
    t: nat,
)
    requires
        t < n,
    ensures
        prover_run::<Ch>(s, comb, z, n).rounds.len() == n,
        prover_run::<Ch>(s, comb, z, n).rounds[t as int] == round_msg(
            prover_run::<Ch>(s, comb, z, t).comb,
            prover_run::<Ch>(s, comb, z, t).z,
        ),
    decreases n,
{
    lemma_rounds_len::<Ch>(s, comb, z, (n - 1) as nat);
    if t < n - 1 {
        lemma_rounds_prefix::<Ch>(s, comb, z, (n - 1) as nat, t);
    }
}

proof fn lemma_rounds_len<Ch: Challenger>(s: Ch::S, comb: Seq<F128>, z: Seq<F128>, n: nat)
    ensures
        prover_run::<Ch>(s, comb, z, n).rounds.len() == n,
    decreases n,
{
    if n > 0 {
        lemma_rounds_len::<Ch>(s, comb, z, (n - 1) as nat);
    }
}

/// On the prover's messages the verifier draws the prover's challenges, binds the same
/// table, stands in the same state, and its running claim is the dot product of the
/// prover's tables.
pub proof fn lemma_rounds_agree<Ch: Challenger>(
    s: Ch::S,
    comb: Seq<F128>,
    z: Seq<F128>,
    k_log: nat,
    n: nat,
    t: nat,
)
    requires
        comb.len() == pow2(k_log),
        z.len() == pow2(k_log),
        t <= n <= k_log,
    ensures
        ({
            let p = prover_run::<Ch>(s, comb, z, t);
            let v = verifier_run::<Ch>(
                s,
                comb,
                dot(comb, z, comb.len()),
                prover_run::<Ch>(s, comb, z, n).rounds,
                t,
            );
            &&& v.rs == p.rs
            &&& v.comb == p.comb
            &&& v.state == p.state
            &&& v.running == dot(p.comb, p.z, p.comb.len())
        }),
    decreases t,
{
    if t > 0 {
        let u = (t - 1) as nat;
        lemma_rounds_agree::<Ch>(s, comb, z, k_log, n, u);
        lemma_rounds_prefix::<Ch>(s, comb, z, n, u);
        crate::lincheck::lemma_prover_lengths::<Ch>(s, comb, z, k_log, u);
        vstd::arithmetic::power2::lemma_pow2_unfold((k_log - u) as nat);
        let p = prover_run::<Ch>(s, comb, z, u);
        let r = Ch::challenge(after_msg::<Ch>(p.state, round_msg(p.comb, p.z)));
        lemma_round_keeps_claim(p.comb, p.z, r);
    }
}

/// Row `r` of a matrix times column block `o` of the witness, over GF(2).
pub open spec fn product_bit(
    entry: spec_fn(int, int) -> bool,
    z_bit: spec_fn(int, int) -> bool,
    k: nat,
    r: int,
    o: int,
) -> F128 {
    fsum(k, |c: int| sel(entry(r, c) && z_bit(c, o), fone()))
}

/// The extension of a matrix product at a point with inner weights `q` and outer
/// weights `w`.
pub open spec fn product_value(
    entry: spec_fn(int, int) -> bool,
    z_bit: spec_fn(int, int) -> bool,
    n_rows: nat,
    k: nat,
    n_outer: nat,
    q: Seq<F128>,
    w: spec_fn(int) -> F128,
) -> F128 {
    fsum(
        n_outer,
        |o: int| fmul(w(o), fsum(n_rows, |r: int| fmul(q[r], product_bit(entry, z_bit, k, r, o)))),
    )
}

/// Column `c` of the witness folded with the outer weights.
pub open spec fn z_fold(
    z_bit: spec_fn(int, int) -> bool,
    n_outer: nat,
    w: spec_fn(int) -> F128,
    c: int,
) -> F128 {
    fsum(n_outer, |o: int| sel(z_bit(c, o), w(o)))
}

/// One term of the triple sum behind both sides.
spec fn triple(
    entry: spec_fn(int, int) -> bool,
    z_bit: spec_fn(int, int) -> bool,
    q: Seq<F128>,
    w: spec_fn(int) -> F128,
    o: int,
    r: int,
    c: int,
) -> F128 {
    sel(entry(r, c) && z_bit(c, o), fmul(w(o), q[r]))
}

proof fn lemma_scale_sel(x: F128, b: bool, y: F128)
    ensures
        fmul(x, sel(b, y)) == sel(b, fmul(x, y)),
{
    lemma_mul_zero(x);
}

proof fn lemma_row_terms(
    entry: spec_fn(int, int) -> bool,
    z_bit: spec_fn(int, int) -> bool,
    n_rows: nat,
    k: nat,
    q: Seq<F128>,
    w: spec_fn(int) -> F128,
    o: int,
)
    ensures
        fmul(w(o), fsum(n_rows, |r: int| fmul(q[r], product_bit(entry, z_bit, k, r, o)))) == fsum(
            n_rows,
            |r: int| fsum(k, |c: int| triple(entry, z_bit, q, w, o, r, c)),
        ),
{
    let inner = |r: int| fmul(q[r], product_bit(entry, z_bit, k, r, o));
    let outer = |r: int| fsum(k, |c: int| triple(entry, z_bit, q, w, o, r, c));
    lemma_sum_scale(n_rows, w(o), inner);
    let scaled = |r: int| fmul(w(o), inner(r));
    assert forall|r: int| 0 <= r < n_rows implies #[trigger] scaled(r) == outer(r) by {
        let ones = |c: int| sel(entry(r, c) && z_bit(c, o), fone());
        let qs = |c: int| fmul(q[r], ones(c));
        lemma_sum_scale(k, q[r], ones);
        lemma_sum_ext(k, qs, |c: int| fmul(q[r], ones(c)));
        lemma_sum_scale(k, w(o), qs);
        let ts = |c: int| triple(entry, z_bit, q, w, o, r, c);
        assert forall|c: int| 0 <= c < k implies #[trigger] ts(c) == (|c: int|
            fmul(w(o), qs(c)))(c) by {
            let b = entry(r, c) && z_bit(c, o);
            lemma_scale_sel(q[r], b, fone());
            lemma_mul_one(q[r]);
            lemma_scale_sel(w(o), b, q[r]);
        }
        lemma_sum_ext(k, ts, |c: int| fmul(w(o), qs(c)));
        lemma_sum_ext(k, ts, |c: int| triple(entry, z_bit, q, w, o, r, c));
    }
    lemma_sum_ext(n_rows, |r: int| fmul(w(o), inner(r)), outer);
}

proof fn lemma_col_terms(
    entry: spec_fn(int, int) -> bool,
    z_bit: spec_fn(int, int) -> bool,
    n_rows: nat,
    n_outer: nat,
    q: Seq<F128>,
    w: spec_fn(int) -> F128,
    c: int,
)
    ensures
        fmul(marginal(entry, n_rows, q, c), z_fold(z_bit, n_outer, w, c)) == fsum(
            n_outer,
            |o: int| fsum(n_rows, |r: int| triple(entry, z_bit, q, w, o, r, c)),
        ),
{
    let m = marginal(entry, n_rows, q, c);
    let cols = |o: int| sel(z_bit(c, o), w(o));
    let outer = |o: int| fsum(n_rows, |r: int| triple(entry, z_bit, q, w, o, r, c));
    lemma_sum_scale(n_outer, m, cols);
    let scaled = |o: int| fmul(m, cols(o));
    assert forall|o: int| 0 <= o < n_outer implies #[trigger] scaled(o) == outer(o) by {
        let rows = |r: int| sel(entry(r, c), q[r]);
        let ts = |r: int| triple(entry, z_bit, q, w, o, r, c);
        lemma_scale_sel(m, z_bit(c, o), w(o));
        if z_bit(c, o) {
            lemma_mul_comm(m, w(o));
            lemma_sum_scale(n_rows, w(o), rows);
            lemma_sum_ext(n_rows, rows, |r: int| sel(entry(r, c), q[r]));
            assert forall|r: int| 0 <= r < n_rows implies #[trigger] ts(r) == (|r: int|
                fmul(w(o), rows(r)))(r) by {
                lemma_scale_sel(w(o), entry(r, c), q[r]);
            }
            lemma_sum_ext(n_rows, ts, |r: int| fmul(w(o), rows(r)));
        } else {
            crate::sums::lemma_sum_zero(n_rows, ts);
        }
        lemma_sum_ext(n_rows, ts, |r: int| triple(entry, z_bit, q, w, o, r, c));
    }
    lemma_sum_ext(n_outer, |o: int| fmul(m, cols(o)), outer);
}

/// The extension of `M z` at a point is the dot product of the column marginals of `M`
/// with the folded witness: the outer variables of the two sides cancel.
pub proof fn lemma_product_value(
    entry: spec_fn(int, int) -> bool,
    z_bit: spec_fn(int, int) -> bool,
    n_rows: nat,
    k: nat,
    n_outer: nat,
    q: Seq<F128>,
    w: spec_fn(int) -> F128,
)
    ensures
        product_value(entry, z_bit, n_rows, k, n_outer, q, w) == fsum(
            k,
            |c: int| fmul(marginal(entry, n_rows, q, c), z_fold(z_bit, n_outer, w, c)),
        ),
{
    // By rows.
    let by_row = |o: int|
        fmul(w(o), fsum(n_rows, |r: int| fmul(q[r], product_bit(entry, z_bit, k, r, o))));
    let oc = |o: int, c: int| fsum(n_rows, |r: int| triple(entry, z_bit, q, w, o, r, c));
    let by_oc = |o: int| fsum(k, |c: int| oc(o, c));
    assert forall|o: int| 0 <= o < n_outer implies #[trigger] by_row(o) == by_oc(o) by {
        lemma_row_terms(entry, z_bit, n_rows, k, q, w, o);
        let rc = |r: int, c: int| triple(entry, z_bit, q, w, o, r, c);
        lemma_sum_swap(n_rows, k, rc);
        let a = |r: int| fsum(k, |c: int| triple(entry, z_bit, q, w, o, r, c));
        let b = |r: int| fsum(k, |c: int| rc(r, c));
        assert forall|r: int| 0 <= r < n_rows implies #[trigger] a(r) == b(r) by {
            lemma_sum_ext(
                k,
                |c: int| triple(entry, z_bit, q, w, o, r, c),
                |c: int| rc(r, c),
            );
        }
        lemma_sum_ext(n_rows, a, b);
        lemma_sum_ext(n_rows, a, |r: int| fsum(k, |c: int| triple(entry, z_bit, q, w, o, r, c)));
        lemma_sum_ext(n_rows, b, |r: int| fsum(k, |c: int| rc(r, c)));
        let d = |c: int| fsum(n_rows, |r: int| rc(r, c));
        let e = |c: int| oc(o, c);
        assert forall|c: int| 0 <= c < k implies #[trigger] d(c) == e(c) by {
            lemma_sum_ext(
                n_rows,
                |r: int| rc(r, c),
                |r: int| triple(entry, z_bit, q, w, o, r, c),
            );
        }
        lemma_sum_ext(k, d, e);
        lemma_sum_ext(k, d, |c: int| fsum(n_rows, |r: int| rc(r, c)));
        lemma_sum_ext(k, e, |c: int| oc(o, c));
    }
    lemma_sum_ext(n_outer, by_row, by_oc);
    lemma_sum_swap(n_outer, k, oc);
    lemma_sum_ext(n_outer, by_oc, |o: int| fsum(k, |c: int| oc(o, c)));
    // By columns.
    let by_col = |c: int| fmul(marginal(entry, n_rows, q, c), z_fold(z_bit, n_outer, w, c));
    let co = |c: int| fsum(n_outer, |o: int| oc(o, c));
    assert forall|c: int| 0 <= c < k implies #[trigger] by_col(c) == co(c) by {
        lemma_col_terms(entry, z_bit, n_rows, n_outer, q, w, c);
        lemma_sum_ext(
            n_outer,
            |o: int| fsum(n_rows, |r: int| triple(entry, z_bit, q, w, o, r, c)),
            |o: int| oc(o, c),
        );
    }
    lemma_sum_ext(k, by_col, co);
    lemma_sum_ext(k, co, |c: int| fsum(n_outer, |o: int| oc(o, c)));
    lemma_sum_ext(
        n_outer,
        by_row,
        |o: int|
            fmul(w(o), fsum(n_rows, |r: int| fmul(q[r], product_bit(entry, z_bit, k, r, o)))),
    );
    lemma_sum_ext(
        k,
        by_col,
        |c: int| fmul(marginal(entry, n_rows, q, c), z_fold(z_bit, n_outer, w, c)),
    );
}

/// The batched table starts from the batched claims.
pub proof fn lemma_start_target(
    a: spec_fn(int, int) -> bool,
    b: spec_fn(int, int) -> bool,
    n_rows: nat,
    k: nat,
    q: Seq<F128>,
    alpha: F128,
    pin: Option<usize>,
    beta: Option<F128>,
    z: Seq<F128>,
)
    requires
        z.len() == k,
        (pin is Some) == (beta is Some),
        pin matches Some(col) ==> col < k && z[col as int] == fone(),
    ensures
        dot(with_pin(comb_table(a, b, n_rows, k, alpha, q), pin, beta), z, k) == start_target(
            alpha,
            beta,
            fsum(k, |c: int| fmul(marginal(a, n_rows, q, c), z[c])),
            fsum(k, |c: int| fmul(marginal(b, n_rows, q, c), z[c])),
        ),
{
    let table = comb_table(a, b, n_rows, k, alpha, q);
    let fa = |c: int| fmul(marginal(a, n_rows, q, c), z[c]);
    let fb = |c: int| fmul(marginal(b, n_rows, q, c), z[c]);
    let sa = |c: int| fmul(alpha, fa(c));
    let plain = |c: int| fmul(table[c], z[c]);
    assert forall|c: int| 0 <= c < k implies #[trigger] plain(c) == fadd(sa(c), fb(c)) by {
        let (ma, mb) = (marginal(a, n_rows, q, c), marginal(b, n_rows, q, c));
        assert(table[c] == fadd(fmul(alpha, ma), mb));
        lemma_mul_add_left(fmul(alpha, ma), mb, z[c]);
        lemma_mul_assoc(alpha, ma, z[c]);
    }
    lemma_sum_ext(k, plain, |c: int| fadd(sa(c), fb(c)));
    lemma_sum_add(k, sa, fb);
    lemma_sum_scale(k, alpha, fa);
    lemma_sum_ext(k, sa, |c: int| fmul(alpha, fa(c)));
    let t = fadd(fmul(alpha, fsum(k, fa)), fsum(k, fb));
    assert(fsum(k, plain) == t);
    lemma_sum_ext(k, plain, |i: int| fmul(table[i], z[i]));
    if pin is Some {
        let col = pin->Some_0 as int;
        let bv = beta->Some_0;
        let pinned = with_pin(table, pin, beta);
        let extra = |c: int| sel(c == col, bv);
        let full = |i: int| fmul(pinned[i], z[i]);
        assert forall|c: int| 0 <= c < k implies #[trigger] full(c) == fadd(plain(c), extra(c)) by {
            if c == col {
                lemma_mul_add_left(table[c], bv, z[c]);
                lemma_mul_one(bv);
            } else {
                lemma_add_zero(plain(c));
            }
        }
        lemma_sum_ext(k, full, |c: int| fadd(plain(c), extra(c)));
        lemma_sum_add(k, plain, extra);
        lemma_sum_single(k, col, extra);
        lemma_sum_ext(k, full, |i: int| fmul(pinned[i], z[i]));
    }
    lemma_sum_ext(k, fa, |c: int| fmul(marginal(a, n_rows, q, c), z[c]));
    lemma_sum_ext(k, fb, |c: int| fmul(marginal(b, n_rows, q, c), z[c]));
}

/// The fold of entry `i` over the `n` variables bound so far.
pub open spec fn bound_entry(z: Seq<F128>, point: Seq<F128>, stride: int, i: int) -> F128 {
    fsum(pow2(point.len()), |j: int| fmul(eq_weight(point, j), z[i + j * stride]))
}

/// Binding the top variable once more prepends its challenge to the point.
proof fn lemma_bind_step(z: Seq<F128>, point: Seq<F128>, r: F128, h: int, i: int)
    requires
        h >= 0,
    ensures
        bound_entry(z, seq![r] + point, h, i) == fmix(
            bound_entry(z, point, 2 * h, i),
            bound_entry(z, point, 2 * h, i + h),
            r,
        ),
{
    let n = pow2(point.len());
    let p = seq![r] + point;
    let one = seq![r];
    vstd::arithmetic::power2::lemma_pow2_unfold(p.len());
    vstd::arithmetic::power2::lemma2_to64();
    assert(one.len() == 1 && p.len() == 1 + point.len());
    assert((p.len() - 1) as nat == point.len());
    assert(pow2(p.len()) == n * 2);
    let f = |j: int| fmul(eq_weight(p, j), z[i + j * h]);
    lemma_sum_rows(n, 2, f);
    let lo = |j: int| fmul(eq_weight(point, j), z[i + j * (2 * h)]);
    let hi = |j: int| fmul(eq_weight(point, j), z[i + h + j * (2 * h)]);
    let lo1 = |j: int| fmul(fadd(fone(), r), lo(j));
    let hi1 = |j: int| fmul(r, hi(j));
    let rows = |j: int| fsum(2, |b: int| f(j * 2 + b));
    assert forall|j: int| 0 <= j < n implies #[trigger] rows(j) == fadd(lo1(j), hi1(j)) by {
        let g = |b: int| f(j * 2 + b);
        reveal_with_fuel(fsum, 3);
        assert(fsum(2, g) == fadd(fadd(fzero(), g(0)), g(1)));
        lemma_add_zero(g(0));
        assert(pow2(1) == 2);
        lemma_eq_weight_factors(one, point, j * 2);
        lemma_eq_weight_factors(one, point, j * 2 + 1);
        assert((j * 2) % 2 == 0 && (j * 2) / 2 == j && (j * 2 + 1) % 2 == 1 && (j * 2 + 1) / 2
            == j);
        lemma_single_weight(r);
        assert(i + (j * 2) * h == i + j * (2 * h)) by (nonlinear_arith);
        assert(i + (j * 2 + 1) * h == i + h + j * (2 * h)) by (nonlinear_arith);
        lemma_mul_assoc(fadd(fone(), r), eq_weight(point, j), z[i + j * (2 * h)]);
        lemma_mul_assoc(r, eq_weight(point, j), z[i + h + j * (2 * h)]);
    }
    lemma_sum_ext(n, rows, |j: int| fadd(lo1(j), hi1(j)));
    lemma_sum_ext(n, |j: int| fsum(2, |b: int| f(j * 2 + b)), rows);
    lemma_sum_add(n, lo1, hi1);
    lemma_sum_scale(n, fadd(fone(), r), lo);
    lemma_sum_scale(n, r, hi);
    lemma_sum_ext(n, lo1, |j: int| fmul(fadd(fone(), r), lo(j)));
    lemma_sum_ext(n, hi1, |j: int| fmul(r, hi(j)));
    let (a, b) = (fsum(n, lo), fsum(n, hi));
    lemma_sum_ext(n, lo, |j: int| fmul(eq_weight(point, j), z[i + j * (2 * h)]));
    lemma_sum_ext(n, hi, |j: int| fmul(eq_weight(point, j), z[i + h + j * (2 * h)]));
    crate::f128_slice::lemma_mix_two_mul(a, b, r);
    lemma_mul_comm(a, fadd(fone(), r));
    lemma_mul_comm(b, r);
    lemma_sum_ext(pow2(p.len()), f, |j: int| fmul(eq_weight(p, j), z[i + j * h]));
}

/// The two weights at a single coordinate.
proof fn lemma_single_weight(r: F128)
    ensures
        eq_weight(seq![r], 0) == fadd(fone(), r),
        eq_weight(seq![r], 1) == r,
{
    reveal_with_fuel(crate::eq::eq_prefix, 2);
    vstd::arithmetic::power2::lemma2_to64();
    lemma_mul_one(fadd(fone(), r));
    lemma_mul_one(r);
    assert(seq![r].len() == 1);
    assert(!crate::eq::index_bit(0, 0));
    assert(crate::eq::index_bit(1, 0));
}

/// After `t` rounds an entry of the prover's witness table is the fold of the first
/// table over the bound variables, the last challenge standing for the lowest of them.
pub proof fn lemma_prover_table<Ch: Challenger>(
    s: Ch::S,
    comb: Seq<F128>,
    z: Seq<F128>,
    k_log: nat,
    t: nat,
    i: int,
)
    requires
        comb.len() == pow2(k_log),
        z.len() == pow2(k_log),
        t <= k_log,
        0 <= i < pow2((k_log - t) as nat),
    ensures
        prover_run::<Ch>(s, comb, z, t).z[i] == bound_entry(
            z,
            prover_run::<Ch>(s, comb, z, t).rs.reverse(),
            pow2((k_log - t) as nat) as int,
            i,
        ),
    decreases t,
{
    let run = prover_run::<Ch>(s, comb, z, t);
    if t == 0 {
        let point = run.rs.reverse();
        assert(point.len() == 0);
        vstd::arithmetic::power2::lemma2_to64();
        reveal_with_fuel(fsum, 2);
        let f = |j: int| fmul(eq_weight(point, j), z[i + j * pow2(k_log)]);
        assert(fsum(1, f) == fadd(fzero(), f(0)));
        lemma_add_zero(f(0));
        assert(0 * pow2(k_log) == 0);
        lemma_mul_one(z[i]);
        lemma_sum_ext(1, f, |j: int| fmul(eq_weight(point, j), z[i + j * (pow2(k_log) as int)]));
    } else {
        let u = (t - 1) as nat;
        let p = prover_run::<Ch>(s, comb, z, u);
        let h = pow2((k_log - t) as nat) as int;
        vstd::arithmetic::power2::lemma_pow2_unfold((k_log - u) as nat);
        assert((k_log - u - 1) as nat == (k_log - t) as nat);
        lemma_prover_lengths::<Ch>(s, comb, z, k_log, u);
        lemma_prover_table::<Ch>(s, comb, z, k_log, u, i);
        lemma_prover_table::<Ch>(s, comb, z, k_log, u, i + h);
        let r = Ch::challenge(after_msg::<Ch>(p.state, round_msg(p.comb, p.z)));
        lemma_bind_step(z, p.rs.reverse(), r, h, i);
        assert(run.rs.reverse() =~= seq![r] + p.rs.reverse());
        assert(run.z[i] == fmix(p.z[i], p.z[i + p.z.len() / 2], r));
    }
}

/// Combining the last table with Lagrange weights evaluates the first one at the whole
/// inner point.
pub proof fn lemma_claim_value(
    z: Seq<F128>,
    last: Seq<F128>,
    rest: Seq<F128>,
    k_skip: nat,
    r_skip: F128,
)
    requires
        z.len() == pow2(k_skip + rest.len()),
        last.len() == pow2(k_skip),
        forall|i: int|
            0 <= i < pow2(k_skip) ==> #[trigger] last[i] == bound_entry(
                z,
                rest,
                pow2(k_skip) as int,
                i,
            ),
    ensures
        dot(lagrange_weights(k_skip, r_skip), last, pow2(k_skip)) == dot(
            quirky_eq_table(r_skip, rest, k_skip),
            z,
            pow2(k_skip + rest.len()),
        ),
{
    let ps = pow2(k_skip);
    let pr = pow2(rest.len());
    vstd::arithmetic::power2::lemma_pow2_adds(k_skip, rest.len());
    vstd::arithmetic::power2::lemma_pow2_pos(k_skip);
    assert(pr * ps == pow2(k_skip + rest.len())) by (nonlinear_arith)
        requires
            ps * pr == pow2(k_skip + rest.len()),
    ;
    let lw = |i: int| lagrange_weight(ps, r_skip, i);
    let ew = |j: int| eq_weight(rest, j);
    let ij = |i: int, j: int| fmul(lw(i), fmul(ew(j), z[i + j * ps]));
    let left = |i: int| fmul(lagrange_weights(k_skip, r_skip)[i], last[i]);
    let rows = |i: int| fsum(pr, |j: int| ij(i, j));
    assert forall|i: int| 0 <= i < ps implies #[trigger] left(i) == rows(i) by {
        let f = |j: int| fmul(ew(j), z[i + j * ps]);
        lemma_sum_ext(
            pr,
            f,
            |j: int| fmul(eq_weight(rest, j), z[i + j * (pow2(k_skip) as int)]),
        );
        lemma_sum_scale(pr, lw(i), f);
        lemma_sum_ext(pr, |j: int| fmul(lw(i), f(j)), |j: int| ij(i, j));
    }
    lemma_sum_ext(ps, left, rows);
    lemma_sum_ext(ps, rows, |i: int| fsum(pr, |j: int| ij(i, j)));
    lemma_sum_swap(ps, pr, ij);
    let g = |c: int| fmul(quirky_eq_table(r_skip, rest, k_skip)[c], z[c]);
    lemma_sum_rows(pr, ps, g);
    let a = |j: int| fsum(ps, |i: int| ij(i, j));
    let b = |j: int| fsum(ps, |i: int| g(j * ps + i));
    assert forall|j: int| 0 <= j < pr implies #[trigger] a(j) == b(j) by {
        let x = |i: int| ij(i, j);
        let y = |i: int| g(j * ps + i);
        assert forall|i: int| 0 <= i < ps implies #[trigger] x(i) == y(i) by {
            let c = j * ps + i;
            crate::num::lemma_row_div(j, i, ps as int);
            crate::num::lemma_row_bound(j, i, pr as int, ps as int);
            assert(quirky_eq_table(r_skip, rest, k_skip)[c] == fmul(lw(i), ew(j)));
            lemma_mul_assoc(lw(i), ew(j), z[c]);
            assert(i + j * ps == c);
        }
        lemma_sum_ext(ps, x, y);
        lemma_sum_ext(ps, x, |i: int| ij(i, j));
        lemma_sum_ext(ps, y, |i: int| g(j * ps + i));
    }
    lemma_sum_ext(pr, a, b);
    lemma_sum_ext(pr, a, |j: int| fsum(ps, |i: int| ij(i, j)));
    lemma_sum_ext(pr, b, |j: int| fsum(ps, |i: int| g(j * ps + i)));
    lemma_sum_ext(
        ps,
        left,
        |i: int| fmul(lagrange_weights(k_skip, r_skip)[i], last[i]),
    );
    lemma_sum_ext(
        pr * ps,
        g,
        |i: int| fmul(quirky_eq_table(r_skip, rest, k_skip)[i], z[i]),
    );
}

/// `z` is the witness with bits `z_bit`, folded at `x_outer`.
pub open spec fn is_fold_of(
    z: Seq<F128>,
    z_bit: spec_fn(int, int) -> bool,
    x_outer: Seq<F128>,
) -> bool {
    forall|c: int|
        0 <= c < z.len() ==> #[trigger] z[c] == z_fold(
            z_bit,
            pow2(x_outer.len()),
            |o: int| eq_weight(x_outer, o),
            c,
        )
}

/// The extension of `M z` at a claim point.
pub open spec fn true_value(
    entry: spec_fn(int, int) -> bool,
    z_bit: spec_fn(int, int) -> bool,
    n_rows: nat,
    k: nat,
    k_skip: nat,
    x: QuirkyPoint,
) -> F128 {
    product_value(
        entry,
        z_bit,
        n_rows,
        k,
        pow2(x.x_outer@.len()),
        quirky_eq_table(x.z_skip, x.x_inner_rest@, k_skip),
        |o: int| eq_weight(x.x_outer@, o),
    )
}

/// The pinned wire, where there is one, is one in every block.
pub open spec fn pin_holds(
    pin: Option<usize>,
    z_bit: spec_fn(int, int) -> bool,
    n_outer: nat,
) -> bool {
    pin matches Some(col) ==> forall|o: int| 0 <= o < n_outer ==> #[trigger] z_bit(col as int, o)
}

/// A wire that is one in every block folds to one.
pub proof fn lemma_pin_folds_to_one(
    z_bit: spec_fn(int, int) -> bool,
    x_outer: Seq<F128>,
    col: int,
)
    requires
        forall|o: int| 0 <= o < pow2(x_outer.len()) ==> #[trigger] z_bit(col, o),
    ensures
        z_fold(z_bit, pow2(x_outer.len()), |o: int| eq_weight(x_outer, o), col) == fone(),
{
    let w = |o: int| eq_weight(x_outer, o);
    lemma_eq_weights_sum_to_one(x_outer);
    lemma_sum_ext(
        pow2(x_outer.len()),
        |o: int| sel(z_bit(col, o), w(o)),
        |i: int| eq_weight(x_outer, i),
    );
}

/// The true claims are what the batched table starts from.
proof fn lemma_true_target<C: LincheckCircuit>(
    circuit: &C,
    x: QuirkyPoint,
    k_skip: nat,
    alpha: F128,
    beta: Option<F128>,
    z_bit: spec_fn(int, int) -> bool,
    z: Seq<F128>,
)
    requires
        circuit_fits(circuit),
        z.len() == circuit.cols(),
        (circuit.pin() is Some) == (beta is Some),
        is_fold_of(z, z_bit, x.x_outer@),
        pin_holds(circuit.pin(), z_bit, pow2(x.x_outer@.len())),
    ensures
        dot(start_comb(circuit, x, k_skip, alpha, beta), z, z.len()) == start_target(
            alpha,
            beta,
            true_value(circuit.a_entry(), z_bit, circuit.row_count(), circuit.cols(), k_skip, x),
            true_value(circuit.b_entry(), z_bit, circuit.row_count(), circuit.cols(), k_skip, x),
        ),
{
    let q = quirky_eq_table(x.z_skip, x.x_inner_rest@, k_skip);
    let n = pow2(x.x_outer@.len());
    let w = |o: int| eq_weight(x.x_outer@, o);
    let (rows, k) = (circuit.row_count(), circuit.cols());
    if circuit.pin() is Some {
        lemma_pin_folds_to_one(z_bit, x.x_outer@, circuit.pin()->Some_0 as int);
    }
    lemma_start_target(
        circuit.a_entry(),
        circuit.b_entry(),
        rows,
        k,
        q,
        alpha,
        circuit.pin(),
        beta,
        z,
    );
    lemma_product_value(circuit.a_entry(), z_bit, rows, k, n, q, w);
    lemma_product_value(circuit.b_entry(), z_bit, rows, k, n, q, w);
    lemma_sum_ext(
        k,
        |c: int| fmul(marginal(circuit.a_entry(), rows, q, c), z_fold(z_bit, n, w, c)),
        |c: int| fmul(marginal(circuit.a_entry(), rows, q, c), z[c]),
    );
    lemma_sum_ext(
        k,
        |c: int| fmul(marginal(circuit.b_entry(), rows, q, c), z_fold(z_bit, n, w, c)),
        |c: int| fmul(marginal(circuit.b_entry(), rows, q, c), z[c]),
    );
}

/// Completeness. Let the claims be the true values of `A z` and `B z` at the claim
/// point, and the pinned wire be one. Then the verifier, started in the prover's state,
/// accepts the honest proof, derives the prover's claim and ends in the prover's state.
pub proof fn lemma_honest_proof_accepted<Ch: Challenger, C: LincheckCircuit>(
    s: Ch::S,
    m: usize,
    k_log: usize,
    k_skip: usize,
    circuit: &C,
    x: QuirkyPoint,
    z_bit: spec_fn(int, int) -> bool,
    z: Seq<F128>,
    proof_: LincheckProof,
    claim: LincheckClaim,
)
    requires
        k_skip <= k_log <= m,
        k_log < usize::BITS,
        circuit_fits(circuit),
        circuit.cols() == pow2(k_log as nat),
        x.x_inner_rest@.len() == k_log - k_skip,
        x.x_outer@.len() == m - k_log,
        z.len() == pow2(k_log as nat),
        is_fold_of(z, z_bit, x.x_outer@),
        pin_holds(circuit.pin(), z_bit, pow2(x.x_outer@.len())),
        is_honest::<Ch, C>(s, circuit, x, k_skip as nat, z, proof_, claim),
    ensures
        shape_error(m, k_log, k_skip, circuit.cols(), x, proof_) is None,
        ({
            let run = checked_run::<Ch, C>(
                s,
                circuit,
                x,
                k_skip as nat,
                true_value(
                    circuit.a_entry(),
                    z_bit,
                    circuit.row_count(),
                    circuit.cols(),
                    k_skip as nat,
                    x,
                ),
                true_value(
                    circuit.b_entry(),
                    z_bit,
                    circuit.row_count(),
                    circuit.cols(),
                    k_skip as nat,
                    x,
                ),
                proof_.rounds@,
            );
            &&& final_ok(run, proof_.z_partial@)
            &&& is_claim::<Ch>(claim, run.rs, proof_.z_partial@, k_skip as nat, run.state)
            &&& after_claim::<Ch>(proof_.z_partial@, run.state) == after_honest::<Ch, C>(
                s,
                circuit,
                x,
                k_skip as nat,
                z,
            )
        }),
{
    let b = batch::<Ch>(s, circuit.pin() is Some);
    let comb = start_comb(circuit, x, k_skip as nat, b.alpha, b.beta);
    let n = x.x_inner_rest@.len();
    lemma_true_target(circuit, x, k_skip as nat, b.alpha, b.beta, z_bit, z);
    assert(comb.len() == pow2(k_log as nat));
    lemma_prover_lengths::<Ch>(b.state, comb, z, k_log as nat, n);
    lemma_rounds_agree::<Ch>(b.state, comb, z, k_log as nat, n, n);
    assert((k_log - n) as nat == k_skip as nat);
    vstd::bits::lemma_usize_pow2_no_overflow(k_log as nat);
    vstd::bits::lemma_usize_pow2_no_overflow(k_skip as nat);
}

/// The claim that an honest proof leaves is the value of the witness extension at the
/// sampled inner point and the outer half of the claim point.
pub proof fn lemma_honest_claim_is_extension<Ch: Challenger, C: LincheckCircuit>(
    s: Ch::S,
    k_log: nat,
    k_skip: nat,
    circuit: &C,
    x: QuirkyPoint,
    z_bit: spec_fn(int, int) -> bool,
    z: Seq<F128>,
    proof_: LincheckProof,
    claim: LincheckClaim,
)
    requires
        k_skip <= k_log,
        circuit_fits(circuit),
        circuit.cols() == pow2(k_log),
        x.x_inner_rest@.len() == k_log - k_skip,
        z.len() == pow2(k_log),
        is_fold_of(z, z_bit, x.x_outer@),
        is_honest::<Ch, C>(s, circuit, x, k_skip, z, proof_, claim),
    ensures
        claim.r_inner_rest@.len() == k_log - k_skip,
        claim.w == dot(
            quirky_eq_table(claim.r_inner_skip, claim.r_inner_rest@, k_skip),
            z,
            pow2(k_log),
        ),
        claim.w == fsum(
            pow2(k_log),
            |c: int|
                fmul(
                    quirky_weight(claim.r_inner_skip, claim.r_inner_rest@, k_skip, c),
                    z_fold(
                        z_bit,
                        pow2(x.x_outer@.len()),
                        |o: int| eq_weight(x.x_outer@, o),
                        c,
                    ),
                ),
        ),
{
    let b = batch::<Ch>(s, circuit.pin() is Some);
    let comb = start_comb(circuit, x, k_skip, b.alpha, b.beta);
    let n = x.x_inner_rest@.len();
    let run = honest_run::<Ch, C>(s, circuit, x, k_skip, z);
    lemma_prover_lengths::<Ch>(b.state, comb, z, k_log, n);
    assert((k_log - n) as nat == k_skip);
    let rest = run.rs.reverse();
    assert(rest.len() == n);
    assert(k_skip + n == k_log);
    assert forall|i: int| 0 <= i < pow2(k_skip) implies #[trigger] run.z[i] == bound_entry(
        z,
        rest,
        pow2(k_skip) as int,
        i,
    ) by {
        lemma_prover_table::<Ch>(b.state, comb, z, k_log, n, i);
    }
    lemma_claim_value(z, run.z, rest, k_skip, claim.r_inner_skip);
    lemma_sum_ext(
        pow2(k_log),
        |i: int| fmul(quirky_eq_table(claim.r_inner_skip, rest, k_skip)[i], z[i]),
        |c: int|
            fmul(
                quirky_weight(claim.r_inner_skip, claim.r_inner_rest@, k_skip, c),
                z_fold(z_bit, pow2(x.x_outer@.len()), |o: int| eq_weight(x.x_outer@, o), c),
            ),
    );
}

/// The bits of a packed witness, by inner and outer index.
pub open spec fn witness_bits(z: PackedZ, k: int) -> spec_fn(int, int) -> bool {
    match z {
        PackedZ::LincheckStripe(bytes) => |c: int, o: int| stripe_bits(bytes@, k, c)(o),
        PackedZ::BlockMajor(words) => |c: int, o: int| block_bits(words@, k / 128, c)(o),
    }
}

/// Whether the rows of every block from `useful` on are zero.
pub open spec fn zero_padded(z: PackedZ, k: int, n_outer: nat, useful: int) -> bool {
    forall|c: int, o: int|
        useful <= c < k && 0 <= o < n_outer ==> !#[trigger] witness_bits(z, k)(c, o)
}

proof fn lemma_live_covers(n: int, g: int, k: int)
    requires
        0 <= n <= k,
        g > 0,
    ensures
        n <= live_cols(n, g, k) <= k,
{
    let up = ((n + g - 1) / g) * g;
    assert(n <= up) by (nonlinear_arith)
        requires
            up == ((n + g - 1) / g) * g,
            g > 0,
    ;
}

/// What the prover folds is the witness extension over the outer variables, in either
/// layout and with any kernel, as long as the padding is honest.
pub proof fn lemma_witness_fold(
    z: PackedZ,
    m: int,
    k_log: nat,
    useful: int,
    x_outer: Seq<F128>,
    arch: FoldArch,
)
    requires
        0 <= useful <= pow2(k_log),
        zero_padded(z, pow2(k_log) as int, pow2(x_outer.len()), useful),
    ensures
        witness_fold(z, m, k_log, useful, x_outer, arch).len() == pow2(k_log),
        is_fold_of(
            witness_fold(z, m, k_log, useful, x_outer, arch),
            witness_bits(z, pow2(k_log) as int),
            x_outer,
        ),
{
    let k = pow2(k_log) as int;
    let n = pow2(x_outer.len());
    let w = |o: int| eq_weight(x_outer, o);
    let bit = witness_bits(z, k);
    let out = witness_fold(z, m, k_log, useful, x_outer, arch);
    assert forall|c: int| 0 <= c < out.len() implies #[trigger] out[c] == z_fold(bit, n, w, c) by {
        let f = |o: int| sel(bit(c, o), w(o));
        if c >= useful {
            assert forall|o: int| 0 <= o < n implies #[trigger] f(o) == fzero() by {
                assert(!witness_bits(z, k)(c, o));
            }
            crate::sums::lemma_sum_zero(n, f);
        }
        match z {
            PackedZ::LincheckStripe(bytes) => {
                let g = crate::dispatch::fold_granule(arch, m, k_log as int);
                lemma_live_covers(useful, g, k);
                let eq = eq_table(x_outer);
                lemma_sum_ext(
                    n,
                    |o: int| sel(stripe_bits(bytes@, k, c)(o), weights(eq)(o)),
                    f,
                );
            },
            PackedZ::BlockMajor(words) => {
                lemma_sum_ext(n, |o: int| sel(block_bits(words@, k / 128, c)(o), w(o)), f);
            },
        }
        lemma_sum_ext(n, f, |o: int| sel(bit(c, o), w(o)));
    }
}

/// Skipping honest padding changes nothing: the padded prover folds, and so sends, what
/// the plain one does.
pub proof fn lemma_padding_is_invisible(
    z: PackedZ,
    m: int,
    k_log: nat,
    useful: int,
    x_outer: Seq<F128>,
    arch: FoldArch,
    other: FoldArch,
)
    requires
        0 <= useful <= pow2(k_log),
        zero_padded(z, pow2(k_log) as int, pow2(x_outer.len()), useful),
    ensures
        witness_fold(z, m, k_log, useful, x_outer, arch) == witness_fold(
            z,
            m,
            k_log,
            pow2(k_log) as int,
            x_outer,
            other,
        ),
{
    let a = witness_fold(z, m, k_log, useful, x_outer, arch);
    let b = witness_fold(z, m, k_log, pow2(k_log) as int, x_outer, other);
    lemma_witness_fold(z, m, k_log, useful, x_outer, arch);
    lemma_witness_fold(z, m, k_log, pow2(k_log) as int, x_outer, other);
    assert(a =~= b);
}

/// Transcript and messages leave no choice in the claim.
pub proof fn lemma_claim_unique<Ch: Challenger>(
    a: LincheckClaim,
    b: LincheckClaim,
    rs: Seq<F128>,
    z_partial: Seq<F128>,
    k_skip: nat,
    s: Ch::S,
)
    requires
        is_claim::<Ch>(a, rs, z_partial, k_skip, s),
        is_claim::<Ch>(b, rs, z_partial, k_skip, s),
    ensures
        a.r_inner_skip == b.r_inner_skip,
        a.r_inner_rest@ == b.r_inner_rest@,
        a.w == b.w,
{
}

/// The last check is linear in the folded witness: with the same rounds, a changed
/// vector passes exactly when the change is orthogonal to the bound matrix table.
pub proof fn lemma_changed_partial<S>(run: VerifierRun<S>, z: Seq<F128>, change: Seq<F128>)
    requires
        final_ok(run, z),
        z.len() == run.comb.len(),
        change.len() == z.len(),
    ensures
        final_ok(run, Seq::new(z.len(), |i: int| fadd(z[i], change[i]))) <==> dot(
            run.comb,
            change,
            change.len(),
        ) == fzero(),
{
    let n = z.len();
    let moved = Seq::new(n, |i: int| fadd(z[i], change[i]));
    let f = |i: int| fmul(run.comb[i], z[i]);
    let g = |i: int| fmul(run.comb[i], change[i]);
    let h = |i: int| fmul(run.comb[i], moved[i]);
    assert forall|i: int| 0 <= i < n implies #[trigger] h(i) == fadd(f(i), g(i)) by {
        lemma_mul_add_right(run.comb[i], z[i], change[i]);
    }
    lemma_sum_ext(n, h, |i: int| fadd(f(i), g(i)));
    lemma_sum_add(n, f, g);
    lemma_sum_ext(n, h, |i: int| fmul(run.comb[i], moved[i]));
    let (a, b) = (fsum(n, f), fsum(n, g));
    lemma_add_zero(a);
    lemma_add_zero(b);
    lemma_add_assoc(a, a, b);
    assert(dot(run.comb, z, n) == a && dot(run.comb, change, n) == b);
    assert(dot(run.comb, moved, n) == fadd(a, b));
}

/// A proof changed at a slot of nonzero weight is rejected: where the last check passes,
/// it fails once an entry of the folded witness is changed that the bound matrix table
/// does not weigh with zero.
pub proof fn lemma_changed_slot_rejected<S>(run: VerifierRun<S>, z: Seq<F128>, j: int, d: F128)
    requires
        final_ok(run, z),
        z.len() == run.comb.len(),
        0 <= j < z.len(),
        run.comb[j] != fzero(),
        d != fzero(),
    ensures
        !final_ok(run, z.update(j, fadd(z[j], d))),
{
    let n = z.len();
    let change = Seq::new(n, |i: int| sel(i == j, d));
    let moved = Seq::new(n, |i: int| fadd(z[i], change[i]));
    assert forall|i: int| 0 <= i < n implies #[trigger] moved[i] == z.update(j, fadd(z[j], d))[i] by {
        lemma_add_zero(z[i]);
    }
    assert(moved =~= z.update(j, fadd(z[j], d)));
    let f = |i: int| fmul(run.comb[i], change[i]);
    assert forall|i: int| 0 <= i < n && i != j implies #[trigger] f(i) == fzero() by {
        lemma_mul_zero(run.comb[i]);
    }
    lemma_sum_single(n, j, f);
    lemma_mul_nonzero(run.comb[j], d);
    lemma_changed_partial(run, z, change);
}

/// Of two proofs with the same rounds, whose folded witnesses differ in one entry that
/// the bound matrix table does not weigh with zero, the verifier accepts at most one; the
/// other fails the last check.
pub proof fn lemma_mutated_proof_rejected<Ch: Challenger, C: LincheckCircuit>(
    s: Ch::S,
    m: usize,
    k_log: usize,
    k_skip: usize,
    circuit: &C,
    x: QuirkyPoint,
    v_a: F128,
    v_b: F128,
    p: LincheckProof,
    q: LincheckProof,
    j: int,
)
    requires
        k_skip <= k_log < usize::BITS,
        circuit_fits(circuit),
        shape_error(m, k_log, k_skip, circuit.cols(), x, p) is None,
        p.rounds@ == q.rounds@,
        p.z_partial@.len() == q.z_partial@.len(),
        0 <= j < p.z_partial@.len(),
        forall|i: int|
            0 <= i < p.z_partial@.len() && i != j ==> #[trigger] p.z_partial@[i] == q.z_partial@[i],
        p.z_partial@[j] != q.z_partial@[j],
        checked_run::<Ch, C>(s, circuit, x, k_skip as nat, v_a, v_b, p.rounds@).comb[j] != fzero(),
        final_ok(
            checked_run::<Ch, C>(s, circuit, x, k_skip as nat, v_a, v_b, p.rounds@),
            p.z_partial@,
        ),
    ensures
        shape_error(m, k_log, k_skip, circuit.cols(), x, q) is None,
        !final_ok(
            checked_run::<Ch, C>(s, circuit, x, k_skip as nat, v_a, v_b, q.rounds@),
            q.z_partial@,
        ),
{
    let b = batch::<Ch>(s, circuit.pin() is Some);
    let comb = start_comb(circuit, x, k_skip as nat, b.alpha, b.beta);
    let target = start_target(b.alpha, b.beta, v_a, v_b);
    let n = p.rounds@.len();
    let run = checked_run::<Ch, C>(s, circuit, x, k_skip as nat, v_a, v_b, p.rounds@);
    vstd::bits::lemma_usize_pow2_no_overflow(k_log as nat);
    vstd::bits::lemma_usize_pow2_no_overflow(k_skip as nat);
    assert(comb.len() == pow2(k_log as nat));
    lemma_verifier_lengths::<Ch>(b.state, comb, target, p.rounds@, k_log as nat, n);
    assert((k_log - n) as nat == k_skip as nat);
    let (a, c) = (p.z_partial@[j], q.z_partial@[j]);
    let d = fadd(a, c);
    lemma_add_zero(a);
    lemma_add_zero(c);
    lemma_add_assoc(a, a, c);
    assert(d != fzero());
    assert(q.z_partial@ =~= p.z_partial@.update(j, fadd(a, d)));
    lemma_changed_slot_rejected(run, p.z_partial@, j, d);
}

} // verus!

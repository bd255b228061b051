//! Equality tables, Lagrange weights and dot products.

use crate::field::{fadd, fmul, fone, fzero, F128};
use crate::field::{lemma_add_assoc, lemma_add_zero};
use crate::field::{lemma_mul_add_right, lemma_mul_assoc, lemma_mul_comm, lemma_mul_one};
use crate::inverse::{finv, fpow_chain, fsquare_by, lemma_inverse, lemma_inverse_of_zero};
use crate::num::{lemma_pow2_split, lemma_row_div, pow2_usize};
use crate::sums::{fsum, lemma_sum_add, lemma_sum_ext, lemma_sum_split};
use vstd::arithmetic::power2::{lemma_pow2_pos, lemma_pow2_unfold, pow2};
use vstd::prelude::*;

verus! {

/// Bit `j` of the index `i`, least significant first.
pub open spec fn index_bit(i: int, j: nat) -> bool {
    (i / pow2(j) as int) % 2 == 1
}

/// `eq(r, b)` for a Boolean `b`: `r` where `b` holds and `1 + r` elsewhere.
pub open spec fn eq_factor(r: F128, b: bool) -> F128 {
    if b {
        r
    } else {
        fadd(fone(), r)
    }
}

/// The product of `eq(point[j], bit_j(i))` over the first `d` coordinates.
pub open spec fn eq_prefix(point: Seq<F128>, i: int, d: nat) -> F128
    decreases d,
{
    if d == 0 {
        fone()
    } else {
        fmul(
            eq_prefix(point, i, (d - 1) as nat),
            eq_factor(point[d - 1], index_bit(i, (d - 1) as nat)),
        )
    }
}

/// The weight of the Boolean index `i` in the multilinear extension at `point`.
pub open spec fn eq_weight(point: Seq<F128>, i: int) -> F128 {
    eq_prefix(point, i, point.len())
}

/// All `2^d` weights at `point`.
pub open spec fn eq_table(point: Seq<F128>) -> Seq<F128> {
    Seq::new(pow2(point.len()), |i: int| eq_weight(point, i))
}

pub proof fn lemma_index_bit_low(i: int, e: nat, j: nat)
    requires
        0 <= i < pow2(e),
        j < e,
    ensures
        index_bit(i + pow2(e), j) == index_bit(i, j),
{
    lemma_pow2_split(e, j);
    lemma_pow2_unfold((e - j) as nat);
    let (p, q, h) = (pow2(j) as int, pow2((e - j) as nat) as int, pow2((e - j - 1) as nat) as int);
    let a = i / p;
    assert((i + pow2(e)) / p == a + q) by {
        vstd::arithmetic::div_mod::lemma_div_multiples_vanish_fancy(q, i % p, p);
        vstd::arithmetic::div_mod::lemma_fundamental_div_mod(i, p);
        let r = i % p;
        assert(i + p * q == (a + q) * p + r) by (nonlinear_arith)
            requires
                i == p * a + r,
        ;
        vstd::arithmetic::div_mod::lemma_fundamental_div_mod_converse(i + p * q, p, a + q, r);
    }
    assert((a + 2 * h) % 2 == a % 2);
}

pub proof fn lemma_index_bit_top(i: int, e: nat)
    requires
        0 <= i < pow2(e),
    ensures
        !index_bit(i, e),
        index_bit(i + pow2(e), e),
{
    let p = pow2(e) as int;
    vstd::arithmetic::div_mod::lemma_fundamental_div_mod_converse(i, p, 0, i);
    vstd::arithmetic::div_mod::lemma_fundamental_div_mod_converse(i + p, p, 1, i);
}

proof fn lemma_eq_prefix_low(point: Seq<F128>, i: int, e: nat, d: nat)
    requires
        0 <= i < pow2(e),
        d <= e,
    ensures
        eq_prefix(point, i + pow2(e), d) == eq_prefix(point, i, d),
    decreases d,
{
    if d > 0 {
        lemma_eq_prefix_low(point, i, e, (d - 1) as nat);
        lemma_index_bit_low(i, e, (d - 1) as nat);
    }
}

/// The table of a point with one more coordinate doubles the shorter table.
proof fn lemma_eq_prefix_double(point: Seq<F128>, i: int, d: nat)
    requires
        0 <= i < pow2(d),
        d < point.len(),
    ensures
        eq_prefix(point, i, d + 1) == fadd(
            eq_prefix(point, i, d),
            fmul(eq_prefix(point, i, d), point[d as int]),
        ),
        eq_prefix(point, i + pow2(d), d + 1) == fmul(eq_prefix(point, i, d), point[d as int]),
{
    lemma_index_bit_top(i, d);
    lemma_eq_prefix_low(point, i, d, d);
    let v = eq_prefix(point, i, d);
    lemma_mul_add_right(v, fone(), point[d as int]);
    lemma_mul_one(v);
}

/// The weights at any point add up to one.
pub proof fn lemma_eq_weights_sum_to_one(point: Seq<F128>)
    ensures
        fsum(pow2(point.len()), |i: int| eq_weight(point, i)) == fone(),
{
    lemma_eq_prefix_sum(point, point.len());
    lemma_sum_ext(
        pow2(point.len()),
        |i: int| eq_prefix(point, i, point.len()),
        |i: int| eq_weight(point, i),
    );
}

proof fn lemma_eq_prefix_sum(point: Seq<F128>, d: nat)
    requires
        d <= point.len(),
    ensures
        fsum(pow2(d), |i: int| eq_prefix(point, i, d)) == fone(),
    decreases d,
{
    let f = |i: int| eq_prefix(point, i, d);
    if d == 0 {
        vstd::arithmetic::power2::lemma2_to64();
        assert(fsum(1, f) == fadd(fsum(0, f), f(0)));
        lemma_add_zero(fone());
    } else {
        let e = (d - 1) as nat;
        let n = pow2(e);
        lemma_eq_prefix_sum(point, e);
        lemma_pow2_unfold(d);
        let g = |i: int| eq_prefix(point, i, e);
        let h = |i: int| fmul(point[e as int], g(i));
        let lo = |i: int| fadd(g(i), h(i));
        let hi = |i: int| f(n + i);
        assert forall|i: int| 0 <= i < n implies #[trigger] f(i) == lo(i) by {
            lemma_eq_prefix_double(point, i, e);
            lemma_mul_comm(g(i), point[e as int]);
        }
        assert forall|i: int| 0 <= i < n implies #[trigger] hi(i) == h(i) by {
            lemma_eq_prefix_double(point, i, e);
            lemma_mul_comm(g(i), point[e as int]);
        }
        lemma_sum_split(n, n, f);
        lemma_sum_ext(n, f, lo);
        lemma_sum_ext(n, hi, h);
        lemma_sum_add(n, g, h);
        lemma_add_assoc(fsum(n, g), fsum(n, h), fsum(n, h));
        lemma_add_zero(fsum(n, h));
        lemma_add_zero(fsum(n, g));
        assert(n + n == pow2(d));
    }
}

/// The weights at a concatenated point are products of the weights at the
/// parts: the low index bits select from the first part, the high ones from the
/// second.
pub proof fn lemma_eq_weight_factors(p: Seq<F128>, q: Seq<F128>, i: int)
    requires
        0 <= i < pow2(p.len() + q.len()),
    ensures
        eq_weight(p + q, i) == fmul(
            eq_weight(p, i % pow2(p.len()) as int),
            eq_weight(q, i / pow2(p.len()) as int),
        ),
{
    lemma_pow2_pos(p.len());
    let n = pow2(p.len()) as int;
    vstd::arithmetic::div_mod::lemma_fundamental_div_mod(i, n);
    lemma_eq_factors_low(p, q, i, p.len());
    lemma_eq_factors_high(p, q, i, q.len());
}

proof fn lemma_eq_factors_low(p: Seq<F128>, q: Seq<F128>, i: int, d: nat)
    requires
        0 <= i,
        d <= p.len(),
    ensures
        eq_prefix(p + q, i, d) == eq_prefix(p, i % pow2(p.len()) as int, d),
    decreases d,
{
    if d > 0 {
        let e = (d - 1) as nat;
        lemma_eq_factors_low(p, q, i, e);
        lemma_index_bit_mod(i, p.len(), e);
    }
}

proof fn lemma_index_bit_mod(i: int, n: nat, j: nat)
    requires
        0 <= i,
        j < n,
    ensures
        index_bit(i % pow2(n) as int, j) == index_bit(i, j),
{
    lemma_pow2_split(n, j);
    lemma_pow2_unfold((n - j) as nat);
    let (p, q, h) = (pow2(j) as int, pow2((n - j) as nat) as int, pow2((n - j - 1) as nat) as int);
    vstd::arithmetic::div_mod::lemma_fundamental_div_mod(i, p * q);
    let (d, r) = (i / (p * q), i % (p * q));
    let a = r / p;
    let b = r % p;
    vstd::arithmetic::div_mod::lemma_fundamental_div_mod(r, p);
    assert(i == (a + q * d) * p + b) by (nonlinear_arith)
        requires
            i == (p * q) * d + r,
            r == p * a + b,
    ;
    vstd::arithmetic::div_mod::lemma_fundamental_div_mod_converse(i, p, a + q * d, b);
    assert(q * d == 2 * (h * d)) by (nonlinear_arith)
        requires
            q == 2 * h,
    ;
    let t = h * d;
    assert((a + 2 * t) % 2 == a % 2);
}

proof fn lemma_index_bit_div(i: int, n: nat, j: nat)
    requires
        0 <= i,
    ensures
        index_bit(i / pow2(n) as int, j) == index_bit(i, n + j),
{
    lemma_pow2_pos(n);
    lemma_pow2_pos(j);
    vstd::arithmetic::power2::lemma_pow2_adds(n, j);
    vstd::arithmetic::div_mod::lemma_div_denominator(i, pow2(n) as int, pow2(j) as int);
}

proof fn lemma_eq_factors_high(p: Seq<F128>, q: Seq<F128>, i: int, d: nat)
    requires
        0 <= i,
        d <= q.len(),
    ensures
        eq_prefix(p + q, i, p.len() + d) == fmul(
            eq_prefix(p + q, i, p.len()),
            eq_prefix(q, i / pow2(p.len()) as int, d),
        ),
    decreases d,
{
    let head = eq_prefix(p + q, i, p.len());
    if d == 0 {
        lemma_mul_one(head);
    } else {
        let e = (d - 1) as nat;
        lemma_eq_factors_high(p, q, i, e);
        lemma_index_bit_div(i, p.len(), e);
        let k = i / pow2(p.len()) as int;
        assert((p + q)[(p.len() + e) as int] == q[e as int]);
        lemma_mul_assoc(head, eq_prefix(q, k, e), eq_factor(q[e as int], index_bit(k, e)));
    }
}

/// The table of all `2^d` weights at `point`, least significant bit first.
pub fn build_eq_table(point: &[F128]) -> (out: Vec<F128>)
    requires
        point@.len() < usize::BITS,
    ensures
        out@ == eq_table(point@),
{
    let d: usize = point.len();
    let mut out: Vec<F128> = Vec::new();
    out.push(F128::one());
    let mut j: usize = 0;
    proof {
        vstd::arithmetic::power2::lemma2_to64();
    }
    while j < d
        invariant
            j <= d,
            d == point@.len(),
            d < usize::BITS,
            out@.len() == pow2(j as nat),
            forall|i: int| 0 <= i < out@.len() ==> #[trigger] out@[i] == eq_prefix(point@, i, j as nat),
        decreases d - j,
    {
        let r: F128 = point[j];
        let len: usize = pow2_usize(j);
        let ghost before = out@;
        proof {
            vstd::bits::lemma_usize_pow2_no_overflow((j + 1) as nat);
            lemma_pow2_unfold((j + 1) as nat);
        }
        let mut i: usize = 0;
        while i < len
            invariant
                i <= len,
                len == before.len(),
                out@.len() == before.len() + i,
                len == pow2(j as nat),
                j < point@.len(),
                2 * len <= usize::MAX,
                r == point@[j as int],
                forall|t: int| 0 <= t < len ==> before[t] == eq_prefix(point@, t, j as nat),
                forall|t: int| 0 <= t < i ==> #[trigger] out@[t] == eq_prefix(point@, t, (j + 1) as nat),
                forall|t: int| i <= t < len ==> #[trigger] out@[t] == before[t],
                forall|t: int|
                    len <= t < out@.len() ==> #[trigger] out@[t] == eq_prefix(
                        point@,
                        t,
                        (j + 1) as nat,
                    ),
            decreases len - i,
        {
            let v: F128 = out[i];
            let hi: F128 = v * r;
            proof {
                assert(before[i as int] == eq_prefix(point@, i as int, j as nat));
                lemma_eq_prefix_double(point@, i as int, j as nat);
            }
            out.push(hi);
            out.set(i, v + hi);
            i = i + 1;
        }
        j = j + 1;
    }
    proof {
        assert(out@ =~= eq_table(point@));
    }
    out
}

/// The inverse of a nonzero element; zero for zero.
pub fn invert(x: F128) -> (r: F128)
    ensures
        r == finv(x),
        x != fzero() ==> fmul(x, r) == fone(),
        x == fzero() ==> r == fzero(),
{
    let mut acc: F128 = F128::one();
    let mut sq: F128 = x;
    let mut i: u64 = 0;
    while i < 127
        invariant
            i <= 127,
            acc == fpow_chain(x, i as nat),
            sq == fsquare_by(x, i as nat),
        decreases 127 - i,
    {
        sq = sq * sq;
        acc = acc * sq;
        i = i + 1;
    }
    proof {
        if x != fzero() {
            lemma_inverse(x);
        } else {
            lemma_inverse_of_zero();
        }
    }
    acc
}

/// The image of the basis element `x^j` of GF(2^8) (AES polynomial) in GF(2^128).
pub open spec fn phi8_basis(j: nat) -> F128 {
    if j == 0 {
        F128 { lo: 1, hi: 0 }
    } else if j == 1 {
        F128 { lo: 0x6b8330483c2e9849, hi: 0x0dcb364640a222fe }
    } else if j == 2 {
        F128 { lo: 0x7573da4a5f7710ed, hi: 0x3d5bd35c94646a24 }
    } else if j == 3 {
        F128 { lo: 0x41a12db1f974f3ac, hi: 0x6d58c4e181f9199f }
    } else if j == 4 {
        F128 { lo: 0x5e2f716f4ede412f, hi: 0xa72ec17764d7ced5 }
    } else if j == 5 {
        F128 { lo: 0x5cb10fbabcf00118, hi: 0x4d52354a3a3d8c86 }
    } else if j == 6 {
        F128 { lo: 0x95ed1f57f3632d4d, hi: 0x553e92e8bc0ae9a7 }
    } else {
        F128 { lo: 0x512625b1f09fa87e, hi: 0x93252331bf042b11 }
    }
}

/// The contribution of the low `n` bits of `v` to its image in GF(2^128).
pub open spec fn phi8_low(v: int, n: nat) -> F128
    decreases n,
{
    if n == 0 {
        fzero()
    } else {
        let rest = phi8_low(v, (n - 1) as nat);
        if index_bit(v, (n - 1) as nat) {
            fadd(rest, phi8_basis((n - 1) as nat))
        } else {
            rest
        }
    }
}

/// The image of the byte `v`, an element of GF(2^8), in GF(2^128).
pub open spec fn phi8(v: int) -> F128 {
    phi8_low(v, 8)
}

fn phi8_basis_at(j: usize) -> (r: F128)
    ensures
        r == phi8_basis(j as nat),
{
    if j == 0 {
        F128 { lo: 1, hi: 0 }
    } else if j == 1 {
        F128 { lo: 0x6b8330483c2e9849, hi: 0x0dcb364640a222fe }
    } else if j == 2 {
        F128 { lo: 0x7573da4a5f7710ed, hi: 0x3d5bd35c94646a24 }
    } else if j == 3 {
        F128 { lo: 0x41a12db1f974f3ac, hi: 0x6d58c4e181f9199f }
    } else if j == 4 {
        F128 { lo: 0x5e2f716f4ede412f, hi: 0xa72ec17764d7ced5 }
    } else if j == 5 {
        F128 { lo: 0x5cb10fbabcf00118, hi: 0x4d52354a3a3d8c86 }
    } else if j == 6 {
        F128 { lo: 0x95ed1f57f3632d4d, hi: 0x553e92e8bc0ae9a7 }
    } else {
        F128 { lo: 0x512625b1f09fa87e, hi: 0x93252331bf042b11 }
    }
}

/// The image of a byte in GF(2^128).
pub fn phi8_at(v: usize) -> (r: F128)
    ensures
        r == phi8(v as int),
{
    let mut acc: F128 = F128::zero();
    let mut rest: usize = v;
    let mut j: usize = 0;
    proof {
        vstd::arithmetic::power2::lemma2_to64();
    }
    while j < 8
        invariant
            j <= 8,
            rest as int == v as int / pow2(j as nat) as int,
            acc == phi8_low(v as int, j as nat),
        decreases 8 - j,
    {
        if rest % 2 == 1 {
            acc = acc + phi8_basis_at(j);
        }
        proof {
            lemma_pow2_pos(j as nat);
            lemma_pow2_unfold((j + 1) as nat);
            vstd::arithmetic::div_mod::lemma_div_denominator(v as int, pow2(j as nat) as int, 2);
        }
        rest = rest / 2;
        j = j + 1;
    }
    acc
}

/// The product of `z + phi8(j)` over `j < n`, `j != skip`.
pub open spec fn node_product(z: F128, skip: int, n: nat) -> F128
    decreases n,
{
    if n == 0 {
        fone()
    } else {
        let rest = node_product(z, skip, (n - 1) as nat);
        if n - 1 == skip {
            rest
        } else {
            fmul(rest, fadd(z, phi8(n - 1)))
        }
    }
}

/// The Lagrange weight of node `i` at `z` over the nodes `phi8(0 .. n)`.
pub open spec fn lagrange_weight(n: nat, z: F128, i: int) -> F128 {
    fmul(node_product(z, i, n), finv(node_product(phi8(i), i, n)))
}

/// All Lagrange weights at `z` over the nodes `phi8(0 .. 2^k_skip)`.
pub open spec fn lagrange_weights(k_skip: nat, z: F128) -> Seq<F128> {
    Seq::new(pow2(k_skip), |i: int| lagrange_weight(pow2(k_skip), z, i))
}

fn node_product_at(z: F128, skip: usize, n: usize) -> (r: F128)
    ensures
        r == node_product(z, skip as int, n as nat),
{
    let mut acc: F128 = F128::one();
    let mut j: usize = 0;
    while j < n
        invariant
            j <= n,
            acc == node_product(z, skip as int, j as nat),
        decreases n - j,
    {
        if j != skip {
            acc = acc * (z + phi8_at(j));
        }
        j = j + 1;
    }
    acc
}

/// The Lagrange weights at `z` over the nodes `phi8(0 .. 2^k_skip)`.
pub fn lagrange_weights_naive(k_skip: usize, z: F128) -> (out: Vec<F128>)
    requires
        k_skip < usize::BITS,
    ensures
        out@ == lagrange_weights(k_skip as nat, z),
{
    let n: usize = pow2_usize(k_skip);
    let mut out: Vec<F128> = Vec::new();
    let mut i: usize = 0;
    while i < n
        invariant
            i <= n,
            n == pow2(k_skip as nat),
            out@.len() == i,
            forall|t: int| 0 <= t < i ==> #[trigger] out@[t] == lagrange_weight(n as nat, z, t),
        decreases n - i,
    {
        let num: F128 = node_product_at(z, i, n);
        let x: F128 = phi8_at(i);
        let den: F128 = node_product_at(x, i, n);
        out.push(num * invert(den));
        i = i + 1;
    }
    proof {
        assert(out@ =~= lagrange_weights(k_skip as nat, z));
    }
    out
}

/// The weight of inner index `i` at a point whose low `k_skip` variables are
/// collapsed into `z_skip`.
pub open spec fn quirky_weight(z_skip: F128, rest: Seq<F128>, k_skip: nat, i: int) -> F128 {
    fmul(
        lagrange_weight(pow2(k_skip), z_skip, i % pow2(k_skip) as int),
        eq_weight(rest, i / pow2(k_skip) as int),
    )
}

/// All `2^(k_skip + rest)` inner weights.
pub open spec fn quirky_eq_table(z_skip: F128, rest: Seq<F128>, k_skip: nat) -> Seq<F128> {
    Seq::new(pow2(k_skip + rest.len()), |i: int| quirky_weight(z_skip, rest, k_skip, i))
}

/// The inner weight table of a claim point: the Lagrange weights of the skipped
/// variables in the low index bits, the equality weights of the others above.
pub fn build_quirky_eq_table(z_skip: F128, x_inner_rest: &[F128], k_skip: usize) -> (out: Vec<F128>)
    requires
        k_skip + x_inner_rest@.len() < usize::BITS,
    ensures
        out@ == quirky_eq_table(z_skip, x_inner_rest@, k_skip as nat),
{
    let ell_skip: usize = pow2_usize(k_skip);
    let ell_rest: usize = pow2_usize(x_inner_rest.len());
    let lambda_skip: Vec<F128> = lagrange_weights_naive(k_skip, z_skip);
    let eq_rest: Vec<F128> = build_eq_table(x_inner_rest);
    let ghost total = pow2((k_skip + x_inner_rest@.len()) as nat);
    proof {
        lemma_pow2_split((k_skip + x_inner_rest@.len()) as nat, k_skip as nat);
    }
    let mut out: Vec<F128> = Vec::new();
    let mut r: usize = 0;
    while r < ell_rest
        invariant
            r <= ell_rest,
            ell_rest == pow2(x_inner_rest@.len()),
            ell_skip == pow2(k_skip as nat),
            ell_skip > 0,
            lambda_skip@ == lagrange_weights(k_skip as nat, z_skip),
            eq_rest@ == eq_table(x_inner_rest@),
            out@.len() == r * ell_skip,
            forall|t: int|
                0 <= t < out@.len() ==> #[trigger] out@[t] == quirky_weight(
                    z_skip,
                    x_inner_rest@,
                    k_skip as nat,
                    t,
                ),
        decreases ell_rest - r,
    {
        let er: F128 = eq_rest[r];
        let mut s: usize = 0;
        while s < ell_skip
            invariant
                s <= ell_skip,
                r < ell_rest,
                ell_rest == pow2(x_inner_rest@.len()),
                ell_skip == pow2(k_skip as nat),
                lambda_skip@ == lagrange_weights(k_skip as nat, z_skip),
                er == eq_weight(x_inner_rest@, r as int),
                out@.len() == r * ell_skip + s,
                forall|t: int|
                    0 <= t < out@.len() ==> #[trigger] out@[t] == quirky_weight(
                        z_skip,
                        x_inner_rest@,
                        k_skip as nat,
                        t,
                    ),
            decreases ell_skip - s,
        {
            let ls: F128 = lambda_skip[s];
            proof {
                lemma_row_div(r as int, s as int, ell_skip as int);
            }
            out.push(ls * er);
            s = s + 1;
        }
        proof {
            assert((r + 1) * ell_skip == r * ell_skip + ell_skip) by (nonlinear_arith);
        }
        r = r + 1;
    }
    proof {
        lemma_pow2_split((k_skip + x_inner_rest@.len()) as nat, k_skip as nat);
        assert((k_skip + x_inner_rest@.len() - k_skip) as nat == x_inner_rest@.len());
        assert(out@ =~= quirky_eq_table(z_skip, x_inner_rest@, k_skip as nat));
    }
    out
}

/// The dot product of the first `n` entries.
pub open spec fn dot(a: Seq<F128>, b: Seq<F128>, n: nat) -> F128 {
    fsum(n, |i: int| fmul(a[i], b[i]))
}

/// The dot product of two equally long slices.
pub fn inner_product(a: &[F128], b: &[F128]) -> (r: F128)
    requires
        a@.len() == b@.len(),
    ensures
        r == dot(a@, b@, a@.len()),
{
    let mut acc: F128 = F128::zero();
    let n: usize = a.len();
    let mut i: usize = 0;
    while i < n
        invariant
            i <= n,
            n == a@.len(),
            n == b@.len(),
            acc == dot(a@, b@, i as nat),
        decreases n - i,
    {
        acc = acc + a[i] * b[i];
        i = i + 1;
    }
    acc
}

} // verus!

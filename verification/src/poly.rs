//! Polynomials over GF(2^128): how many roots they have, and that Lagrange weights
//! interpolate them.

use crate::bits::{byte_bit, lemma_byte_ext};
use crate::eq::{dot, index_bit, lagrange_weight, lagrange_weights, node_product, phi8, phi8_basis, phi8_low};
use crate::field::{fadd, fmul, fone, fzero, F128};
use crate::field::{lemma_add_assoc, lemma_add_comm, lemma_add_swap, lemma_add_zero};
use crate::field::{lemma_mul_add_left, lemma_mul_add_right, lemma_mul_assoc, lemma_mul_comm, lemma_mul_nonzero, lemma_mul_one, lemma_mul_zero};
use crate::inverse::{finv, lemma_image_squares, lemma_inverse};
use crate::sums::{fsum, lemma_sum_ext, lemma_sum_single, sel};
use crate::tables::{lemma_byte_bit_xor, lemma_byte_index_bit};
use vstd::arithmetic::power2::pow2;
use vstd::prelude::*;

verus! {

/// The value at `z` of the polynomial with coefficients `c`, the constant one first.
pub open spec fn peval(c: Seq<F128>, z: F128) -> F128
    decreases c.len(),
{
    if c.len() == 0 {
        fzero()
    } else {
        fadd(c[0], fmul(z, peval(c.drop_first(), z)))
    }
}

/// The quotient of a polynomial by `z + r`.
spec fn pdiv(c: Seq<F128>, r: F128) -> Seq<F128>
    decreases c.len(),
{
    if c.len() <= 1 {
        Seq::empty()
    } else {
        seq![peval(c.drop_first(), r)] + pdiv(c.drop_first(), r)
    }
}

/// Two elements that are not equal differ by something.
pub proof fn lemma_differ(a: F128, b: F128)
    ensures
        fadd(a, b) == fzero() <==> a == b,
{
    lemma_add_zero(a);
    lemma_add_zero(b);
    lemma_add_assoc(a, b, b);
}

proof fn lemma_division(c: Seq<F128>, r: F128, z: F128)
    ensures
        c.len() > 0 ==> pdiv(c, r).len() == c.len() - 1,
        fadd(peval(c, z), peval(c, r)) == fmul(fadd(z, r), peval(pdiv(c, r), z)),
    decreases c.len(),
{
    lemma_mul_zero(fadd(z, r));
    lemma_mul_zero(z);
    lemma_mul_zero(r);
    if c.len() == 0 {
        lemma_add_zero(fzero());
    } else if c.len() == 1 {
        assert(peval(c.drop_first(), z) == fzero() && peval(c.drop_first(), r) == fzero());
        lemma_add_zero(c[0]);
    } else {
        let t = c.drop_first();
        lemma_division(t, r, z);
        let (vz, vr) = (peval(t, z), peval(t, r));
        let q = pdiv(t, r);
        let v = peval(q, z);
        assert((seq![vr] + q).drop_first() =~= q);
        assert(peval(pdiv(c, r), z) == fadd(vr, fmul(z, v)));
        let (zz, zr, rr) = (fmul(z, vz), fmul(z, vr), fmul(r, vr));
        lemma_add_swap(c[0], zz, c[0], rr);
        lemma_add_zero(c[0]);
        lemma_add_zero(fadd(zz, rr));
        let s = fadd(z, r);
        lemma_mul_add_right(s, vr, fmul(z, v));
        lemma_mul_add_left(z, r, vr);
        lemma_mul_assoc(s, z, v);
        lemma_mul_comm(s, z);
        lemma_mul_assoc(z, s, v);
        lemma_mul_add_right(z, vz, vr);
        assert(fmul(s, fadd(vr, fmul(z, v))) == fadd(fadd(zr, rr), fadd(zz, zr)));
        lemma_add_comm(zz, zr);
        lemma_add_swap(zr, rr, zr, zz);
        lemma_add_zero(zr);
        lemma_add_zero(fadd(rr, zz));
        lemma_add_comm(rr, zz);
    }
}

/// A polynomial with as many roots as coefficients is zero everywhere: one of degree `d`
/// that is not zero has at most `d` roots.
pub proof fn lemma_roots(c: Seq<F128>, xs: Seq<F128>, z: F128)
    requires
        c.len() <= xs.len(),
        xs.no_duplicates(),
        forall|i: int| 0 <= i < xs.len() ==> peval(c, #[trigger] xs[i]) == fzero(),
    ensures
        peval(c, z) == fzero(),
    decreases c.len(),
{
    if c.len() > 0 {
        let r = xs.last();
        let q = pdiv(c, r);
        let ys = xs.drop_last();
        lemma_division(c, r, z);
        lemma_add_zero(fzero());
        assert forall|i: int| 0 <= i < ys.len() implies peval(q, #[trigger] ys[i]) == fzero() by {
            let y = xs[i];
            lemma_division(c, r, y);
            lemma_differ(y, r);
            if peval(q, y) != fzero() {
                lemma_mul_nonzero(fadd(y, r), peval(q, y));
            }
        }
        lemma_roots(q, ys, z);
        lemma_mul_zero(fadd(z, r));
        lemma_add_zero(peval(c, z));
    }
}

/// The sum of two polynomials with equally many coefficients.
spec fn padd(a: Seq<F128>, b: Seq<F128>) -> Seq<F128> {
    Seq::new(a.len(), |i: int| fadd(a[i], b[i]))
}

/// A polynomial times a constant.
spec fn pscale(k: F128, a: Seq<F128>) -> Seq<F128> {
    Seq::new(a.len(), |i: int| fmul(k, a[i]))
}

/// A polynomial times `z + r`.
spec fn ptimes(c: Seq<F128>, r: F128) -> Seq<F128> {
    padd(seq![fzero()] + c, pscale(r, c).push(fzero()))
}

proof fn lemma_eval_add(a: Seq<F128>, b: Seq<F128>, z: F128)
    requires
        a.len() == b.len(),
    ensures
        peval(padd(a, b), z) == fadd(peval(a, z), peval(b, z)),
    decreases a.len(),
{
    if a.len() == 0 {
        lemma_add_zero(fzero());
    } else {
        let (s, t) = (a.drop_first(), b.drop_first());
        lemma_eval_add(s, t, z);
        assert(padd(a, b).drop_first() =~= padd(s, t));
        lemma_mul_add_right(z, peval(s, z), peval(t, z));
        lemma_add_swap(a[0], b[0], fmul(z, peval(s, z)), fmul(z, peval(t, z)));
    }
}

proof fn lemma_eval_scale(k: F128, a: Seq<F128>, z: F128)
    ensures
        peval(pscale(k, a), z) == fmul(k, peval(a, z)),
    decreases a.len(),
{
    if a.len() == 0 {
        lemma_mul_zero(k);
    } else {
        let s = a.drop_first();
        lemma_eval_scale(k, s, z);
        assert(pscale(k, a).drop_first() =~= pscale(k, s));
        let v = peval(s, z);
        lemma_mul_add_right(k, a[0], fmul(z, v));
        lemma_mul_assoc(z, k, v);
        lemma_mul_comm(z, k);
        lemma_mul_assoc(k, z, v);
    }
}

proof fn lemma_eval_push_zero(a: Seq<F128>, z: F128)
    ensures
        peval(a.push(fzero()), z) == peval(a, z),
    decreases a.len(),
{
    let p = a.push(fzero());
    if a.len() == 0 {
        assert(p.drop_first().len() == 0);
        assert(peval(p.drop_first(), z) == fzero());
        lemma_mul_zero(z);
        lemma_add_zero(fzero());
    } else {
        lemma_eval_push_zero(a.drop_first(), z);
        assert(p.drop_first() =~= a.drop_first().push(fzero()));
    }
}

proof fn lemma_eval_times(c: Seq<F128>, r: F128, z: F128)
    ensures
        ptimes(c, r).len() == c.len() + 1,
        peval(ptimes(c, r), z) == fmul(peval(c, z), fadd(z, r)),
{
    let a = seq![fzero()] + c;
    let b = pscale(r, c).push(fzero());
    lemma_eval_add(a, b, z);
    assert(a.drop_first() =~= c);
    let v = peval(c, z);
    lemma_add_zero(fmul(z, v));
    lemma_eval_push_zero(pscale(r, c), z);
    lemma_eval_scale(r, c, z);
    lemma_mul_add_right(v, z, r);
    lemma_mul_comm(v, z);
    lemma_mul_comm(v, r);
}

/// The coefficients of [`node_product`].
spec fn node_poly(skip: int, n: nat) -> Seq<F128>
    decreases n,
{
    if n == 0 {
        seq![fone()]
    } else if n - 1 == skip {
        node_poly(skip, (n - 1) as nat)
    } else {
        ptimes(node_poly(skip, (n - 1) as nat), phi8(n - 1))
    }
}

proof fn lemma_node_poly(skip: int, n: nat, z: F128)
    ensures
        node_poly(skip, n).len() == if 0 <= skip < n {
            n
        } else {
            n + 1
        },
        peval(node_poly(skip, n), z) == node_product(z, skip, n),
    decreases n,
{
    if n == 0 {
        let one = seq![fone()];
        assert(peval(one.drop_first(), z) == fzero());
        lemma_mul_zero(z);
        lemma_add_zero(fone());
    } else {
        let m = (n - 1) as nat;
        lemma_node_poly(skip, m, z);
        if m != skip {
            lemma_eval_times(node_poly(skip, m), phi8(m as int), z);
        }
    }
}

spec fn pick(b: bool, w: u64) -> u64 {
    if b {
        w
    } else {
        0
    }
}

/// The low word of the sum of the embedding's basis elements that the bits select.
spec fn image_lo(b0: bool, b1: bool, b2: bool, b3: bool, b4: bool, b5: bool, b6: bool, b7: bool) -> u64 {
    0u64 ^ pick(b0, 1) ^ pick(b1, 0x6b8330483c2e9849) ^ pick(b2, 0x7573da4a5f7710ed) ^ pick(b3, 0x41a12db1f974f3ac) ^ pick(b4, 0x5e2f716f4ede412f) ^ pick(b5, 0x5cb10fbabcf00118) ^ pick(b6, 0x95ed1f57f3632d4d) ^ pick(b7, 0x512625b1f09fa87e)
}

/// The high word of that sum.
spec fn image_hi(b0: bool, b1: bool, b2: bool, b3: bool, b4: bool, b5: bool, b6: bool, b7: bool) -> u64 {
    0u64 ^ pick(b0, 0) ^ pick(b1, 0x0dcb364640a222fe) ^ pick(b2, 0x3d5bd35c94646a24) ^ pick(b3, 0x6d58c4e181f9199f) ^ pick(b4, 0xa72ec17764d7ced5) ^ pick(b5, 0x4d52354a3a3d8c86) ^ pick(b6, 0x553e92e8bc0ae9a7) ^ pick(b7, 0x93252331bf042b11)
}

proof fn lemma_phi8_step(v: int, j: nat)
    ensures
        phi8_low(v, j + 1) == fadd(phi8_low(v, j), sel(index_bit(v, j), phi8_basis(j))),
{
    lemma_add_zero(phi8_low(v, j));
}

proof fn lemma_phi8_image(v: int)
    ensures
        phi8(v).lo == image_lo(
            index_bit(v, 0),
            index_bit(v, 1),
            index_bit(v, 2),
            index_bit(v, 3),
            index_bit(v, 4),
            index_bit(v, 5),
            index_bit(v, 6),
            index_bit(v, 7),
        ),
        phi8(v).hi == image_hi(
            index_bit(v, 0),
            index_bit(v, 1),
            index_bit(v, 2),
            index_bit(v, 3),
            index_bit(v, 4),
            index_bit(v, 5),
            index_bit(v, 6),
            index_bit(v, 7),
        ),
{
    lemma_phi8_step(v, 0);
    lemma_phi8_step(v, 1);
    lemma_phi8_step(v, 2);
    lemma_phi8_step(v, 3);
    lemma_phi8_step(v, 4);
    lemma_phi8_step(v, 5);
    lemma_phi8_step(v, 6);
    lemma_phi8_step(v, 7);
}

proof fn lemma_phi8_low_xor(v: u8, w: u8, n: nat)
    requires
        n <= 8,
    ensures
        phi8_low((v ^ w) as int, n) == fadd(phi8_low(v as int, n), phi8_low(w as int, n)),
    decreases n,
{
    lemma_add_zero(fzero());
    if n > 0 {
        let j = (n - 1) as nat;
        lemma_phi8_low_xor(v, w, j);
        lemma_byte_bit_xor(v, w, j);
        lemma_byte_index_bit(v, j);
        lemma_byte_index_bit(w, j);
        lemma_byte_index_bit(v ^ w, j);
        lemma_phi8_step(v as int, j);
        lemma_phi8_step(w as int, j);
        lemma_phi8_step((v ^ w) as int, j);
        let b = phi8_basis(j);
        lemma_add_swap(
            phi8_low(v as int, j),
            sel(index_bit(v as int, j), b),
            phi8_low(w as int, j),
            sel(index_bit(w as int, j), b),
        );
        lemma_add_zero(b);
        lemma_add_comm(fzero(), b);
    }
}

/// The image of a byte in GF(2^128) keeps sums, and keeps squares of the field of 256
/// elements that `x^8 + x^4 + x^3 + x + 1` defines: what the squares of the powers of `x`
/// are there, those of their images are here.
pub proof fn lemma_phi8_keeps_the_field(v: u8, w: u8)
    ensures
        phi8((v ^ w) as int) == fadd(phi8(v as int), phi8(w as int)),
        phi8(0) == fzero(),
        phi8(1) == fone(),
        phi8(2) == (F128 { lo: 0x6b8330483c2e9849, hi: 0x0dcb364640a222fe }),
        fmul(phi8(2), phi8(2)) == phi8(4),
        fmul(phi8(4), phi8(4)) == phi8(16),
        fmul(phi8(8), phi8(8)) == phi8(64),
        fmul(phi8(16), phi8(16)) == fadd(fadd(fadd(phi8(1), phi8(2)), phi8(8)), phi8(16)),
        fmul(phi8(32), phi8(32)) == fadd(fadd(fadd(phi8(4), phi8(8)), phi8(32)), phi8(64)),
        fmul(phi8(64), phi8(64)) == fadd(
            fadd(fadd(fadd(phi8(1), phi8(2)), phi8(8)), phi8(32)),
            phi8(128),
        ),
        fmul(phi8(128), phi8(128)) == fadd(
            fadd(fadd(phi8(2), phi8(8)), phi8(16)),
            phi8(128),
        ),
{
    lemma_phi8_low_xor(v, w, 8);
    lemma_image_squares();
    vstd::arithmetic::power2::lemma2_to64();
    lemma_phi8_power(0);
    lemma_phi8_power(1);
    lemma_phi8_power(2);
    lemma_phi8_power(3);
    lemma_phi8_power(4);
    lemma_phi8_power(5);
    lemma_phi8_power(6);
    lemma_phi8_power(7);
    lemma_phi8_of_zero(8);
}

proof fn lemma_phi8_of_zero(n: nat)
    ensures
        phi8_low(0, n) == fzero(),
    decreases n,
{
    if n > 0 {
        lemma_phi8_of_zero((n - 1) as nat);
        vstd::arithmetic::power2::lemma_pow2_pos((n - 1) as nat);
        vstd::arithmetic::div_mod::lemma_basic_div(0, pow2((n - 1) as nat) as int);
    }
}

proof fn lemma_phi8_power_low(j: nat, n: nat)
    ensures
        phi8_low(pow2(j) as int, n) == if j < n {
            phi8_basis(j)
        } else {
            fzero()
        },
    decreases n,
{
    if n > 0 {
        let i = (n - 1) as nat;
        lemma_phi8_power_low(j, i);
        lemma_phi8_step(pow2(j) as int, i);
        let (p, q) = (pow2(j) as int, pow2(i) as int);
        vstd::arithmetic::power2::lemma_pow2_pos(i);
        vstd::arithmetic::power2::lemma_pow2_pos(j);
        if i < j {
            vstd::arithmetic::power2::lemma_pow2_adds(i, (j - i) as nat);
            vstd::arithmetic::power2::lemma_pow2_unfold((j - i) as nat);
            vstd::arithmetic::div_mod::lemma_div_multiples_vanish(pow2((j - i) as nat) as int, q);
        } else if i > j {
            vstd::arithmetic::power2::lemma_pow2_strictly_increases(j, i);
            vstd::arithmetic::div_mod::lemma_basic_div(p, q);
        } else {
            vstd::arithmetic::div_mod::lemma_div_by_self(p);
        }
        lemma_add_zero(phi8_low(pow2(j) as int, i));
        lemma_add_zero(phi8_basis(j));
        lemma_add_comm(fzero(), phi8_basis(j));
    }
}

proof fn lemma_phi8_power(j: nat)
    requires
        j < 8,
    ensures
        phi8(pow2(j) as int) == phi8_basis(j),
{
    lemma_phi8_power_low(j, 8);
}

/// Different bytes have different images in GF(2^128).
pub proof fn lemma_phi8_distinct(v: int, w: int)
    requires
        0 <= v < 256,
        0 <= w < 256,
        v != w,
    ensures
        phi8(v) != phi8(w),
{
    if phi8(v) == phi8(w) {
        lemma_phi8_image(v);
        lemma_phi8_image(w);
        let (p0, p1, p2, p3) = (index_bit(v, 0), index_bit(v, 1), index_bit(v, 2), index_bit(v, 3));
        let (p4, p5, p6, p7) = (index_bit(v, 4), index_bit(v, 5), index_bit(v, 6), index_bit(v, 7));
        let (q0, q1, q2, q3) = (index_bit(w, 0), index_bit(w, 1), index_bit(w, 2), index_bit(w, 3));
        let (q4, q5, q6, q7) = (index_bit(w, 4), index_bit(w, 5), index_bit(w, 6), index_bit(w, 7));
        assert(image_lo(p0, p1, p2, p3, p4, p5, p6, p7) == image_lo(q0, q1, q2, q3, q4, q5, q6, q7) && image_hi(p0, p1, p2, p3, p4, p5, p6, p7)
            == image_hi(q0, q1, q2, q3, q4, q5, q6, q7) ==> p0 == q0 && p1 == q1 && p2 == q2 && p3 == q3 && p4 == q4 && p5 == q5 && p6 == q6 && p7 == q7) by (bit_vector);
        let (a, b) = (v as u8, w as u8);
        assert forall|r: nat| r < 8 implies #[trigger] byte_bit(a, r) == byte_bit(b, r) by {
            lemma_byte_index_bit(a, r);
            lemma_byte_index_bit(b, r);
        }
        lemma_byte_ext(a, b);
    }
}

/// The nodes' differences to node `i` have a product that is not zero.
proof fn lemma_node_product_nonzero(i: int, n: nat)
    requires
        0 <= i < 256,
        n <= 256,
    ensures
        node_product(phi8(i), i, n) != fzero(),
    decreases n,
{
    if n > 0 {
        let m = (n - 1) as nat;
        lemma_node_product_nonzero(i, m);
        if m != i {
            lemma_phi8_distinct(i, m as int);
            lemma_differ(phi8(i), phi8(m as int));
            lemma_mul_nonzero(
                node_product(phi8(i), i, m),
                fadd(phi8(i), phi8(m as int)),
            );
        }
    }
}

/// The product over all nodes but one is zero at every other node.
proof fn lemma_node_product_zero(k: int, i: int, n: nat)
    requires
        0 <= k < n,
        k != i,
    ensures
        node_product(phi8(k), i, n) == fzero(),
    decreases n,
{
    let m = (n - 1) as nat;
    let rest = node_product(phi8(k), i, m);
    if m == k {
        lemma_add_zero(phi8(k));
        lemma_mul_zero(rest);
    } else {
        lemma_node_product_zero(k, i, m);
        if m != i {
            lemma_mul_zero(fadd(phi8(k), phi8(m as int)));
        }
    }
}

/// A Lagrange weight is one at its own node and zero at the others.
pub proof fn lemma_lagrange_at_node(n: nat, i: int, k: int)
    requires
        n <= 256,
        0 <= i < n,
        0 <= k < n,
    ensures
        lagrange_weight(n, phi8(k), i) == if i == k {
            fone()
        } else {
            fzero()
        },
{
    let d = node_product(phi8(i), i, n);
    if i == k {
        lemma_node_product_nonzero(i, n);
        lemma_inverse(d);
    } else {
        lemma_node_product_zero(k, i, n);
        lemma_mul_zero(finv(d));
    }
}

/// The values of a polynomial at the first `n` nodes.
pub open spec fn node_values(p: Seq<F128>, n: nat) -> Seq<F128> {
    Seq::new(n, |i: int| peval(p, phi8(i)))
}

/// The coefficients of the polynomial that takes the values `v` at the nodes, as far as
/// the first `m` of `n` nodes contribute.
spec fn lagrange_poly(v: Seq<F128>, n: nat, m: nat) -> Seq<F128>
    decreases m,
{
    if m == 0 {
        Seq::new(n, |i: int| fzero())
    } else {
        let i = m - 1;
        let k = fmul(v[i], finv(node_product(phi8(i), i, n)));
        padd(lagrange_poly(v, n, (m - 1) as nat), pscale(k, node_poly(i, n)))
    }
}

proof fn lemma_eval_zeros(n: nat, z: F128)
    ensures
        peval(Seq::new(n, |i: int| fzero()), z) == fzero(),
    decreases n,
{
    let s = Seq::new(n, |i: int| fzero());
    if n > 0 {
        lemma_eval_zeros((n - 1) as nat, z);
        assert(s.drop_first() =~= Seq::new((n - 1) as nat, |i: int| fzero()));
        lemma_mul_zero(z);
        lemma_add_zero(fzero());
    }
}

proof fn lemma_lagrange_poly(v: Seq<F128>, n: nat, m: nat, z: F128)
    requires
        m <= n,
    ensures
        lagrange_poly(v, n, m).len() == n,
        peval(lagrange_poly(v, n, m), z) == fsum(
            m,
            |i: int| fmul(lagrange_weight(n, z, i), v[i]),
        ),
    decreases m,
{
    if m == 0 {
        lemma_eval_zeros(n, z);
    } else {
        let i = m - 1;
        let rest = lagrange_poly(v, n, (m - 1) as nat);
        lemma_lagrange_poly(v, n, (m - 1) as nat, z);
        lemma_node_poly(i, n, z);
        let d = finv(node_product(phi8(i), i, n));
        let k = fmul(v[i], d);
        let w = node_product(z, i, n);
        lemma_eval_scale(k, node_poly(i, n), z);
        lemma_eval_add(rest, pscale(k, node_poly(i, n)), z);
        lemma_mul_comm(k, w);
        lemma_mul_comm(v[i], d);
        lemma_mul_assoc(w, d, v[i]);
    }
}

/// What the Lagrange weights make of the values `v`.
pub open spec fn combined(k_skip: nat, v: Seq<F128>, z: F128) -> F128 {
    dot(lagrange_weights(k_skip, z), v, pow2(k_skip))
}

/// Combining with Lagrange weights evaluates a polynomial.
proof fn lemma_combined(k_skip: nat, v: Seq<F128>, z: F128)
    ensures
        combined(k_skip, v, z) == peval(lagrange_poly(v, pow2(k_skip), pow2(k_skip)), z),
        lagrange_poly(v, pow2(k_skip), pow2(k_skip)).len() == pow2(k_skip),
{
    let n = pow2(k_skip);
    lemma_lagrange_poly(v, n, n, z);
    lemma_sum_ext(
        n,
        |i: int| fmul(lagrange_weight(n, z, i), v[i]),
        |i: int| fmul(lagrange_weights(k_skip, z)[i], v[i]),
    );
}

proof fn lemma_node_count(k_skip: nat)
    requires
        k_skip <= 8,
    ensures
        pow2(k_skip) <= 256,
{
    vstd::arithmetic::power2::lemma2_to64();
    if k_skip < 8 {
        vstd::arithmetic::power2::lemma_pow2_strictly_increases(k_skip, 8);
    }
}

/// At a node the combination is the value of that node.
pub proof fn lemma_combined_at_node(k_skip: nat, v: Seq<F128>, k: int)
    requires
        k_skip <= 8,
        0 <= k < pow2(k_skip),
    ensures
        combined(k_skip, v, phi8(k)) == v[k],
{
    let n = pow2(k_skip);
    let y = phi8(k);
    lemma_node_count(k_skip);
    let g = |i: int| fmul(lagrange_weights(k_skip, y)[i], v[i]);
    assert forall|i: int| 0 <= i < n && i != k implies #[trigger] g(i) == fzero() by {
        lemma_lagrange_at_node(n, i, k);
        lemma_mul_zero(v[i]);
    }
    lemma_sum_single(n, k, g);
    lemma_lagrange_at_node(n, k, k);
    lemma_mul_one(v[k]);
}

/// Lagrange weights interpolate: combined with the values of a polynomial at the nodes,
/// of which there are as many as it has coefficients, they give its value at `z`.
pub proof fn lemma_lagrange_interpolates(k_skip: nat, p: Seq<F128>, z: F128)
    requires
        k_skip <= 8,
        p.len() == pow2(k_skip),
    ensures
        combined(k_skip, node_values(p, pow2(k_skip)), z) == peval(p, z),
{
    let n = pow2(k_skip);
    let v = node_values(p, n);
    let l = lagrange_poly(v, n, n);
    let q = padd(l, p);
    let xs = Seq::new(n, |i: int| phi8(i));
    lemma_node_count(k_skip);
    lemma_combined(k_skip, v, z);
    assert forall|k: int| 0 <= k < xs.len() implies peval(q, #[trigger] xs[k]) == fzero() by {
        lemma_combined(k_skip, v, phi8(k));
        lemma_combined_at_node(k_skip, v, k);
        lemma_eval_add(l, p, phi8(k));
        lemma_add_zero(peval(p, phi8(k)));
    }
    assert forall|i: int, j: int| 0 <= i < n && 0 <= j < n && i != j implies xs[i] != xs[j] by {
        lemma_phi8_distinct(i, j);
    }
    lemma_roots(q, xs, z);
    lemma_eval_add(l, p, z);
    lemma_differ(peval(l, z), peval(p, z));
}

/// Different values combine alike at fewer than `2^k_skip` points.
pub proof fn lemma_combined_separates(k_skip: nat, a: Seq<F128>, b: Seq<F128>, xs: Seq<F128>)
    requires
        k_skip <= 8,
        a.len() == pow2(k_skip),
        b.len() == pow2(k_skip),
        xs.no_duplicates(),
        forall|i: int|
            0 <= i < xs.len() ==> combined(k_skip, a, #[trigger] xs[i]) == combined(k_skip, b, xs[i]),
    ensures
        xs.len() >= pow2(k_skip) ==> a == b,
{
    let n = pow2(k_skip);
    let (p, r) = (lagrange_poly(a, n, n), lagrange_poly(b, n, n));
    let q = padd(p, r);
    if xs.len() >= n {
        lemma_node_count(k_skip);
        lemma_combined(k_skip, a, fzero());
        lemma_combined(k_skip, b, fzero());
        assert forall|i: int| 0 <= i < xs.len() implies peval(q, #[trigger] xs[i]) == fzero() by {
            lemma_combined(k_skip, a, xs[i]);
            lemma_combined(k_skip, b, xs[i]);
            lemma_eval_add(p, r, xs[i]);
            lemma_add_zero(peval(p, xs[i]));
        }
        assert forall|k: int| 0 <= k < n implies #[trigger] a[k] == b[k] by {
            let y = phi8(k);
            lemma_roots(q, xs, y);
            lemma_eval_add(p, r, y);
            lemma_combined(k_skip, a, y);
            lemma_combined(k_skip, b, y);
            lemma_combined_at_node(k_skip, a, k);
            lemma_combined_at_node(k_skip, b, k);
            lemma_differ(a[k], b[k]);
        }
        assert(a =~= b);
    }
}

} // verus!

//! GF(2^128) is a field: its modulus is irreducible, and every nonzero element has an
//! inverse.
//!
//! Squaring is additive. Its only fixed points are zero and one, and squaring 128 times
//! gives every element back. So `x^(2^128 - 1)`, which is a fixed point, is zero or one,
//! and it is zero for zero alone.

use crate::eq::phi8_basis;
use crate::field::{fadd, fmul, fmul_low, fone, fshift, fshift_by, fzero, F128};
use crate::field::{lemma_add_comm, lemma_add_swap, lemma_add_zero};
use crate::field::{lemma_mul_add_left, lemma_mul_add_right, lemma_mul_assoc, lemma_mul_comm, lemma_mul_one, lemma_mul_zero};
use crate::field::{lemma_mul_shift_by, lemma_shift_by_shift};
use vstd::prelude::*;

verus! {

/// `x^(2^n)`.
pub open spec fn fsquare_by(x: F128, n: nat) -> F128
    decreases n,
{
    if n == 0 {
        x
    } else {
        fmul(fsquare_by(x, (n - 1) as nat), fsquare_by(x, (n - 1) as nat))
    }
}

/// The product of `x^(2^i)` for `1 <= i <= n`.
pub open spec fn fpow_chain(x: F128, n: nat) -> F128
    decreases n,
{
    if n == 0 {
        fone()
    } else {
        fmul(fpow_chain(x, (n - 1) as nat), fsquare_by(x, n))
    }
}

/// `x^(2^128 - 2)`, the inverse of a nonzero element.
pub open spec fn finv(x: F128) -> F128 {
    fpow_chain(x, 127)
}

/// The low half of a word with a zero behind every bit.
spec fn spread(x: u64) -> u64 {
    spread1(spread2(spread4(spread8(spread16(x & 0xffff_ffff)))))
}

spec fn spread16(x: u64) -> u64 {
    (x ^ (x << 16)) & 0x0000_ffff_0000_ffff
}

spec fn spread8(x: u64) -> u64 {
    (x ^ (x << 8)) & 0x00ff_00ff_00ff_00ff
}

spec fn spread4(x: u64) -> u64 {
    (x ^ (x << 4)) & 0x0f0f_0f0f_0f0f_0f0f
}

spec fn spread2(x: u64) -> u64 {
    (x ^ (x << 2)) & 0x3333_3333_3333_3333
}

spec fn spread1(x: u64) -> u64 {
    (x ^ (x << 1)) & 0x5555_5555_5555_5555
}

/// A word times `x^7 + x^2 + x + 1`, below `x^64`.
spec fn times_tail(s: u64) -> u64 {
    s ^ (s << 1) ^ (s << 2) ^ (s << 7)
}

/// A word times `x^7 + x^2 + x + 1`, from `x^64` up.
spec fn tail_carry(s: u64) -> u64 {
    (s >> 63) ^ (s >> 62) ^ (s >> 57)
}

/// The low word of a square.
spec fn sq_lo(lo: u64, hi: u64) -> u64 {
    spread(lo) ^ times_tail(spread(hi)) ^ times_tail(tail_carry(spread(hi >> 32)))
}

/// The high word of a square.
spec fn sq_hi(lo: u64, hi: u64) -> u64 {
    spread(lo >> 32) ^ times_tail(spread(hi >> 32)) ^ tail_carry(spread(hi))
}

/// The square of an element, bit by bit: the coefficient of `x^i` moves to `x^(2i)`.
spec fn sq(a: F128) -> F128 {
    F128 { lo: sq_lo(a.lo, a.hi), hi: sq_hi(a.lo, a.hi) }
}

proof fn lemma_sq_add(a: F128, b: F128)
    ensures
        sq(fadd(a, b)) == fadd(sq(a), sq(b)),
{
    let (p, q, r, s) = (a.lo, a.hi, b.lo, b.hi);
    assert(sq_lo(p ^ r, q ^ s) == sq_lo(p, q) ^ sq_lo(r, s) && sq_hi(p ^ r, q ^ s) == sq_hi(p, q)
        ^ sq_hi(r, s)) by (bit_vector);
}

spec fn shift_lo(lo: u64, hi: u64) -> u64 {
    (lo << 1) ^ (if (hi >> 63) & 1 == 1 { 0x87u64 } else { 0u64 })
}

spec fn shift_hi(lo: u64, hi: u64) -> u64 {
    (hi << 1) | (lo >> 63)
}

proof fn lemma_sq_shift(a: F128)
    ensures
        sq(fshift(a)) == fshift(fshift(sq(a))),
{
    let (p, q) = (a.lo, a.hi);
    assert({
        &&& sq_lo(shift_lo(p, q), shift_hi(p, q)) == shift_lo(
            shift_lo(sq_lo(p, q), sq_hi(p, q)),
            shift_hi(sq_lo(p, q), sq_hi(p, q)),
        )
        &&& sq_hi(shift_lo(p, q), shift_hi(p, q)) == shift_hi(
            shift_lo(sq_lo(p, q), sq_hi(p, q)),
            shift_hi(sq_lo(p, q), sq_hi(p, q)),
        )
    }) by (bit_vector);
}

/// The squares of the powers of `x`.
proof fn lemma_sq_power(n: nat)
    ensures
        sq(fshift_by(fone(), n)) == fshift_by(fshift_by(fone(), n), n),
        fmul(fshift_by(fone(), n), fshift_by(fone(), n)) == fshift_by(fshift_by(fone(), n), n),
    decreases n,
{
    let p = fshift_by(fone(), n);
    lemma_mul_shift_by(fone(), p, n);
    lemma_mul_one(p);
    if n == 0 {
        assert(sq_lo(1, 0) == 1 && sq_hi(1, 0) == 0) by (bit_vector);
    } else {
        let m = (n - 1) as nat;
        lemma_sq_power(m);
        lemma_sq_shift(fshift_by(fone(), m));
        lemma_shift_by_shift(fshift_by(fone(), m), m);
    }
}

/// Squaring is additive.
pub proof fn lemma_square_add(a: F128, b: F128)
    ensures
        fmul(fadd(a, b), fadd(a, b)) == fadd(fmul(a, a), fmul(b, b)),
{
    lemma_mul_add_left(a, b, fadd(a, b));
    lemma_mul_add_right(a, a, b);
    lemma_mul_add_right(b, a, b);
    lemma_mul_comm(a, b);
    let (s, t, u) = (fmul(a, a), fmul(a, b), fmul(b, b));
    lemma_add_comm(t, u);
    lemma_add_swap(s, t, u, t);
    lemma_add_zero(t);
    lemma_add_zero(fadd(s, u));
}

proof fn lemma_square_low(a: F128, n: nat)
    requires
        n <= 128,
    ensures
        ({
            let v = fmul_low(fone(), a, n);
            fmul(v, v) == sq(v)
        }),
    decreases n,
{
    if n == 0 {
        lemma_mul_zero(fzero());
        lemma_add_zero(fzero());
        lemma_sq_add(fzero(), fzero());
        lemma_add_zero(sq(fzero()));
    } else {
        let m = (n - 1) as nat;
        let (v, p) = (fmul_low(fone(), a, m), fshift_by(fone(), m));
        lemma_square_low(a, m);
        lemma_sq_power(m);
        lemma_square_add(v, p);
        lemma_sq_add(v, p);
    }
}

proof fn lemma_square(a: F128)
    ensures
        fmul(a, a) == sq(a),
{
    lemma_square_low(a, 128);
    lemma_mul_one(a);
    reveal(fmul);
}

/// The images of the powers of `x` square as `x^8 = x^4 + x^3 + x + 1` has it.
pub proof fn lemma_image_squares()
    ensures
        fmul(phi8_basis(1), phi8_basis(1)) == phi8_basis(2),
        fmul(phi8_basis(2), phi8_basis(2)) == phi8_basis(4),
        fmul(phi8_basis(3), phi8_basis(3)) == phi8_basis(6),
        fmul(phi8_basis(4), phi8_basis(4)) == fadd(fadd(fadd(phi8_basis(0), phi8_basis(1)), phi8_basis(3)), phi8_basis(4)),
        fmul(phi8_basis(5), phi8_basis(5)) == fadd(fadd(fadd(phi8_basis(2), phi8_basis(3)), phi8_basis(5)), phi8_basis(6)),
        fmul(phi8_basis(6), phi8_basis(6)) == fadd(fadd(fadd(fadd(phi8_basis(0), phi8_basis(1)), phi8_basis(3)), phi8_basis(5)), phi8_basis(7)),
        fmul(phi8_basis(7), phi8_basis(7)) == fadd(fadd(fadd(phi8_basis(1), phi8_basis(3)), phi8_basis(4)), phi8_basis(7)),
{
    lemma_square(phi8_basis(1));
    lemma_square(phi8_basis(2));
    lemma_square(phi8_basis(3));
    lemma_square(phi8_basis(4));
    lemma_square(phi8_basis(5));
    lemma_square(phi8_basis(6));
    lemma_square(phi8_basis(7));
    assert({
        &&& sq_lo(0x6b8330483c2e9849, 0x0dcb364640a222fe) == 0x7573da4a5f7710edu64
        &&& sq_hi(0x6b8330483c2e9849, 0x0dcb364640a222fe) == 0x3d5bd35c94646a24u64
        &&& sq_lo(0x7573da4a5f7710ed, 0x3d5bd35c94646a24) == 0x5e2f716f4ede412fu64
        &&& sq_hi(0x7573da4a5f7710ed, 0x3d5bd35c94646a24) == 0xa72ec17764d7ced5u64
        &&& sq_lo(0x41a12db1f974f3ac, 0x6d58c4e181f9199f) == 0x95ed1f57f3632d4du64
        &&& sq_hi(0x41a12db1f974f3ac, 0x6d58c4e181f9199f) == 0x553e92e8bc0ae9a7u64
        &&& sq_lo(0x5e2f716f4ede412f, 0xa72ec17764d7ced5) == 0x0000000000000001u64 ^ 0x6b8330483c2e9849 ^ 0x41a12db1f974f3ac ^ 0x5e2f716f4ede412f
        &&& sq_hi(0x5e2f716f4ede412f, 0xa72ec17764d7ced5) == 0x0000000000000000u64 ^ 0x0dcb364640a222fe ^ 0x6d58c4e181f9199f ^ 0xa72ec17764d7ced5
        &&& sq_lo(0x5cb10fbabcf00118, 0x4d52354a3a3d8c86) == 0x7573da4a5f7710edu64 ^ 0x41a12db1f974f3ac ^ 0x5cb10fbabcf00118 ^ 0x95ed1f57f3632d4d
        &&& sq_hi(0x5cb10fbabcf00118, 0x4d52354a3a3d8c86) == 0x3d5bd35c94646a24u64 ^ 0x6d58c4e181f9199f ^ 0x4d52354a3a3d8c86 ^ 0x553e92e8bc0ae9a7
        &&& sq_lo(0x95ed1f57f3632d4d, 0x553e92e8bc0ae9a7) == 0x0000000000000001u64 ^ 0x6b8330483c2e9849 ^ 0x41a12db1f974f3ac ^ 0x5cb10fbabcf00118 ^ 0x512625b1f09fa87e
        &&& sq_hi(0x95ed1f57f3632d4d, 0x553e92e8bc0ae9a7) == 0x0000000000000000u64 ^ 0x0dcb364640a222fe ^ 0x6d58c4e181f9199f ^ 0x4d52354a3a3d8c86 ^ 0x93252331bf042b11
        &&& sq_lo(0x512625b1f09fa87e, 0x93252331bf042b11) == 0x6b8330483c2e9849u64 ^ 0x41a12db1f974f3ac ^ 0x5e2f716f4ede412f ^ 0x512625b1f09fa87e
        &&& sq_hi(0x512625b1f09fa87e, 0x93252331bf042b11) == 0x0dcb364640a222feu64 ^ 0x6d58c4e181f9199f ^ 0xa72ec17764d7ced5 ^ 0x93252331bf042b11
    }) by (bit_vector);
}

/// The only idempotents are zero and one.
pub proof fn lemma_idempotent(e: F128)
    requires
        fmul(e, e) == e,
    ensures
        e == fzero() || e == fone(),
{
    lemma_square(e);
    let (lo, hi) = (e.lo, e.hi);
    assert(sq_lo(lo, hi) == lo && sq_hi(lo, hi) == hi ==> hi == 0 && lo <= 1) by (bit_vector);
}

/// Repeated squaring is additive.
pub proof fn lemma_square_by_add(a: F128, b: F128, n: nat)
    ensures
        fsquare_by(fadd(a, b), n) == fadd(fsquare_by(a, n), fsquare_by(b, n)),
    decreases n,
{
    if n > 0 {
        let m = (n - 1) as nat;
        lemma_square_by_add(a, b, m);
        lemma_square_add(fsquare_by(a, m), fsquare_by(b, m));
    }
}

/// The middle two of four factors may be exchanged.
pub proof fn lemma_mul_swap(a: F128, b: F128, c: F128, d: F128)
    ensures
        fmul(fmul(a, b), fmul(c, d)) == fmul(fmul(a, c), fmul(b, d)),
{
    lemma_mul_assoc(a, b, fmul(c, d));
    lemma_mul_assoc(b, c, d);
    lemma_mul_comm(b, c);
    lemma_mul_assoc(c, b, d);
    lemma_mul_assoc(a, c, fmul(b, d));
}

/// Repeated squaring is multiplicative.
pub proof fn lemma_square_by_mul(a: F128, b: F128, n: nat)
    ensures
        fsquare_by(fmul(a, b), n) == fmul(fsquare_by(a, n), fsquare_by(b, n)),
    decreases n,
{
    if n > 0 {
        let m = (n - 1) as nat;
        lemma_square_by_mul(a, b, m);
        let (u, v) = (fsquare_by(a, m), fsquare_by(b, m));
        lemma_mul_swap(u, v, u, v);
    }
}

/// The element `x`.
spec fn fx() -> F128 {
    F128 { lo: 2, hi: 0 }
}

proof fn lemma_conjugate_step(k: nat, lo: u64, hi: u64)
    requires
        fsquare_by(fx(), k) == (F128 { lo, hi }),
    ensures
        fsquare_by(fx(), k + 1) == (F128 { lo: sq_lo(lo, hi), hi: sq_hi(lo, hi) }),
{
    lemma_square(F128 { lo, hi });
}

proof fn lemma_conjugates_0()
    requires
        fsquare_by(fx(), 0) == (F128 { lo: 0x0000000000000002, hi: 0x0000000000000000 }),
    ensures
        fsquare_by(fx(), 32) == (F128 { lo: 0x21777af80695052a, hi: 0x782d0a995dd3b018 }),
{
    assert({
        &&& sq_lo(0x0000000000000002, 0x0000000000000000) == 0x0000000000000004 && sq_hi(0x0000000000000002, 0x0000000000000000) == 0x0000000000000000
        &&& sq_lo(0x0000000000000004, 0x0000000000000000) == 0x0000000000000010 && sq_hi(0x0000000000000004, 0x0000000000000000) == 0x0000000000000000
        &&& sq_lo(0x0000000000000010, 0x0000000000000000) == 0x0000000000000100 && sq_hi(0x0000000000000010, 0x0000000000000000) == 0x0000000000000000
        &&& sq_lo(0x0000000000000100, 0x0000000000000000) == 0x0000000000010000 && sq_hi(0x0000000000000100, 0x0000000000000000) == 0x0000000000000000
        &&& sq_lo(0x0000000000010000, 0x0000000000000000) == 0x0000000100000000 && sq_hi(0x0000000000010000, 0x0000000000000000) == 0x0000000000000000
        &&& sq_lo(0x0000000100000000, 0x0000000000000000) == 0x0000000000000000 && sq_hi(0x0000000100000000, 0x0000000000000000) == 0x0000000000000001
        &&& sq_lo(0x0000000000000000, 0x0000000000000001) == 0x0000000000000087 && sq_hi(0x0000000000000000, 0x0000000000000001) == 0x0000000000000000
        &&& sq_lo(0x0000000000000087, 0x0000000000000000) == 0x0000000000004015 && sq_hi(0x0000000000000087, 0x0000000000000000) == 0x0000000000000000
        &&& sq_lo(0x0000000000004015, 0x0000000000000000) == 0x0000000010000111 && sq_hi(0x0000000000004015, 0x0000000000000000) == 0x0000000000000000
        &&& sq_lo(0x0000000010000111, 0x0000000000000000) == 0x0100000000010101 && sq_hi(0x0000000010000111, 0x0000000000000000) == 0x0000000000000000
        &&& sq_lo(0x0100000000010101, 0x0000000000000000) == 0x0000000100010001 && sq_hi(0x0100000000010101, 0x0000000000000000) == 0x0001000000000000
        &&& sq_lo(0x0000000100010001, 0x0001000000000000) == 0x0000000100000001 && sq_hi(0x0000000100010001, 0x0001000000000000) == 0x0000008700000001
        &&& sq_lo(0x0000000100000001, 0x0000008700000001) == 0x0000000000000086 && sq_hi(0x0000000100000001, 0x0000008700000001) == 0x000000000021caea
        &&& sq_lo(0x0000000000000086, 0x000000000021caea) == 0x00021cae93f7cfc8 && sq_hi(0x0000000000000086, 0x000000000021caea) == 0x0000000000000000
        &&& sq_lo(0x00021cae93f7cfc8, 0x0000000000000000) == 0x4105551550555040 && sq_hi(0x00021cae93f7cfc8, 0x0000000000000000) == 0x0000000401504454
        &&& sq_lo(0x4105551550555040, 0x0000000401504454) == 0x118fe6196978ef70 && sq_hi(0x4105551550555040, 0x0000000401504454) == 0x1001001111110961
        &&& sq_lo(0x118fe6196978ef70, 0x1001001111110961) == 0x93c692c775187987 && sq_hi(0x118fe6196978ef70, 0x1001001111110961) == 0x860140d2541486c6
        &&& sq_lo(0x93c692c775187987, 0x860140d2541486c6) == 0xea618e11df04ea1e && sq_hi(0x93c692c775187987, 0x860140d2541486c6) == 0x8b69509b312d6501
        &&& sq_lo(0xea618e11df04ea1e, 0x8b69509b312d6501) == 0xcad0352d30b311b4 && sq_hi(0xea618e11df04ea1e, 0x8b69509b312d6501) == 0xb715594eb7756558
        &&& sq_lo(0xcad0352d30b311b4, 0xb715594eb7756558) == 0x54e1a6f865fe82b9 && sq_hi(0xcad0352d30b311b4, 0xb715594eb7756558) == 0x01afdeffd35e5fde
        &&& sq_lo(0x54e1a6f865fe82b9, 0x01afdeffd35e5fde) == 0x218289f09c0659ed && sq_hi(0x54e1a6f865fe82b9, 0x01afdeffd35e5fde) == 0x11b4a30358935542
        &&& sq_lo(0x218289f09c0659ed, 0x11b4a30358935542) == 0x97b14587eebe264d && sq_hi(0x218289f09c0659ed, 0x11b4a30358935542) == 0x83a513579eda5793
        &&& sq_lo(0x97b14587eebe264d, 0x83a513579eda5793) == 0x38d15180f9de45ad && sq_hi(0x97b14587eebe264d, 0x83a513579eda5793) == 0x83ad91f69582bddf
        &&& sq_lo(0x38d15180f9de45ad, 0x83ad91f69582bddf) == 0x1a97936b620f481d && sq_hi(0x38d15180f9de45ad, 0x83ad91f69582bddf) == 0xc7f8a41756ad614d
        &&& sq_lo(0x1a97936b620f481d, 0xc7f8a41756ad614d) == 0xe94bf5687ccf4c39 && sq_hi(0x1a97936b620f481d, 0xc7f8a41756ad614d) == 0xbb844bf6957599a6
        &&& sq_lo(0xe94bf5687ccf4c39, 0xbb844bf6957599a6) == 0x5aadb3837634c244 && sq_hi(0xe94bf5687ccf4c39, 0xbb844bf6957599a6) == 0x2c3bd83d0661350d
        &&& sq_lo(0x5aadb3837634c244, 0x2c3bd83d0661350d) == 0x1f726995c3f33829 && sq_hi(0x5aadb3837634c244, 0x2c3bd83d0661350d) == 0x24f6fc2353c7f232
        &&& sq_lo(0x1f726995c3f33829, 0x24f6fc2353c7f232) == 0xa5b7efc52c5e9c53 && sq_hi(0x1f726995c3f33829, 0x24f6fc2353c7f232) == 0x150e344316f35f82
        &&& sq_lo(0xa5b7efc52c5e9c53, 0x150e344316f35f82) == 0x891738c79d5ad319 && sq_hi(0xa5b7efc52c5e9c53, 0x150e344316f35f82) == 0xcbe66ebbc72d228a
        &&& sq_lo(0x891738c79d5ad319, 0xcbe66ebbc72d228a) == 0xfbb824714f38f6c2 && sq_hi(0x891738c79d5ad319, 0xcbe66ebbc72d228a) == 0xd331a77342cf2867
        &&& sq_lo(0xfbb824714f38f6c2, 0xd331a77342cf2867) == 0x62609e6968de22b0 && sq_hi(0xfbb824714f38f6c2, 0xd331a77342cf2867) == 0x60dcdee4d2f1fc92
        &&& sq_lo(0x62609e6968de22b0, 0x60dcdee4d2f1fc92) == 0x21777af80695052a && sq_hi(0x62609e6968de22b0, 0x60dcdee4d2f1fc92) == 0x782d0a995dd3b018
    }) by (bit_vector);
    lemma_conjugate_step(0, 0x0000000000000002, 0x0000000000000000);
    lemma_conjugate_step(1, 0x0000000000000004, 0x0000000000000000);
    lemma_conjugate_step(2, 0x0000000000000010, 0x0000000000000000);
    lemma_conjugate_step(3, 0x0000000000000100, 0x0000000000000000);
    lemma_conjugate_step(4, 0x0000000000010000, 0x0000000000000000);
    lemma_conjugate_step(5, 0x0000000100000000, 0x0000000000000000);
    lemma_conjugate_step(6, 0x0000000000000000, 0x0000000000000001);
    lemma_conjugate_step(7, 0x0000000000000087, 0x0000000000000000);
    lemma_conjugate_step(8, 0x0000000000004015, 0x0000000000000000);
    lemma_conjugate_step(9, 0x0000000010000111, 0x0000000000000000);
    lemma_conjugate_step(10, 0x0100000000010101, 0x0000000000000000);
    lemma_conjugate_step(11, 0x0000000100010001, 0x0001000000000000);
    lemma_conjugate_step(12, 0x0000000100000001, 0x0000008700000001);
    lemma_conjugate_step(13, 0x0000000000000086, 0x000000000021caea);
    lemma_conjugate_step(14, 0x00021cae93f7cfc8, 0x0000000000000000);
    lemma_conjugate_step(15, 0x4105551550555040, 0x0000000401504454);
    lemma_conjugate_step(16, 0x118fe6196978ef70, 0x1001001111110961);
    lemma_conjugate_step(17, 0x93c692c775187987, 0x860140d2541486c6);
    lemma_conjugate_step(18, 0xea618e11df04ea1e, 0x8b69509b312d6501);
    lemma_conjugate_step(19, 0xcad0352d30b311b4, 0xb715594eb7756558);
    lemma_conjugate_step(20, 0x54e1a6f865fe82b9, 0x01afdeffd35e5fde);
    lemma_conjugate_step(21, 0x218289f09c0659ed, 0x11b4a30358935542);
    lemma_conjugate_step(22, 0x97b14587eebe264d, 0x83a513579eda5793);
    lemma_conjugate_step(23, 0x38d15180f9de45ad, 0x83ad91f69582bddf);
    lemma_conjugate_step(24, 0x1a97936b620f481d, 0xc7f8a41756ad614d);
    lemma_conjugate_step(25, 0xe94bf5687ccf4c39, 0xbb844bf6957599a6);
    lemma_conjugate_step(26, 0x5aadb3837634c244, 0x2c3bd83d0661350d);
    lemma_conjugate_step(27, 0x1f726995c3f33829, 0x24f6fc2353c7f232);
    lemma_conjugate_step(28, 0xa5b7efc52c5e9c53, 0x150e344316f35f82);
    lemma_conjugate_step(29, 0x891738c79d5ad319, 0xcbe66ebbc72d228a);
    lemma_conjugate_step(30, 0xfbb824714f38f6c2, 0xd331a77342cf2867);
    lemma_conjugate_step(31, 0x62609e6968de22b0, 0x60dcdee4d2f1fc92);
}

proof fn lemma_conjugates_1()
    requires
        fsquare_by(fx(), 32) == (F128 { lo: 0x21777af80695052a, hi: 0x782d0a995dd3b018 }),
    ensures
        fsquare_by(fx(), 64) == (F128 { lo: 0x44e598a795a299f6, hi: 0x61651fea6b5832b9 }),
{
    assert({
        &&& sq_lo(0x21777af80695052a, 0x782d0a995dd3b018) == 0xde0a74a95b11a7b2 && sq_hi(0x21777af80695052a, 0x782d0a995dd3b018) == 0xcec3202236b9330f
        &&& sq_lo(0xde0a74a95b11a7b2, 0xcec3202236b9330f) == 0x800a7b44dd8e7a70 && sq_hi(0xde0a74a95b11a7b2, 0xcec3202236b9330f) == 0xcad1b2dd09125a5f
        &&& sq_lo(0x800a7b44dd8e7a70, 0xcad1b2dd09125a5f) == 0x7016c540c190dd74 && sq_hi(0x800a7b44dd8e7a70, 0xcad1b2dd09125a5f) == 0xd3f537e04c700e27
        &&& sq_lo(0x7016c540c190dd74, 0xd3f537e04c700e27) == 0x09bbaa007aff17a4 && sq_hi(0x7016c540c190dd74, 0xd3f537e04c700e27) == 0x20b022e1c1d1bc08
        &&& sq_lo(0x09bbaa007aff17a4, 0x20b022e1c1d1bc08) == 0xa5ea62f173a564de && sq_hi(0x09bbaa007aff17a4, 0x20b022e1c1d1bc08) == 0x1c621e475a73acae
        &&& sq_lo(0xa5ea62f173a564de, 0x1c621e475a73acae) == 0xc1d3ada9e183a6f8 && sq_hi(0xa5ea62f173a564de, 0x1c621e475a73acae) == 0xeaab3a58b8a02fe2
        &&& sq_lo(0xc1d3ada9e183a6f8, 0xeaab3a58b8a02fe2) == 0x2ee29c077314ee0d && sq_hi(0xc1d3ada9e183a6f8, 0xeaab3a58b8a02fe2) == 0xdffeae5cfc8592a2
        &&& sq_lo(0x2ee29c077314ee0d, 0xdffeae5cfc8592a2) == 0x1794c9c6116bca12 && sq_hi(0x2ee29c077314ee0d, 0xdffeae5cfc8592a2) == 0x1854548bb6f4de8e
        &&& sq_lo(0x1794c9c6116bca12, 0x1854548bb6f4de8e) == 0x5046371c4cc9eaa8 && sq_hi(0x1794c9c6116bca12, 0x1854548bb6f4de8e) == 0xa7ddbe68af10b36c
        &&& sq_lo(0x5046371c4cc9eaa8, 0xa7ddbe68af10b36c) == 0xe77bd7620dd51099 && sq_hi(0x5046371c4cc9eaa8, 0xa7ddbe68af10b36c) == 0xc7c20e0075b34cb3
        &&& sq_lo(0xe77bd7620dd51099, 0xc7c20e0075b34cb3) == 0xe385088258930c85 && sq_hi(0xe77bd7620dd51099, 0xc7c20e0075b34cb3) == 0xeed7a7597ab9140e
        &&& sq_lo(0xe385088258930c85, 0xeed7a7597ab9140e) == 0xd9bf3b428f207eec && sq_hi(0xe385088258930c85, 0xeed7a7597ab9140e) == 0xd3807dd9d6a39649
        &&& sq_lo(0xd9bf3b428f207eec, 0xd3807dd9d6a39649) == 0x7d1adaba58301148 && sq_hi(0xd9bf3b428f207eec, 0xd3807dd9d6a39649) == 0x64fb855fc75b066a
        &&& sq_lo(0x7d1adaba58301148, 0x64fb855fc75b066a) == 0xaba3d15b0b675aaa && sq_hi(0x7d1adaba58301148, 0x64fb855fc75b066a) == 0x710a093e99bb9946
        &&& sq_lo(0xaba3d15b0b675aaa, 0x710a093e99bb9946) == 0x66216c6f770b3b1e && sq_hi(0xaba3d15b0b675aaa, 0x710a093e99bb9946) == 0xafc267d97044a1c8
        &&& sq_lo(0x66216c6f770b3b1e, 0xafc267d97044a1c8) == 0xfe1d7816d9eb81fd && sq_hi(0x66216c6f770b3b1e, 0xafc267d97044a1c8) == 0xe316b61772920218
        &&& sq_lo(0xfe1d7816d9eb81fd, 0xe316b61772920218) == 0xb87c1159421de6c0 && sq_hi(0xfe1d7816d9eb81fd, 0xe316b61772920218) == 0xfbcf8c1e442c8cf5
        &&& sq_lo(0xb87c1159421de6c0, 0xfbcf8c1e442c8cf5) == 0x687634c0bd8f66a6 && sq_hi(0xb87c1159421de6c0, 0xfbcf8c1e442c8cf5) == 0x4d328e5ae8b1bde5
        &&& sq_lo(0x687634c0bd8f66a6, 0x4d328e5ae8b1bde5) == 0xc8b21bf16608e4db && sq_hi(0x687634c0bd8f66a6, 0x4d328e5ae8b1bde5) == 0x4d758c29eeb484f7
        &&& sq_lo(0xc8b21bf16608e4db, 0x4d758c29eeb484f7) == 0x939b53119c4b7496 && sq_hi(0xc8b21bf16608e4db, 0x4d758c29eeb484f7) == 0x097da6d2e8f7686d
        &&& sq_lo(0x939b53119c4b7496, 0x097da6d2e8f7686d) == 0xccbb31a458da0423 && sq_hi(0x939b53119c4b7496, 0x097da6d2e8f7686d) == 0x60488351c7403436
        &&& sq_lo(0xccbb31a458da0423, 0x60488351c7403436) == 0xaba321469362905f && sq_hi(0xccbb31a458da0423, 0x60488351c7403436) == 0x3c5814a4c792b3be
        &&& sq_lo(0xaba321469362905f, 0x3c5814a4c792b3be) == 0xfbcf513b18b860f7 && sq_hi(0xaba321469362905f, 0x3c5814a4c792b3be) == 0xf6fd92c58b52c44d
        &&& sq_lo(0xfbcf513b18b860f7, 0xf6fd92c58b52c44d) == 0xe213b075ac781973 && sq_hi(0xfbcf513b18b860f7, 0xf6fd92c58b52c44d) == 0x740252435434bd93
        &&& sq_lo(0xe213b075ac781973, 0x740252435434bd93) == 0xbb228613735755a8 && sq_hi(0xe213b075ac781973, 0x740252435434bd93) == 0xb7740311b0146782
        &&& sq_lo(0xbb228613735755a8, 0xb7740311b0146782) == 0x4e059e6f77db9735 && sq_hi(0xbb228613735755a8, 0xb7740311b0146782) == 0x14a4e774428f86a1
        &&& sq_lo(0x4e059e6f77db9735, 0x14a4e774428f86a1) == 0x6728ba4f8b5ad996 && sq_hi(0x4e059e6f77db9735, 0x14a4e774428f86a1) == 0x9f07d44ae7b5f72d
        &&& sq_lo(0x6728ba4f8b5ad996, 0x9f07d44ae7b5f72d) == 0xe68d429870a86444 && sq_hi(0x6728ba4f8b5ad996, 0x9f07d44ae7b5f72d) == 0x783e0e827a3c43a2
        &&& sq_lo(0xe68d429870a86444, 0x783e0e827a3c43a2) == 0xdddef6f866a8cb3a && sq_hi(0xe68d429870a86444, 0x783e0e827a3c43a2) == 0x9ed6f0fd3b898356
        &&& sq_lo(0xdddef6f866a8cb3a, 0x9ed6f0fd3b898356) == 0xac6ea52692d6e84f && sq_hi(0xdddef6f866a8cb3a, 0x9ed6f0fd3b898356) == 0x3dd46c137e3f5775
        &&& sq_lo(0xac6ea52692d6e84f, 0x3dd46c137e3f5775) == 0x81aae137a9a1f2ac && sq_hi(0xac6ea52692d6e84f, 0x3dd46c137e3f5775) == 0xf64e2b2e01a18185
        &&& sq_lo(0x81aae137a9a1f2ac, 0xf64e2b2e01a18185) == 0x44e598a795a299f6 && sq_hi(0x81aae137a9a1f2ac, 0xf64e2b2e01a18185) == 0x61651fea6b5832b9
    }) by (bit_vector);
    lemma_conjugate_step(32, 0x21777af80695052a, 0x782d0a995dd3b018);
    lemma_conjugate_step(33, 0xde0a74a95b11a7b2, 0xcec3202236b9330f);
    lemma_conjugate_step(34, 0x800a7b44dd8e7a70, 0xcad1b2dd09125a5f);
    lemma_conjugate_step(35, 0x7016c540c190dd74, 0xd3f537e04c700e27);
    lemma_conjugate_step(36, 0x09bbaa007aff17a4, 0x20b022e1c1d1bc08);
    lemma_conjugate_step(37, 0xa5ea62f173a564de, 0x1c621e475a73acae);
    lemma_conjugate_step(38, 0xc1d3ada9e183a6f8, 0xeaab3a58b8a02fe2);
    lemma_conjugate_step(39, 0x2ee29c077314ee0d, 0xdffeae5cfc8592a2);
    lemma_conjugate_step(40, 0x1794c9c6116bca12, 0x1854548bb6f4de8e);
    lemma_conjugate_step(41, 0x5046371c4cc9eaa8, 0xa7ddbe68af10b36c);
    lemma_conjugate_step(42, 0xe77bd7620dd51099, 0xc7c20e0075b34cb3);
    lemma_conjugate_step(43, 0xe385088258930c85, 0xeed7a7597ab9140e);
    lemma_conjugate_step(44, 0xd9bf3b428f207eec, 0xd3807dd9d6a39649);
    lemma_conjugate_step(45, 0x7d1adaba58301148, 0x64fb855fc75b066a);
    lemma_conjugate_step(46, 0xaba3d15b0b675aaa, 0x710a093e99bb9946);
    lemma_conjugate_step(47, 0x66216c6f770b3b1e, 0xafc267d97044a1c8);
    lemma_conjugate_step(48, 0xfe1d7816d9eb81fd, 0xe316b61772920218);
    lemma_conjugate_step(49, 0xb87c1159421de6c0, 0xfbcf8c1e442c8cf5);
    lemma_conjugate_step(50, 0x687634c0bd8f66a6, 0x4d328e5ae8b1bde5);
    lemma_conjugate_step(51, 0xc8b21bf16608e4db, 0x4d758c29eeb484f7);
    lemma_conjugate_step(52, 0x939b53119c4b7496, 0x097da6d2e8f7686d);
    lemma_conjugate_step(53, 0xccbb31a458da0423, 0x60488351c7403436);
    lemma_conjugate_step(54, 0xaba321469362905f, 0x3c5814a4c792b3be);
    lemma_conjugate_step(55, 0xfbcf513b18b860f7, 0xf6fd92c58b52c44d);
    lemma_conjugate_step(56, 0xe213b075ac781973, 0x740252435434bd93);
    lemma_conjugate_step(57, 0xbb228613735755a8, 0xb7740311b0146782);
    lemma_conjugate_step(58, 0x4e059e6f77db9735, 0x14a4e774428f86a1);
    lemma_conjugate_step(59, 0x6728ba4f8b5ad996, 0x9f07d44ae7b5f72d);
    lemma_conjugate_step(60, 0xe68d429870a86444, 0x783e0e827a3c43a2);
    lemma_conjugate_step(61, 0xdddef6f866a8cb3a, 0x9ed6f0fd3b898356);
    lemma_conjugate_step(62, 0xac6ea52692d6e84f, 0x3dd46c137e3f5775);
    lemma_conjugate_step(63, 0x81aae137a9a1f2ac, 0xf64e2b2e01a18185);
}

proof fn lemma_conjugates_2()
    requires
        fsquare_by(fx(), 64) == (F128 { lo: 0x44e598a795a299f6, hi: 0x61651fea6b5832b9 }),
    ensures
        fsquare_by(fx(), 96) == (F128 { lo: 0xdca8758ed620dd7b, hi: 0x40e2dfc1450698ca }),
{
    assert({
        &&& sq_lo(0x44e598a795a299f6, 0x61651fea6b5832b9) == 0x0e4292c6d87e2a65 && sq_hi(0x44e598a795a299f6, 0x61651fea6b5832b9) == 0x7c9d30e6ed40cbc3
        &&& sq_lo(0x0e4292c6d87e2a65, 0x7c9d30e6ed40cbc3) == 0xd47f657d9736a3bc && sq_hi(0x0e4292c6d87e2a65, 0x7c9d30e6ed40cbc3) == 0xc2c57e31da2ff653
        &&& sq_lo(0xd47f657d9736a3bc, 0xc2c57e31da2ff653) == 0x55cb32146561a494 && sq_hi(0xd47f657d9736a3bc, 0xc2c57e31da2ff653) == 0xe325ada8d4bf8eff
        &&& sq_lo(0x55cb32146561a494, 0xe325ada8d4bf8eff) == 0x2b42640baf97546a && sq_hi(0x55cb32146561a494, 0xe325ada8d4bf8eff) == 0xbf884491f010fcf9
        &&& sq_lo(0x2b42640baf97546a, 0xbf884491f010fcf9) == 0x6f55c63e138b0f6a && sq_hi(0x2b42640baf97546a, 0xbf884491f010fcf9) == 0x744ff1cc6c4147e9
        &&& sq_lo(0x6f55c63e138b0f6a, 0x744ff1cc6c4147e9) == 0x44bd30ca7a959c35 && sq_hi(0x6f55c63e138b0f6a, 0x744ff1cc6c4147e9) == 0xf72d4a117bba9cee
        &&& sq_lo(0x44bd30ca7a959c35, 0xf72d4a117bba9cee) == 0xdd3c39ec2fcb97ec && sq_hi(0x44bd30ca7a959c35, 0xf72d4a117bba9cee) == 0x31f9706e56dcd7c9
        &&& sq_lo(0xdd3c39ec2fcb97ec, 0x31f9706e56dcd7c9) == 0xf9104edc7cd7c419 && sq_hi(0xdd3c39ec2fcb97ec, 0x31f9706e56dcd7c9) == 0xcafd0f1dee4b13f4
        &&& sq_lo(0xf9104edc7cd7c419, 0xcafd0f1dee4b13f4) == 0x92f4024ed5a0366e && sq_hi(0xf9104edc7cd7c419, 0xcafd0f1dee4b13f4) == 0xc6b603373b7fff4c
        &&& sq_lo(0x92f4024ed5a0366e, 0xc6b603373b7fff4c) == 0xe9408400053759bb && sq_hi(0x92f4024ed5a0366e, 0xc6b603373b7fff4c) == 0xfb4b047c029d81bd
        &&& sq_lo(0xe9408400053759bb, 0xfb4b047c029d81bd) == 0x022c6b03d1e52223 && sq_hi(0xe9408400053759bb, 0xfb4b047c029d81bd) == 0x5c12435b486ac2b0
        &&& sq_lo(0x022c6b03d1e52223, 0x5c12435b486ac2b0) == 0x00cb1be4b63b5b3d && sq_hi(0x022c6b03d1e52223, 0x5c12435b486ac2b0) == 0xdeb4814466d6d456
        &&& sq_lo(0x00cb1be4b63b5b3d, 0xdeb4814466d6d456) == 0x235138002e3dec62 && sq_hi(0x00cb1be4b63b5b3d, 0xdeb4814466d6d456) == 0x1c8f0314c1ca2c6a
        &&& sq_lo(0x235138002e3dec62, 0x1c8f0314c1ca2c6a) == 0xb4fa968f61ea5bd8 && sq_hi(0x235138002e3dec62, 0x1c8f0314c1ca2c6a) == 0xaa94fa2a07db8f59
        &&& sq_lo(0xb4fa968f61ea5bd8, 0xaa94fa2a07db8f59) == 0x1ec3403efa66966e && sq_hi(0xb4fa968f61ea5bd8, 0xaa94fa2a07db8f59) == 0xbaed1a1f49ca7f89
        &&& sq_lo(0x1ec3403efa66966e, 0xbaed1a1f49ca7f89) == 0x042a87c2811ee47a && sq_hi(0x1ec3403efa66966e, 0xbaed1a1f49ca7f89) == 0x79a3d532b4dca977
        &&& sq_lo(0x042a87c2811ee47a, 0x79a3d532b4dca977) == 0x13581fc7a95df199 && sq_hi(0x042a87c2811ee47a, 0x79a3d532b4dca977) == 0xca74daf67fe0c93b
        &&& sq_lo(0x13581fc7a95df199, 0xca74daf67fe0c93b) == 0x8441bd78c444ed45 && sq_hi(0x13581fc7a95df199, 0xca74daf67fe0c93b) == 0x92d3f21915a27173
        &&& sq_lo(0x8441bd78c444ed45, 0x92d3f21915a27173) == 0xdfc4ce06bfdce9ed && sq_hi(0x8441bd78c444ed45, 0x92d3f21915a27173) == 0x052525b16c4db307
        &&& sq_lo(0xdfc4ce06bfdce9ed, 0x052525b16c4db307) == 0x00ed08440dda5eba && sq_hi(0xdfc4ce06bfdce9ed, 0x052525b16c4db307) == 0x59a044e544805b99
        &&& sq_lo(0x00ed08440dda5eba, 0x59a044e544805b99) == 0x7800914cc52e273b && sq_hi(0x00ed08440dda5eba, 0x59a044e544805b99) == 0xd6648859781bb4ef
        &&& sq_lo(0x7800914cc52e273b, 0xd6648859781bb4ef) == 0x9ad1a02c574e9631 && sq_hi(0x7800914cc52e273b, 0xd6648859781bb4ef) == 0x28266451a0c9c61d
        &&& sq_lo(0x9ad1a02c574e9631, 0x28266451a0c9c61d) == 0xcd3c813afb78aa38 && sq_hi(0x9ad1a02c574e9631, 0x28266451a0c9c61d) == 0x7c8647672078f3f4
        &&& sq_lo(0xcd3c813afb78aa38, 0x7c8647672078f3f4) == 0x494fdfab6df42306 && sq_hi(0xcd3c813afb78aa38, 0x7c8647672078f3f4) == 0x92c0cf343ae063ad
        &&& sq_lo(0x494fdfab6df42306, 0x92c0cf343ae063ad) == 0xaca6f91a6abde544 && sq_hi(0x494fdfab6df42306, 0x92c0cf343ae063ad) == 0x5574a07cca7cd737
        &&& sq_lo(0xaca6f91a6abde544, 0x5574a07cca7cd737) == 0x879287c869f885c3 && sq_hi(0xaca6f91a6abde544, 0x5574a07cca7cd737) == 0xbbada747894bc3dd
        &&& sq_lo(0x879287c869f885c3, 0xbbada747894bc3dd) == 0xf50e0632f2a35f5b && sq_hi(0x879287c869f885c3, 0xbbada747894bc3dd) == 0x386db41096f62a8a
        &&& sq_lo(0xf50e0632f2a35f5b, 0x386db41096f62a8a) == 0x1843656b2ea8f397 && sq_hi(0xf50e0632f2a35f5b, 0x386db41096f62a8a) == 0xefdb454053648225
        &&& sq_lo(0x1843656b2ea8f397, 0xefdb454053648225) == 0xf1c52011971b40b3 && sq_hi(0x1843656b2ea8f397, 0xefdb454053648225) == 0x864204566cee644d
        &&& sq_lo(0xf1c52011971b40b3, 0x864204566cee644d) == 0x048e86e374780c55 && sq_hi(0xf1c52011971b40b3, 0x864204566cee644d) == 0x9f65220d0c78fc67
        &&& sq_lo(0x048e86e374780c55, 0x9f65220d0c78fc67) == 0x3caadfab02ea679d && sq_hi(0x048e86e374780c55, 0x9f65220d0c78fc67) == 0x6c3124a15e087d32
        &&& sq_lo(0x3caadfab02ea679d, 0x6c3124a15e087d32) == 0xdca8758ed620dd7b && sq_hi(0x3caadfab02ea679d, 0x6c3124a15e087d32) == 0x40e2dfc1450698ca
    }) by (bit_vector);
    lemma_conjugate_step(64, 0x44e598a795a299f6, 0x61651fea6b5832b9);
    lemma_conjugate_step(65, 0x0e4292c6d87e2a65, 0x7c9d30e6ed40cbc3);
    lemma_conjugate_step(66, 0xd47f657d9736a3bc, 0xc2c57e31da2ff653);
    lemma_conjugate_step(67, 0x55cb32146561a494, 0xe325ada8d4bf8eff);
    lemma_conjugate_step(68, 0x2b42640baf97546a, 0xbf884491f010fcf9);
    lemma_conjugate_step(69, 0x6f55c63e138b0f6a, 0x744ff1cc6c4147e9);
    lemma_conjugate_step(70, 0x44bd30ca7a959c35, 0xf72d4a117bba9cee);
    lemma_conjugate_step(71, 0xdd3c39ec2fcb97ec, 0x31f9706e56dcd7c9);
    lemma_conjugate_step(72, 0xf9104edc7cd7c419, 0xcafd0f1dee4b13f4);
    lemma_conjugate_step(73, 0x92f4024ed5a0366e, 0xc6b603373b7fff4c);
    lemma_conjugate_step(74, 0xe9408400053759bb, 0xfb4b047c029d81bd);
    lemma_conjugate_step(75, 0x022c6b03d1e52223, 0x5c12435b486ac2b0);
    lemma_conjugate_step(76, 0x00cb1be4b63b5b3d, 0xdeb4814466d6d456);
    lemma_conjugate_step(77, 0x235138002e3dec62, 0x1c8f0314c1ca2c6a);
    lemma_conjugate_step(78, 0xb4fa968f61ea5bd8, 0xaa94fa2a07db8f59);
    lemma_conjugate_step(79, 0x1ec3403efa66966e, 0xbaed1a1f49ca7f89);
    lemma_conjugate_step(80, 0x042a87c2811ee47a, 0x79a3d532b4dca977);
    lemma_conjugate_step(81, 0x13581fc7a95df199, 0xca74daf67fe0c93b);
    lemma_conjugate_step(82, 0x8441bd78c444ed45, 0x92d3f21915a27173);
    lemma_conjugate_step(83, 0xdfc4ce06bfdce9ed, 0x052525b16c4db307);
    lemma_conjugate_step(84, 0x00ed08440dda5eba, 0x59a044e544805b99);
    lemma_conjugate_step(85, 0x7800914cc52e273b, 0xd6648859781bb4ef);
    lemma_conjugate_step(86, 0x9ad1a02c574e9631, 0x28266451a0c9c61d);
    lemma_conjugate_step(87, 0xcd3c813afb78aa38, 0x7c8647672078f3f4);
    lemma_conjugate_step(88, 0x494fdfab6df42306, 0x92c0cf343ae063ad);
    lemma_conjugate_step(89, 0xaca6f91a6abde544, 0x5574a07cca7cd737);
    lemma_conjugate_step(90, 0x879287c869f885c3, 0xbbada747894bc3dd);
    lemma_conjugate_step(91, 0xf50e0632f2a35f5b, 0x386db41096f62a8a);
    lemma_conjugate_step(92, 0x1843656b2ea8f397, 0xefdb454053648225);
    lemma_conjugate_step(93, 0xf1c52011971b40b3, 0x864204566cee644d);
    lemma_conjugate_step(94, 0x048e86e374780c55, 0x9f65220d0c78fc67);
    lemma_conjugate_step(95, 0x3caadfab02ea679d, 0x6c3124a15e087d32);
}

proof fn lemma_conjugates_3()
    requires
        fsquare_by(fx(), 96) == (F128 { lo: 0xdca8758ed620dd7b, hi: 0x40e2dfc1450698ca }),
    ensures
        fsquare_by(fx(), 128) == (F128 { lo: 0x0000000000000002, hi: 0x0000000000000000 }),
{
    assert({
        &&& sq_lo(0xdca8758ed620dd7b, 0x40e2dfc1450698ca) == 0x29e30e4d37b882a1 && sq_hi(0xdca8758ed620dd7b, 0x40e2dfc1450698ca) == 0x217bea750913f0db
        &&& sq_lo(0x29e30e4d37b882a1, 0x217bea750913f0db) == 0x2452c0f06b2d5154 && sq_hi(0x29e30e4d37b882a1, 0x217bea750913f0db) == 0x18cc9c758f82f3a6
        &&& sq_lo(0x2452c0f06b2d5154, 0x18cc9c758f82f3a6) == 0xff4fc66638b9c77c && sq_hi(0x2452c0f06b2d5154, 0x18cc9c758f82f3a6) == 0xa2f988953ebab6d6
        &&& sq_lo(0xff4fc66638b9c77c, 0xa2f988953ebab6d6) == 0xb5cf3dbe01503955 && sq_hi(0xff4fc66638b9c77c, 0xa2f988953ebab6d6) == 0x8b621a33b1f55be1
        &&& sq_lo(0xb5cf3dbe01503955, 0x8b621a33b1f55be1) == 0x5bad32ffd131adf1 && sq_hi(0xb5cf3dbe01503955, 0x8b621a33b1f55be1) == 0xa6403e49a18fdcec
        &&& sq_lo(0x5bad32ffd131adf1, 0xa6403e49a18fdcec) == 0x8da7ee035acac1d8 && sq_hi(0x5bad32ffd131adf1, 0xa6403e49a18fdcec) == 0xc7213453b5a00431
        &&& sq_lo(0x8da7ee035acac1d8, 0xc7213453b5a00431) == 0x42908c445873de98 && sq_hi(0x8da7ee035acac1d8, 0xc7213453b5a00431) == 0xfab85890c72cf5bd
        &&& sq_lo(0x42908c445873de98, 0xfab85890c72cf5bd) == 0xaba9209e72802626 && sq_hi(0x42908c445873de98, 0xfab85890c72cf5bd) == 0x18fb3bc896b15739
        &&& sq_lo(0xaba9209e72802626, 0x18fb3bc896b15739) == 0x584b1b8ff9fdbe53 && sq_hi(0xaba9209e72802626, 0x18fb3bc896b15739) == 0xe2ae4c18bc72d0b5
        &&& sq_lo(0x584b1b8ff9fdbe53, 0xe2ae4c18bc72d0b5) == 0x27fbbc64727757a3 && sq_hi(0x584b1b8ff9fdbe53, 0xe2ae4c18bc72d0b5) == 0xbf7fe7e158f5e6b6
        &&& sq_lo(0x27fbbc64727757a3, 0xbf7fe7e158f5e6b6) == 0xc3ef36c9b75a0400 && sq_hi(0x27fbbc64727757a3, 0xbf7fe7e158f5e6b6) == 0x74349545e390b89f
        &&& sq_lo(0xc3ef36c9b75a0400, 0x74349545e390b89f) == 0xebaf56677af1691d && sq_hi(0xc3ef36c9b75a0400, 0x74349545e390b89f) == 0xb377c7044aeb289d
        &&& sq_lo(0xebaf56677af1691d, 0xb377c7044aeb289d) == 0x46b3da5829a07e0f && sq_hi(0xebaf56677af1691d, 0xb377c7044aeb289d) == 0x0dd4a597abff1c6d
        &&& sq_lo(0x46b3da5829a07e0f, 0x0dd4a597abff1c6d) == 0xfb31442bbbee4562 && sq_hi(0x46b3da5829a07e0f, 0x0dd4a597abff1c6d) == 0x390a7a5685925c88
        &&& sq_lo(0xfb31442bbbee4562, 0x390a7a5685925c88) == 0x8d931140ce80f4ca && sq_hi(0xfb31442bbbee4562, 0x390a7a5685925c88) == 0xef0226d7d8c4f908
        &&& sq_lo(0x8d931140ce80f4ca, 0xef0226d7d8c4f908) == 0x46bdf85b5f5764d5 && sq_hi(0x8d931140ce80f4ca, 0xef0226d7d8c4f908) == 0xc77a431b17442dc2
        &&& sq_lo(0x46bdf85b5f5764d5, 0xc77a431b17442dc2) == 0x9cb66967210ef752 && sq_hi(0x46bdf85b5f5764d5, 0xc77a431b17442dc2) == 0xaaf58d8527dbb51e
        &&& sq_lo(0x9cb66967210ef752, 0xaaf58d8527dbb51e) == 0x12c3142c06e2acc1 && sq_hi(0x9cb66967210ef752, 0xaaf58d8527dbb51e) == 0xbea766c2fd57dce0
        &&& sq_lo(0x12c3142c06e2acc1, 0xbea766c2fd57dce0) == 0x022ba9c65acbed68 && sq_hi(0x12c3142c06e2acc1, 0xbea766c2fd57dce0) == 0x718b86e46755b667
        &&& sq_lo(0x022ba9c65acbed68, 0x718b86e46755b667) == 0x77a7af910537779d && sq_hi(0x022ba9c65acbed68, 0x718b86e46755b667) == 0xeba2e73f8e06f46e
        &&& sq_lo(0x77a7af910537779d, 0xeba2e73f8e06f46e) == 0xebbd0f52366f13ac && sq_hi(0x77a7af910537779d, 0xeba2e73f8e06f46e) == 0x9a6d9a22e2bcf10b
        &&& sq_lo(0xebbd0f52366f13ac, 0x9a6d9a22e2bcf10b) == 0xab2b66ce2a82776c && sq_hi(0xebbd0f52366f13ac, 0x9a6d9a22e2bcf10b) == 0x30930047648b0f33
        &&& sq_lo(0xab2b66ce2a82776c, 0x30930047648b0f33) == 0x6015a35f3e3c8cc5 && sq_hi(0xab2b66ce2a82776c, 0x30930047648b0f33) == 0xdf6441de141c2ab5
        &&& sq_lo(0x6015a35f3e3c8cc5, 0xdf6441de141c2ab5) == 0x8a24abe27faf17b9 && sq_hi(0x6015a35f3e3c8cc5, 0xdf6441de141c2ab5) == 0x0821656934ab0df9
        &&& sq_lo(0x8a24abe27faf17b9, 0x0821656934ab0df9) == 0x8606bb0e28094f06 && sq_hi(0x8a24abe27faf17b9, 0x0821656934ab0df9) == 0x6186189d20b81941
        &&& sq_lo(0x8606bb0e28094f06, 0x6186189d20b81941) == 0x18637a81b61a75a5 && sq_hi(0x8606bb0e28094f06, 0x6186189d20b81941) == 0x2cb2ca78e3a46e61
        &&& sq_lo(0x18637a81b61a75a5, 0x2cb2ca78e3a46e61) == 0xebacd53e52b72998 && sq_hi(0x18637a81b61a75a5, 0x2cb2ca78e3a46e61) == 0x34d34d3086928aea
        &&& sq_lo(0xebacd53e52b72998, 0x34d34d3086928aea) == 0xdb490028e7b6cf92 && sq_hi(0xebacd53e52b72998, 0x34d34d3086928aea) == 0xc71c71c308249e75
        &&& sq_lo(0xdb490028e7b6cf92, 0xc71c71c308249e75) == 0x75d751453cf3b6ac && sq_hi(0xdb490028e7b6cf92, 0xc71c71c308249e75) == 0xebaebefbebaeb6db
        &&& sq_lo(0x75d751453cf3b6ac, 0xebaebefbebaeb6db) == 0x8a28a28a1451455a && sq_hi(0x75d751453cf3b6ac, 0xebaebefbebaeb6db) == 0x9a69a69a61861861
        &&& sq_lo(0x8a28a28a1451455a, 0x9a69a69a61861861) == 0x6db6db6db6db6da4 && sq_hi(0x8a28a28a1451455a, 0x9a69a69a61861861) == 0x2492492492492492
        &&& sq_lo(0x6db6db6db6db6da4, 0x2492492492492492) == 0x0000000000000002 && sq_hi(0x6db6db6db6db6da4, 0x2492492492492492) == 0x0000000000000000
    }) by (bit_vector);
    lemma_conjugate_step(96, 0xdca8758ed620dd7b, 0x40e2dfc1450698ca);
    lemma_conjugate_step(97, 0x29e30e4d37b882a1, 0x217bea750913f0db);
    lemma_conjugate_step(98, 0x2452c0f06b2d5154, 0x18cc9c758f82f3a6);
    lemma_conjugate_step(99, 0xff4fc66638b9c77c, 0xa2f988953ebab6d6);
    lemma_conjugate_step(100, 0xb5cf3dbe01503955, 0x8b621a33b1f55be1);
    lemma_conjugate_step(101, 0x5bad32ffd131adf1, 0xa6403e49a18fdcec);
    lemma_conjugate_step(102, 0x8da7ee035acac1d8, 0xc7213453b5a00431);
    lemma_conjugate_step(103, 0x42908c445873de98, 0xfab85890c72cf5bd);
    lemma_conjugate_step(104, 0xaba9209e72802626, 0x18fb3bc896b15739);
    lemma_conjugate_step(105, 0x584b1b8ff9fdbe53, 0xe2ae4c18bc72d0b5);
    lemma_conjugate_step(106, 0x27fbbc64727757a3, 0xbf7fe7e158f5e6b6);
    lemma_conjugate_step(107, 0xc3ef36c9b75a0400, 0x74349545e390b89f);
    lemma_conjugate_step(108, 0xebaf56677af1691d, 0xb377c7044aeb289d);
    lemma_conjugate_step(109, 0x46b3da5829a07e0f, 0x0dd4a597abff1c6d);
    lemma_conjugate_step(110, 0xfb31442bbbee4562, 0x390a7a5685925c88);
    lemma_conjugate_step(111, 0x8d931140ce80f4ca, 0xef0226d7d8c4f908);
    lemma_conjugate_step(112, 0x46bdf85b5f5764d5, 0xc77a431b17442dc2);
    lemma_conjugate_step(113, 0x9cb66967210ef752, 0xaaf58d8527dbb51e);
    lemma_conjugate_step(114, 0x12c3142c06e2acc1, 0xbea766c2fd57dce0);
    lemma_conjugate_step(115, 0x022ba9c65acbed68, 0x718b86e46755b667);
    lemma_conjugate_step(116, 0x77a7af910537779d, 0xeba2e73f8e06f46e);
    lemma_conjugate_step(117, 0xebbd0f52366f13ac, 0x9a6d9a22e2bcf10b);
    lemma_conjugate_step(118, 0xab2b66ce2a82776c, 0x30930047648b0f33);
    lemma_conjugate_step(119, 0x6015a35f3e3c8cc5, 0xdf6441de141c2ab5);
    lemma_conjugate_step(120, 0x8a24abe27faf17b9, 0x0821656934ab0df9);
    lemma_conjugate_step(121, 0x8606bb0e28094f06, 0x6186189d20b81941);
    lemma_conjugate_step(122, 0x18637a81b61a75a5, 0x2cb2ca78e3a46e61);
    lemma_conjugate_step(123, 0xebacd53e52b72998, 0x34d34d3086928aea);
    lemma_conjugate_step(124, 0xdb490028e7b6cf92, 0xc71c71c308249e75);
    lemma_conjugate_step(125, 0x75d751453cf3b6ac, 0xebaebefbebaeb6db);
    lemma_conjugate_step(126, 0x8a28a28a1451455a, 0x9a69a69a61861861);
    lemma_conjugate_step(127, 0x6db6db6db6db6da4, 0x2492492492492492);
}

/// Squaring 128 times gives `x` back.
proof fn lemma_x_returns()
    ensures
        fsquare_by(fx(), 128) == fx(),
{
    lemma_conjugates_0();
    lemma_conjugates_1();
    lemma_conjugates_2();
    lemma_conjugates_3();
}

proof fn lemma_power_returns(i: nat)
    ensures
        fsquare_by(fshift_by(fone(), i), 128) == fshift_by(fone(), i),
    decreases i,
{
    if i == 0 {
        lemma_one_stays(128);
    } else {
        let p = fshift_by(fone(), (i - 1) as nat);
        lemma_power_returns((i - 1) as nat);
        lemma_x_returns();
        assert(fshift_by(fone(), 1) == fx()) by {
            reveal_with_fuel(fshift_by, 2);
            assert(shift_lo(1, 0) == 2 && shift_hi(1, 0) == 0) by (bit_vector);
        }
        lemma_mul_shift_by(fone(), p, 1);
        lemma_mul_one(p);
        reveal_with_fuel(fshift_by, 2);
        assert(fmul(fx(), p) == fshift(p));
        lemma_square_by_mul(fx(), p, 128);
    }
}

proof fn lemma_one_stays(n: nat)
    ensures
        fsquare_by(fone(), n) == fone(),
    decreases n,
{
    if n > 0 {
        lemma_one_stays((n - 1) as nat);
        lemma_mul_one(fone());
    }
}

proof fn lemma_zero_stays(n: nat)
    ensures
        fsquare_by(fzero(), n) == fzero(),
    decreases n,
{
    if n > 0 {
        lemma_zero_stays((n - 1) as nat);
        lemma_mul_zero(fzero());
    }
}

proof fn lemma_low_returns(a: F128, n: nat)
    requires
        n <= 128,
    ensures
        fsquare_by(fmul_low(fone(), a, n), 128) == fmul_low(fone(), a, n),
    decreases n,
{
    if n == 0 {
        lemma_zero_stays(128);
    } else {
        let m = (n - 1) as nat;
        lemma_low_returns(a, m);
        lemma_power_returns(m);
        lemma_square_by_add(fmul_low(fone(), a, m), fshift_by(fone(), m), 128);
    }
}

/// Squaring 128 times gives every element back: `x^(2^128) == x`.
pub proof fn lemma_square_by_128(a: F128)
    ensures
        fsquare_by(a, 128) == a,
{
    lemma_low_returns(a, 128);
    lemma_mul_one(a);
    reveal(fmul);
}

/// Squaring moves every factor of the chain up by one.
proof fn lemma_chain_square(a: F128, n: nat)
    ensures
        fmul(fmul(a, a), fmul(fpow_chain(a, n), fpow_chain(a, n))) == fmul(
            fpow_chain(a, n),
            fsquare_by(a, n + 1),
        ),
    decreases n,
{
    let t = fmul(a, a);
    reveal_with_fuel(fsquare_by, 2);
    if n == 0 {
        lemma_mul_one(fone());
        lemma_mul_one(t);
    } else {
        let m = (n - 1) as nat;
        let (c, s) = (fpow_chain(a, m), fsquare_by(a, n));
        lemma_chain_square(a, m);
        lemma_mul_swap(c, s, c, s);
        lemma_mul_assoc(t, fmul(c, c), fmul(s, s));
        assert(fsquare_by(a, n + 1) == fmul(s, s));
    }
}

/// `a * a` times the chain is one more square.
proof fn lemma_chain_total(a: F128, n: nat)
    ensures
        fmul(fmul(a, a), fpow_chain(a, n)) == fsquare_by(a, n + 1),
    decreases n,
{
    reveal_with_fuel(fsquare_by, 2);
    if n == 0 {
        lemma_mul_one(fmul(a, a));
    } else {
        let m = (n - 1) as nat;
        lemma_chain_total(a, m);
        lemma_mul_assoc(fmul(a, a), fpow_chain(a, m), fsquare_by(a, n));
    }
}

/// Every nonzero element has an inverse.
pub proof fn lemma_inverse(a: F128)
    requires
        a != fzero(),
    ensures
        fmul(a, finv(a)) == fone(),
        fmul(finv(a), a) == fone(),
{
    let p = finv(a);
    let e = fmul(a, p);
    lemma_square_by_128(a);
    lemma_mul_swap(a, p, a, p);
    lemma_chain_square(a, 127);
    lemma_mul_comm(p, a);
    lemma_idempotent(e);
    if e == fzero() {
        lemma_chain_total(a, 127);
        lemma_mul_assoc(a, a, p);
        lemma_mul_zero(a);
    }
}

/// Zero has zero in the place of an inverse.
pub proof fn lemma_inverse_of_zero()
    ensures
        finv(fzero()) == fzero(),
{
    lemma_zero_stays(127);
    lemma_mul_zero(fpow_chain(fzero(), 126));
}

} // verus!

//! The binary field GF(2^128) in the GHASH polynomial basis.
//!
//! An element is a polynomial of degree below 128 over GF(2). Bit `i` of `lo`
//! is the coefficient of `x^i`, bit `i` of `hi` that of `x^(64 + i)`. Addition
//! is XOR; multiplication is polynomial multiplication modulo
//! `x^128 + x^7 + x^2 + x + 1`.

use vstd::prelude::*;
use vstd::std_specs::ops::{AddSpecImpl, MulSpecImpl};

verus! {

/// An element of GF(2^128).
#[derive(Clone, Copy, Debug, PartialEq, Eq, Structural, Hash)]
pub struct F128 {
    pub lo: u64,
    pub hi: u64,
}

/// The sum of two elements.
pub open spec fn fadd(a: F128, b: F128) -> F128 {
    F128 { lo: a.lo ^ b.lo, hi: a.hi ^ b.hi }
}

/// The additive identity.
pub open spec fn fzero() -> F128 {
    F128 { lo: 0, hi: 0 }
}

/// The multiplicative identity.
pub open spec fn fone() -> F128 {
    F128 { lo: 1, hi: 0 }
}

/// Coefficient of `x^i` in `a`.
pub open spec fn fbit(a: F128, i: nat) -> bool {
    if i < 64 {
        (a.lo >> (i as u64)) & 1 == 1
    } else {
        (a.hi >> ((i - 64) as u64)) & 1 == 1
    }
}

/// `x * a`, reduced.
pub open spec fn fshift(a: F128) -> F128 {
    F128 {
        lo: (a.lo << 1) ^ (if (a.hi >> 63) & 1 == 1 { 0x87u64 } else { 0u64 }),
        hi: (a.hi << 1) | (a.lo >> 63),
    }
}

/// `x^n * a`, reduced.
pub open spec fn fshift_by(a: F128, n: nat) -> F128
    decreases n,
{
    if n == 0 {
        a
    } else {
        fshift(fshift_by(a, (n - 1) as nat))
    }
}

/// The part of `a * b` that comes from the coefficients of `b` below `x^n`.
pub open spec fn fmul_low(a: F128, b: F128, n: nat) -> F128
    decreases n,
{
    if n == 0 {
        fzero()
    } else {
        let rest = fmul_low(a, b, (n - 1) as nat);
        if fbit(b, (n - 1) as nat) {
            fadd(rest, fshift_by(a, (n - 1) as nat))
        } else {
            rest
        }
    }
}

/// The product of two elements: the sum of `x^i * a` over the coefficients of `b`.
#[verifier::opaque]
pub open spec fn fmul(a: F128, b: F128) -> F128 {
    fmul_low(a, b, 128)
}

/// Addition is commutative.
pub proof fn lemma_add_comm(a: F128, b: F128)
    ensures
        fadd(a, b) == fadd(b, a),
{
    let (p, q, r, s) = (a.lo, b.lo, a.hi, b.hi);
    assert(p ^ q == q ^ p && r ^ s == s ^ r) by (bit_vector);
}

/// Addition is associative.
pub proof fn lemma_add_assoc(a: F128, b: F128, c: F128)
    ensures
        fadd(fadd(a, b), c) == fadd(a, fadd(b, c)),
{
    let (p, q, r) = (a.lo, b.lo, c.lo);
    let (s, t, u) = (a.hi, b.hi, c.hi);
    assert((p ^ q) ^ r == p ^ (q ^ r) && (s ^ t) ^ u == s ^ (t ^ u)) by (bit_vector);
}

/// Zero is neutral for addition, and every element is its own negative.
pub proof fn lemma_add_zero(a: F128)
    ensures
        fadd(a, fzero()) == a,
        fadd(fzero(), a) == a,
        fadd(a, a) == fzero(),
{
    let (p, q) = (a.lo, a.hi);
    assert(p ^ 0 == p && 0 ^ p == p && p ^ p == 0 && q ^ 0 == q && 0 ^ q == q && q ^ q == 0)
        by (bit_vector);
}

/// The middle two of four summands may be exchanged.
pub proof fn lemma_add_swap(a: F128, b: F128, c: F128, d: F128)
    ensures
        fadd(fadd(a, b), fadd(c, d)) == fadd(fadd(a, c), fadd(b, d)),
{
    let (p, q, r, s) = (a.lo, b.lo, c.lo, d.lo);
    let (t, u, v, w) = (a.hi, b.hi, c.hi, d.hi);
    assert((p ^ q) ^ (r ^ s) == (p ^ r) ^ (q ^ s) && (t ^ u) ^ (v ^ w) == (t ^ v) ^ (u ^ w))
        by (bit_vector);
}

proof fn lemma_shift_add(a: F128, b: F128)
    ensures
        fshift(fadd(a, b)) == fadd(fshift(a), fshift(b)),
{
    let (p, q, r, s) = (a.lo, b.lo, a.hi, b.hi);
    assert({
        &&& ((p ^ q) << 1) ^ (if ((r ^ s) >> 63) & 1 == 1 { 0x87u64 } else { 0u64 }) == ((p << 1)
            ^ (if (r >> 63) & 1 == 1 { 0x87u64 } else { 0u64 })) ^ ((q << 1) ^ (if (s >> 63) & 1 == 1 {
            0x87u64
        } else {
            0u64
        }))
        &&& ((r ^ s) << 1) | ((p ^ q) >> 63) == ((r << 1) | (p >> 63)) ^ ((s << 1) | (q >> 63))
    }) by (bit_vector);
}

proof fn lemma_shift_by_add(a: F128, b: F128, n: nat)
    ensures
        fshift_by(fadd(a, b), n) == fadd(fshift_by(a, n), fshift_by(b, n)),
    decreases n,
{
    if n > 0 {
        lemma_shift_by_add(a, b, (n - 1) as nat);
        lemma_shift_add(fshift_by(a, (n - 1) as nat), fshift_by(b, (n - 1) as nat));
    }
}

pub(crate) proof fn lemma_shift_by_shift(a: F128, n: nat)
    ensures
        fshift_by(fshift(a), n) == fshift(fshift_by(a, n)),
    decreases n,
{
    if n > 0 {
        lemma_shift_by_shift(a, (n - 1) as nat);
    }
}

proof fn lemma_bit_add(a: F128, b: F128, i: nat)
    requires
        i < 128,
    ensures
        fbit(fadd(a, b), i) == (fbit(a, i) != fbit(b, i)),
{
    if i < 64 {
        let (p, q, k) = (a.lo, b.lo, i as u64);
        assert((((p ^ q) >> k) & 1 == 1) == (((p >> k) & 1 == 1) != ((q >> k) & 1 == 1)))
            by (bit_vector);
    } else {
        let (p, q, k) = (a.hi, b.hi, (i - 64) as u64);
        assert((((p ^ q) >> k) & 1 == 1) == (((p >> k) & 1 == 1) != ((q >> k) & 1 == 1)))
            by (bit_vector);
    }
}

proof fn lemma_mul_low_add_left(a: F128, b: F128, c: F128, n: nat)
    ensures
        fmul_low(fadd(a, b), c, n) == fadd(fmul_low(a, c, n), fmul_low(b, c, n)),
    decreases n,
{
    lemma_add_zero(fzero());
    if n > 0 {
        let m = (n - 1) as nat;
        lemma_mul_low_add_left(a, b, c, m);
        lemma_shift_by_add(a, b, m);
        lemma_add_swap(
            fmul_low(a, c, m),
            fmul_low(b, c, m),
            fshift_by(a, m),
            fshift_by(b, m),
        );
    }
}

proof fn lemma_mul_low_add_right(a: F128, b: F128, c: F128, n: nat)
    requires
        n <= 128,
    ensures
        fmul_low(a, fadd(b, c), n) == fadd(fmul_low(a, b, n), fmul_low(a, c, n)),
    decreases n,
{
    lemma_add_zero(fzero());
    if n > 0 {
        let m = (n - 1) as nat;
        lemma_mul_low_add_right(a, b, c, m);
        lemma_bit_add(b, c, m);
        let (u, v, s) = (fmul_low(a, b, m), fmul_low(a, c, m), fshift_by(a, m));
        lemma_add_swap(u, v, s, s);
        lemma_add_zero(s);
        lemma_add_zero(fadd(u, v));
        lemma_add_assoc(u, v, s);
        lemma_add_assoc(u, s, v);
        lemma_add_comm(s, v);
    }
}

proof fn lemma_mul_low_shift(a: F128, b: F128, n: nat)
    ensures
        fmul_low(fshift(a), b, n) == fshift(fmul_low(a, b, n)),
    decreases n,
{
    if n == 0 {
        lemma_add_zero(fzero());
        lemma_shift_add(fzero(), fzero());
        lemma_add_zero(fshift(fzero()));
    } else {
        let m = (n - 1) as nat;
        lemma_mul_low_shift(a, b, m);
        lemma_shift_by_shift(a, m);
        lemma_shift_add(fmul_low(a, b, m), fshift_by(a, m));
    }
}

pub(crate) proof fn lemma_mul_shift_by(a: F128, b: F128, n: nat)
    ensures
        fmul(fshift_by(a, n), b) == fshift_by(fmul(a, b), n),
    decreases n,
{
    reveal(fmul);
    if n > 0 {
        let m = (n - 1) as nat;
        lemma_mul_shift_by(a, b, m);
        lemma_mul_low_shift(fshift_by(a, m), b, 128);
    }
}

/// The powers of `x` below `x^128` are single bits.
proof fn lemma_one_shift_by(n: nat)
    requires
        n < 128,
    ensures
        n < 64 ==> fshift_by(fone(), n) == (F128 { lo: 1u64 << (n as u64), hi: 0 }),
        n >= 64 ==> fshift_by(fone(), n) == (F128 { lo: 0, hi: 1u64 << ((n - 64) as u64) }),
    decreases n,
{
    if n == 0 {
        assert(1u64 << 0u64 == 1) by (bit_vector);
    } else {
        let m = (n - 1) as nat;
        lemma_one_shift_by(m);
        let k: u64 = if m < 64 { m as u64 } else { (m - 64) as u64 };
        let z: u64 = 0;
        assert({
            &&& k < 63 ==> ((1u64 << k) << 1) ^ 0u64 == 1u64 << (k + 1) as u64
            &&& k < 63 ==> ((1u64 << k) << 1) == 1u64 << (k + 1) as u64
            &&& k < 63 ==> (1u64 << k) >> 63 == 0
            &&& k < 63 ==> ((1u64 << k) >> 63) & 1 == 0
            &&& (0u64 << 1) | 0u64 == 0u64
            &&& (0u64 >> 63) & 1 == 0u64
            &&& (0u64 << 1) ^ 0u64 == 0u64
            &&& (0u64 >> 63) == 0u64
            &&& k < 63 ==> (1u64 << (k + 1) as u64) | 0u64 == 1u64 << (k + 1) as u64
            &&& ((1u64 << 63u64) << 1) ^ 0u64 == 0u64
            &&& (0u64 << 1) | ((1u64 << 63u64) >> 63) == 1u64 << 0u64
        }) by (bit_vector)
            requires
                k < 64,
        ;
    }
}

/// Adding up the powers of `x` that occur in `b` gives `b` back.
proof fn lemma_one_mul_low(b: F128, n: nat)
    requires
        n <= 128,
    ensures
        n <= 64 ==> fmul_low(fone(), b, n) == (F128 {
            lo: b.lo ^ ((b.lo >> (n as u64)) << (n as u64)),
            hi: 0,
        }),
        n >= 64 ==> fmul_low(fone(), b, n) == (F128 {
            lo: b.lo,
            hi: b.hi ^ ((b.hi >> ((n - 64) as u64)) << ((n - 64) as u64)),
        }),
    decreases n,
{
    let (lo, hi) = (b.lo, b.hi);
    assert({
        &&& lo ^ ((lo >> 0u64) << 0u64) == 0
        &&& hi ^ ((hi >> 0u64) << 0u64) == 0
        &&& lo ^ ((lo >> 64u64) << 64u64) == lo
    }) by (bit_vector);
    if n > 0 {
        let m = (n - 1) as nat;
        lemma_one_mul_low(b, m);
        lemma_one_shift_by(m);
        let w: u64 = if m < 64 { lo } else { hi };
        let k: u64 = if m < 64 { m as u64 } else { (m - 64) as u64 };
        assert({
            &&& (w >> k) & 1 == 1 ==> (w ^ ((w >> k) << k)) ^ (1u64 << k) == w ^ ((w >> (k + 1) as u64)
                << (k + 1) as u64)
            &&& (w >> k) & 1 != 1 ==> w ^ ((w >> k) << k) == w ^ ((w >> (k + 1) as u64) << (k
                + 1) as u64)
            &&& 0u64 ^ 0u64 == 0u64
            &&& lo ^ 0u64 == lo
        }) by (bit_vector)
            requires
                k < 64,
        ;
    }
}

/// One is neutral for multiplication.
pub proof fn lemma_mul_one(a: F128)
    ensures
        fmul(fone(), a) == a,
        fmul(a, fone()) == a,
{
    lemma_one_mul_low(a, 128);
    let hi = a.hi;
    assert(hi ^ ((hi >> 64u64) << 64u64) == hi) by (bit_vector);
    reveal(fmul);
    lemma_mul_comm(a, fone());
}

proof fn lemma_mul_low_mul(a: F128, b: F128, c: F128, n: nat)
    requires
        n <= 128,
    ensures
        fmul(fmul_low(a, b, n), c) == fmul_low(fmul(a, c), b, n),
    decreases n,
{
    if n == 0 {
        lemma_zero_mul(c);
    } else {
        let m = (n - 1) as nat;
        lemma_mul_low_mul(a, b, c, m);
        lemma_mul_shift_by(a, c, m);
        lemma_mul_add_left(fmul_low(a, b, m), fshift_by(a, m), c);
    }
}

proof fn lemma_zero_mul(c: F128)
    ensures
        fmul(fzero(), c) == fzero(),
{
    lemma_mul_add_left(fzero(), fzero(), c);
    lemma_add_zero(fzero());
    lemma_add_zero(fmul(fzero(), c));
}

/// Multiplication distributes over addition on the left.
pub proof fn lemma_mul_add_left(a: F128, b: F128, c: F128)
    ensures
        fmul(fadd(a, b), c) == fadd(fmul(a, c), fmul(b, c)),
{
    reveal(fmul);
    lemma_mul_low_add_left(a, b, c, 128);
}

/// Multiplication distributes over addition on the right.
pub proof fn lemma_mul_add_right(a: F128, b: F128, c: F128)
    ensures
        fmul(a, fadd(b, c)) == fadd(fmul(a, b), fmul(a, c)),
{
    reveal(fmul);
    lemma_mul_low_add_right(a, b, c, 128);
}

/// Multiplication by zero gives zero.
pub proof fn lemma_mul_zero(a: F128)
    ensures
        fmul(fzero(), a) == fzero(),
        fmul(a, fzero()) == fzero(),
{
    lemma_zero_mul(a);
    lemma_mul_add_right(a, fzero(), fzero());
    lemma_add_zero(fzero());
    lemma_add_zero(fmul(a, fzero()));
}

/// Multiplication is commutative.
pub proof fn lemma_mul_comm(a: F128, b: F128)
    ensures
        fmul(a, b) == fmul(b, a),
{
    lemma_one_mul_low(a, 128);
    lemma_one_mul_low(b, 128);
    let (p, q) = (a.hi, b.hi);
    assert(p ^ ((p >> 64u64) << 64u64) == p && q ^ ((q >> 64u64) << 64u64) == q) by (bit_vector);
    lemma_mul_low_mul(fone(), a, b, 128);
    reveal(fmul);
}

/// Multiplication is associative.
pub proof fn lemma_mul_assoc(a: F128, b: F128, c: F128)
    ensures
        fmul(fmul(a, b), c) == fmul(a, fmul(b, c)),
{
    lemma_mul_comm(a, b);
    lemma_mul_low_mul(b, a, c, 128);
    assert(fmul(fmul(b, a), c) == fmul(fmul(b, c), a)) by {
        reveal(fmul);
    }
    lemma_mul_comm(fmul(b, c), a);
}

/// A product of nonzero elements is not zero.
pub proof fn lemma_mul_nonzero(a: F128, b: F128)
    requires
        a != fzero(),
        b != fzero(),
    ensures
        fmul(a, b) != fzero(),
{
    if fmul(a, b) == fzero() {
        crate::inverse::lemma_inverse(a);
        lemma_mul_assoc(crate::inverse::finv(a), a, b);
        lemma_mul_one(b);
        lemma_mul_zero(crate::inverse::finv(a));
    }
}

impl F128 {
    /// The additive identity.
    pub fn zero() -> (r: F128)
        ensures
            r == fzero(),
    {
        F128 { lo: 0, hi: 0 }
    }

    /// The multiplicative identity.
    pub fn one() -> (r: F128)
        ensures
            r == fone(),
    {
        F128 { lo: 1, hi: 0 }
    }

    /// `x * self`, reduced.
    fn shift(self) -> (r: F128)
        ensures
            r == fshift(self),
    {
        let carry: u64 = if (self.hi >> 63) & 1 == 1 {
            0x87
        } else {
            0
        };
        F128 { lo: (self.lo << 1) ^ carry, hi: (self.hi << 1) | (self.lo >> 63) }
    }
}

impl core::ops::Add for F128 {
    type Output = F128;

    fn add(self, rhs: F128) -> (r: F128) {
        F128 { lo: self.lo ^ rhs.lo, hi: self.hi ^ rhs.hi }
    }
}

impl AddSpecImpl for F128 {
    open spec fn obeys_add_spec() -> bool {
        true
    }

    open spec fn add_req(self, rhs: F128) -> bool {
        true
    }

    open spec fn add_spec(self, rhs: F128) -> F128 {
        fadd(self, rhs)
    }
}

impl core::ops::Mul for F128 {
    type Output = F128;

    fn mul(self, rhs: F128) -> (r: F128) {
        let mut acc: F128 = F128::zero();
        let mut cur: F128 = self;
        let mut i: u64 = 0;
        while i < 128
            invariant
                i <= 128,
                acc == fmul_low(self, rhs, i as nat),
                cur == fshift_by(self, i as nat),
            decreases 128 - i,
        {
            let set: bool = if i < 64 {
                (rhs.lo >> i) & 1 == 1
            } else {
                (rhs.hi >> (i - 64)) & 1 == 1
            };
            if set {
                acc = acc + cur;
            }
            cur = cur.shift();
            i = i + 1;
        }
        proof {
            reveal(fmul);
        }
        acc
    }
}

impl MulSpecImpl for F128 {
    open spec fn obeys_mul_spec() -> bool {
        true
    }

    open spec fn mul_req(self, rhs: F128) -> bool {
        true
    }

    open spec fn mul_spec(self, rhs: F128) -> F128 {
        fmul(self, rhs)
    }
}

} // verus!

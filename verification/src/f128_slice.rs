//! Kernels over contiguous runs of field elements: pair folds, split-half binds
//! and the product-sumcheck messages that go with them.

use crate::field::{fadd, fmul, fone, F128};
use crate::field::{lemma_add_assoc, lemma_add_comm, lemma_add_swap};
use crate::field::{lemma_mul_add_right, lemma_mul_assoc, lemma_mul_comm, lemma_mul_one};
use crate::sums::{fsum, lemma_sum_ext, lemma_sum_split};
use vstd::prelude::*;

verus! {

/// The line through `a` at 0 and `b` at 1, evaluated at `r`.
pub open spec fn fmix(a: F128, b: F128, r: F128) -> F128 {
    fadd(a, fmul(r, fadd(a, b)))
}

/// The pair fold of `src`: entry `j` mixes `src[2j]` and `src[2j + 1]`.
pub open spec fn pair_fold(src: Seq<F128>, r: F128, j: int) -> F128 {
    fmix(src[2 * j], src[2 * j + 1], r)
}

/// All pair folds of `src`.
pub open spec fn pair_folds(src: Seq<F128>, r: F128) -> Seq<F128> {
    Seq::new(src.len() / 2, |j: int| pair_fold(src, r, j))
}

/// `q(1)` of a product round: the dot product of the two high halves.
pub open spec fn msg_one(chi: Seq<F128>, zhi: Seq<F128>, n: nat) -> F128 {
    fsum(n, |i: int| fmul(chi[i], zhi[i]))
}

/// `q(inf)` of a product round: the dot product of the half differences.
pub open spec fn msg_inf(
    chi: Seq<F128>,
    clo: Seq<F128>,
    zhi: Seq<F128>,
    zlo: Seq<F128>,
    n: nat,
) -> F128 {
    fsum(n, |i: int| fmul(fadd(chi[i], clo[i]), fadd(zhi[i], zlo[i])))
}

/// Mixing costs one product because `a * (1 + r) + b * r == a + r * (a + b)`.
pub proof fn lemma_mix_two_mul(a: F128, b: F128, r: F128)
    ensures
        fmix(a, b, r) == fadd(fmul(a, fadd(fone(), r)), fmul(b, r)),
{
    lemma_mul_add_right(a, fone(), r);
    lemma_mul_one(a);
    lemma_mul_add_right(r, a, b);
    lemma_mul_comm(r, a);
    lemma_mul_comm(r, b);
    lemma_add_assoc(a, fmul(a, r), fmul(b, r));
}

/// Mixing is linear: gluing a scaled addend onto both ends glues the scaled mix.
pub proof fn lemma_mix_linear(a: F128, b: F128, c: F128, d: F128, s: F128, r: F128)
    ensures
        fmix(fadd(a, fmul(s, c)), fadd(b, fmul(s, d)), r) == fadd(
            fmix(a, b, r),
            fmul(s, fmix(c, d, r)),
        ),
{
    let (sc, sd) = (fmul(s, c), fmul(s, d));
    lemma_add_swap(a, sc, b, sd);
    lemma_mul_add_right(r, fadd(a, b), fadd(sc, sd));
    lemma_add_swap(a, sc, fmul(r, fadd(a, b)), fmul(r, fadd(sc, sd)));
    lemma_mul_add_right(s, c, d);
    lemma_mul_assoc(r, s, fadd(c, d));
    lemma_mul_comm(r, s);
    lemma_mul_assoc(s, r, fadd(c, d));
    lemma_mul_add_right(s, c, fmul(r, fadd(c, d)));
}

/// Folding a glued basis equals gluing the folds, entry by entry.
pub proof fn lemma_fold_glued(src: Seq<F128>, addend: Seq<F128>, s: F128, r: F128, j: int)
    requires
        src.len() == addend.len(),
        0 <= j,
        2 * j + 1 < src.len(),
    ensures
        pair_fold(Seq::new(src.len(), |i: int| fadd(src[i], fmul(s, addend[i]))), r, j) == fadd(
            pair_fold(src, r, j),
            fmul(s, pair_fold(addend, r, j)),
        ),
{
    lemma_mix_linear(src[2 * j], src[2 * j + 1], addend[2 * j], addend[2 * j + 1], s, r);
}

/// The pair `(a, b)` mixed at `r`.
pub fn mix(a: F128, b: F128, r: F128) -> (v: F128)
    ensures
        v == fmix(a, b, r),
{
    a + r * (a + b)
}

/// Folds adjacent pairs of `src` into `dst`, starting at pair `base`.
pub fn fold_pairs(src: &[F128], base: usize, dst: &mut [F128], r: F128)
    requires
        base + old(dst)@.len() <= src@.len() / 2,
    ensures
        final(dst)@.len() == old(dst)@.len(),
        forall|t: int|
            0 <= t < old(dst)@.len() ==> #[trigger] final(dst)@[t] == pair_fold(src@, r, base + t),
{
    let n: usize = dst.len();
    let limit: usize = src.len();
    let mut t: usize = 0;
    while t < n
        invariant
            t <= n,
            n == dst@.len(),
            limit == src@.len(),
            base + n <= src@.len() / 2,
            forall|u: int| 0 <= u < t ==> #[trigger] dst@[u] == pair_fold(src@, r, base + u),
        decreases n - t,
    {
        let s: usize = 2 * (base + t);
        let even: F128 = src[s];
        dst[t] = even + r * (even + src[s + 1]);
        t = t + 1;
    }
}

/// Whether both states fold to the same length and hold whole groups of four.
pub open spec fn fold_two_shape(f: Seq<F128>, b: Seq<F128>) -> bool {
    f.len() == b.len() && f.len() % 4 == 0
}

/// The even-slot statistic of two folded states: the sum of `f[2i] * b[2i]`.
pub open spec fn stat_even(f: Seq<F128>, b: Seq<F128>, n: nat) -> F128 {
    fsum(n, |i: int| fmul(f[2 * i], b[2 * i]))
}

/// The pair statistic of two folded states: the sum of
/// `(f[2i] + f[2i + 1]) * (b[2i] + b[2i + 1])`.
pub open spec fn stat_pair(f: Seq<F128>, b: Seq<F128>, n: nat) -> F128 {
    fsum(n, |i: int| fmul(fadd(f[2 * i], f[2 * i + 1]), fadd(b[2 * i], b[2 * i + 1])))
}

/// Folds the adjacent pairs of two states in place and returns the next round's
/// statistics over the folded states.
pub fn fold_two_and_msg_in_place(f: &mut Vec<F128>, b: &mut Vec<F128>, r: F128) -> (msg: (
    F128,
    F128,
))
    requires
        fold_two_shape(old(f)@, old(b)@),
    ensures
        final(f)@ == pair_folds(old(f)@, r),
        final(b)@ == pair_folds(old(b)@, r),
        msg.0 == stat_even(final(f)@, final(b)@, old(f)@.len() / 4),
        msg.1 == stat_pair(final(f)@, final(b)@, old(f)@.len() / 4),
{
    fold_two_and_msg_in_place_scalar(f, b, r)
}

/// The scalar scan behind [`fold_two_and_msg_in_place`].
pub fn fold_two_and_msg_in_place_scalar(f: &mut Vec<F128>, b: &mut Vec<F128>, r: F128) -> (msg: (
    F128,
    F128,
))
    requires
        fold_two_shape(old(f)@, old(b)@),
    ensures
        final(f)@ == pair_folds(old(f)@, r),
        final(b)@ == pair_folds(old(b)@, r),
        msg.0 == stat_even(final(f)@, final(b)@, old(f)@.len() / 4),
        msg.1 == stat_pair(final(f)@, final(b)@, old(f)@.len() / 4),
{
    let len: usize = f.len();
    let half: usize = len / 2;
    let mut u0: F128 = F128::zero();
    let mut u2: F128 = F128::zero();
    let mut t: usize = 0;
    let ghost f0s = f@;
    let ghost b0s = b@;
    let ghost ff = pair_folds(f0s, r);
    let ghost bf = pair_folds(b0s, r);
    while t < half
        invariant
            t <= half,
            t % 2 == 0,
            half % 2 == 0,
            2 * half == len,
            len == f0s.len(),
            f0s.len() == b0s.len(),
            f@.len() == f0s.len(),
            b@.len() == b0s.len(),
            ff == pair_folds(f0s, r),
            bf == pair_folds(b0s, r),
            forall|i: int| 0 <= i < t ==> #[trigger] f@[i] == ff[i],
            forall|i: int| 0 <= i < t ==> #[trigger] b@[i] == bf[i],
            forall|i: int| t <= i < f0s.len() ==> #[trigger] f@[i] == f0s[i],
            forall|i: int| t <= i < f0s.len() ==> #[trigger] b@[i] == b0s[i],
            u0 == stat_even(ff, bf, (t / 2) as nat),
            u2 == stat_pair(ff, bf, (t / 2) as nat),
        decreases half - t,
    {
        let s: usize = 2 * t;
        let f0: F128 = f[s] + r * (f[s] + f[s + 1]);
        let f1: F128 = f[s + 2] + r * (f[s + 2] + f[s + 3]);
        let b0: F128 = b[s] + r * (b[s] + b[s + 1]);
        let b1: F128 = b[s + 2] + r * (b[s + 2] + b[s + 3]);
        assert(f0 == ff[t as int] && f1 == ff[t + 1] && b0 == bf[t as int] && b1 == bf[t + 1]);
        f.set(t, f0);
        f.set(t + 1, f1);
        b.set(t, b0);
        b.set(t + 1, b1);
        u0 = u0 + f0 * b0;
        u2 = u2 + (f0 + f1) * (b0 + b1);
        assert(2 * ((t + 2) / 2 - 1) == t);
        t = t + 2;
    }
    f.truncate(half);
    b.truncate(half);
    proof {
        assert(f@ =~= ff);
        assert(b@ =~= bf);
    }
    (u0, u2)
}

/// Folds adjacent pairs of `f` and `b`, starting at pair `base`, and returns the
/// statistics of the folded pairs. A folded entry without a partner enters
/// neither statistic.
pub fn fold_two_and_msg(
    f: &[F128],
    b: &[F128],
    base: usize,
    fc: &mut [F128],
    bc: &mut [F128],
    r: F128,
) -> (msg: (F128, F128))
    requires
        old(fc)@.len() == old(bc)@.len(),
        base + old(fc)@.len() <= f@.len() / 2,
        base + old(fc)@.len() <= b@.len() / 2,
    ensures
        final(fc)@.len() == old(fc)@.len(),
        final(bc)@.len() == old(bc)@.len(),
        forall|t: int|
            0 <= t < old(fc)@.len() ==> #[trigger] final(fc)@[t] == pair_fold(f@, r, base + t),
        forall|t: int|
            0 <= t < old(bc)@.len() ==> #[trigger] final(bc)@[t] == pair_fold(b@, r, base + t),
        msg.0 == stat_even(final(fc)@, final(bc)@, old(fc)@.len() / 2),
        msg.1 == stat_pair(final(fc)@, final(bc)@, old(fc)@.len() / 2),
{
    fold_pairs(f, base, fc, r);
    fold_pairs(b, base, bc, r);
    let pairs: usize = fc.len() / 2;
    let limit: usize = fc.len();
    let mut u0: F128 = F128::zero();
    let mut u2: F128 = F128::zero();
    let mut t: usize = 0;
    while t < pairs
        invariant
            t <= pairs,
            pairs == limit / 2,
            limit == fc@.len(),
            limit == bc@.len(),
            u0 == stat_even(fc@, bc@, t as nat),
            u2 == stat_pair(fc@, bc@, t as nat),
        decreases pairs - t,
    {
        let (f0, f1) = (fc[2 * t], fc[2 * t + 1]);
        let (b0, b1) = (bc[2 * t], bc[2 * t + 1]);
        u0 = u0 + f0 * b0;
        u2 = u2 + (f0 + f1) * (b0 + b1);
        t = t + 1;
    }
    (u0, u2)
}

/// `dst[i] += scale * addend[i]`.
pub fn add_scaled(dst: &mut [F128], addend: &[F128], scale: F128)
    requires
        old(dst)@.len() == addend@.len(),
    ensures
        final(dst)@.len() == old(dst)@.len(),
        forall|i: int|
            0 <= i < addend@.len() ==> #[trigger] final(dst)@[i] == fadd(
                old(dst)@[i],
                fmul(scale, addend@[i]),
            ),
{
    let n: usize = dst.len();
    let ghost before = dst@;
    let mut i: usize = 0;
    while i < n
        invariant
            i <= n,
            n == dst@.len(),
            n == addend@.len(),
            n == before.len(),
            forall|j: int|
                0 <= j < i ==> #[trigger] dst@[j] == fadd(before[j], fmul(scale, addend@[j])),
            forall|j: int| i <= j < n ==> #[trigger] dst@[j] == before[j],
        decreases n - i,
    {
        dst[i] = dst[i] + scale * addend[i];
        i = i + 1;
    }
}

/// Folds adjacent pairs of `src` and `addend` at `r` and adds the scaled folded
/// addend, without materializing either fold.
pub fn fold_pairs_with_scaled_addend(
    src: &[F128],
    addend: &[F128],
    base: usize,
    dst: &mut [F128],
    r: F128,
    scale: F128,
)
    requires
        base + old(dst)@.len() <= src@.len() / 2,
        base + old(dst)@.len() <= addend@.len() / 2,
    ensures
        final(dst)@.len() == old(dst)@.len(),
        forall|t: int|
            0 <= t < old(dst)@.len() ==> #[trigger] final(dst)@[t] == fadd(
                pair_fold(src@, r, base + t),
                fmul(scale, pair_fold(addend@, r, base + t)),
            ),
{
    let n: usize = dst.len();
    let limit: usize = src.len();
    let mut t: usize = 0;
    while t < n
        invariant
            t <= n,
            n == dst@.len(),
            limit == src@.len(),
            base + n <= src@.len() / 2,
            base + n <= addend@.len() / 2,
            forall|u: int|
                0 <= u < t ==> #[trigger] dst@[u] == fadd(
                    pair_fold(src@, r, base + u),
                    fmul(scale, pair_fold(addend@, r, base + u)),
                ),
        decreases n - t,
    {
        let index: usize = 2 * (base + t);
        let src_even: F128 = src[index];
        let addend_even: F128 = addend[index];
        let src_folded: F128 = src_even + r * (src_even + src[index + 1]);
        let addend_folded: F128 = addend_even + r * (addend_even + addend[index + 1]);
        dst[t] = src_folded + scale * addend_folded;
        t = t + 1;
    }
}

/// Two nested pair folds of the four-tuple `t`: first at `r0`, then at `r1`.
pub open spec fn fold4(src: Seq<F128>, r0: F128, r1: F128, t: int) -> F128 {
    fmix(
        fmix(src[4 * t], src[4 * t + 1], r0),
        fmix(src[4 * t + 2], src[4 * t + 3], r0),
        r1,
    )
}

/// The nested fold equals two pair folds in a row.
pub proof fn lemma_fold4_is_two_folds(src: Seq<F128>, r0: F128, r1: F128, t: int)
    requires
        0 <= t,
        4 * t + 3 < src.len(),
    ensures
        fold4(src, r0, r1, t) == pair_fold(pair_folds(src, r0), r1, t),
{
    let mid = pair_folds(src, r0);
    assert(mid[2 * t] == fmix(src[4 * t], src[4 * t + 1], r0));
    assert(mid[2 * t + 1] == fmix(src[4 * t + 2], src[4 * t + 3], r0));
}

/// Nested pair fold of adjacent four-tuples.
pub fn fold4_nested(src: &[F128], dst: &mut [F128], r0: F128, r1: F128)
    requires
        src@.len() == 4 * old(dst)@.len(),
    ensures
        final(dst)@.len() == old(dst)@.len(),
        forall|t: int|
            0 <= t < old(dst)@.len() ==> #[trigger] final(dst)@[t] == fold4(src@, r0, r1, t),
{
    let n: usize = dst.len();
    let limit: usize = src.len();
    let mut t: usize = 0;
    while t < n
        invariant
            t <= n,
            n == dst@.len(),
            limit == src@.len(),
            limit == 4 * n,
            forall|u: int| 0 <= u < t ==> #[trigger] dst@[u] == fold4(src@, r0, r1, u),
        decreases n - t,
    {
        let low: F128 = mix(src[4 * t], src[4 * t + 1], r0);
        let high: F128 = mix(src[4 * t + 2], src[4 * t + 3], r0);
        dst[t] = mix(low, high, r1);
        t = t + 1;
    }
}

/// The weighted sum of the first `n` of the sixteen entries of bank `t`.
pub open spec fn bank_sum(src: Seq<F128>, w: Seq<F128>, t: int, n: nat) -> F128 {
    fsum(n, |b: int| fmul(w[b], src[16 * t + b]))
}

/// Sixteen-bank weighted fold: `dst[t]` is the sum of `w[b] * src[16t + b]`.
pub fn fold16_banked(src: &[F128], dst: &mut [F128], w: &[F128; 16])
    requires
        src@.len() == 16 * old(dst)@.len(),
    ensures
        final(dst)@.len() == old(dst)@.len(),
        forall|t: int|
            0 <= t < old(dst)@.len() ==> #[trigger] final(dst)@[t] == bank_sum(src@, w@, t, 16),
{
    let n: usize = dst.len();
    let limit: usize = src.len();
    let mut t: usize = 0;
    while t < n
        invariant
            t <= n,
            n == dst@.len(),
            limit == src@.len(),
            limit == 16 * n,
            forall|u: int| 0 <= u < t ==> #[trigger] dst@[u] == bank_sum(src@, w@, u, 16),
        decreases n - t,
    {
        let mut v: F128 = F128::zero();
        let mut b: usize = 0;
        while b < 16
            invariant
                b <= 16,
                t < n,
                limit == src@.len(),
                limit == 16 * n,
                v == bank_sum(src@, w@, t as int, b as nat),
            decreases 16 - b,
        {
            v = v + w[b] * src[16 * t + b];
            b = b + 1;
        }
        dst[t] = v;
        t = t + 1;
    }
}

/// Binds a top-bit split in place: `lo[i]` becomes the mix of `lo[i]` and `hi[i]`.
pub fn bind_split_half(lo: &mut [F128], hi: &[F128], r: F128)
    requires
        hi@.len() >= old(lo)@.len(),
    ensures
        final(lo)@.len() == old(lo)@.len(),
        forall|i: int|
            0 <= i < old(lo)@.len() ==> #[trigger] final(lo)@[i] == fmix(old(lo)@[i], hi@[i], r),
{
    let n: usize = lo.len();
    let ghost before = lo@;
    let mut i: usize = 0;
    while i < n
        invariant
            i <= n,
            n == lo@.len(),
            n == before.len(),
            n <= hi@.len(),
            forall|j: int| 0 <= j < i ==> #[trigger] lo@[j] == fmix(before[j], hi@[j], r),
            forall|j: int| i <= j < n ==> #[trigger] lo@[j] == before[j],
        decreases n - i,
    {
        proof {
            lemma_add_comm(hi@[i as int], lo@[i as int]);
        }
        lo[i] = lo[i] + r * (hi[i] + lo[i]);
        i = i + 1;
    }
}

/// The product-sumcheck message `(q(1), q(inf))` of a top-bit split over the
/// first `n` slots.
pub fn msg_split_half(chi: &[F128], clo: &[F128], zhi: &[F128], zlo: &[F128], n: usize) -> (msg: (
    F128,
    F128,
))
    requires
        chi@.len() >= n,
        clo@.len() >= n,
        zhi@.len() >= n,
        zlo@.len() >= n,
    ensures
        msg.0 == msg_one(chi@, zhi@, n as nat),
        msg.1 == msg_inf(chi@, clo@, zhi@, zlo@, n as nat),
{
    let mut e1: F128 = F128::zero();
    let mut einf: F128 = F128::zero();
    let mut i: usize = 0;
    while i < n
        invariant
            i <= n,
            chi@.len() >= n,
            clo@.len() >= n,
            zhi@.len() >= n,
            zlo@.len() >= n,
            e1 == msg_one(chi@, zhi@, i as nat),
            einf == msg_inf(chi@, clo@, zhi@, zlo@, i as nat),
        decreases n - i,
    {
        e1 = e1 + chi[i] * zhi[i];
        einf = einf + (chi[i] + clo[i]) * (zhi[i] + zlo[i]);
        i = i + 1;
    }
    (e1, einf)
}

/// `new` is `lo` with its first `n` entries mixed with those of `hi` at `r`.
pub open spec fn bound_prefix(
    lo: Seq<F128>,
    hi: Seq<F128>,
    r: F128,
    n: int,
    new: Seq<F128>,
) -> bool {
    &&& new.len() == lo.len()
    &&& forall|i: int|
        0 <= i < lo.len() ==> #[trigger] new[i] == if i < n {
            fmix(lo[i], hi[i], r)
        } else {
            lo[i]
        }
}

/// Binds the quarters of two tables at `r` and returns the message of the next
/// round over the bound tables, in one pass.
pub fn bind_both_and_msg_split(
    cq0: &mut [F128],
    cq1: &mut [F128],
    cq2: &[F128],
    cq3: &[F128],
    zq0: &mut [F128],
    zq1: &mut [F128],
    zq2: &[F128],
    zq3: &[F128],
    r: F128,
    n: usize,
) -> (msg: (F128, F128))
    requires
        old(cq0)@.len() >= n,
        old(cq1)@.len() >= n,
        cq2@.len() >= n,
        cq3@.len() >= n,
        old(zq0)@.len() >= n,
        old(zq1)@.len() >= n,
        zq2@.len() >= n,
        zq3@.len() >= n,
    ensures
        bound_prefix(old(cq0)@, cq2@, r, n as int, final(cq0)@),
        bound_prefix(old(cq1)@, cq3@, r, n as int, final(cq1)@),
        bound_prefix(old(zq0)@, zq2@, r, n as int, final(zq0)@),
        bound_prefix(old(zq1)@, zq3@, r, n as int, final(zq1)@),
        msg.0 == msg_one(final(cq1)@, final(zq1)@, n as nat),
        msg.1 == msg_inf(final(cq1)@, final(cq0)@, final(zq1)@, final(zq0)@, n as nat),
{
    let mut e1: F128 = F128::zero();
    let mut einf: F128 = F128::zero();
    let mut i: usize = 0;
    let ghost c0 = cq0@;
    let ghost c1 = cq1@;
    let ghost z0 = zq0@;
    let ghost z1 = zq1@;
    while i < n
        invariant
            i <= n,
            c0.len() >= n,
            c1.len() >= n,
            cq2@.len() >= n,
            cq3@.len() >= n,
            z0.len() >= n,
            z1.len() >= n,
            zq2@.len() >= n,
            zq3@.len() >= n,
            bound_prefix(c0, cq2@, r, i as int, cq0@),
            bound_prefix(c1, cq3@, r, i as int, cq1@),
            bound_prefix(z0, zq2@, r, i as int, zq0@),
            bound_prefix(z1, zq3@, r, i as int, zq1@),
            e1 == msg_one(cq1@, zq1@, i as nat),
            einf == msg_inf(cq1@, cq0@, zq1@, zq0@, i as nat),
        decreases n - i,
    {
        let ghost before = (cq0@, cq1@, zq0@, zq1@);
        let lo: F128 = mix(cq0[i], cq2[i], r);
        let hi: F128 = mix(cq1[i], cq3[i], r);
        let zlo: F128 = mix(zq0[i], zq2[i], r);
        let zhi: F128 = mix(zq1[i], zq3[i], r);
        cq0[i] = lo;
        cq1[i] = hi;
        zq0[i] = zlo;
        zq1[i] = zhi;
        e1 = e1 + hi * zhi;
        einf = einf + (hi + lo) * (zhi + zlo);
        proof {
            lemma_msg_agree(before.1, before.0, before.3, before.2, cq1@, cq0@, zq1@, zq0@, i as nat);
        }
        i = i + 1;
    }
    (e1, einf)
}

proof fn lemma_msg_agree(
    chi: Seq<F128>,
    clo: Seq<F128>,
    zhi: Seq<F128>,
    zlo: Seq<F128>,
    chi2: Seq<F128>,
    clo2: Seq<F128>,
    zhi2: Seq<F128>,
    zlo2: Seq<F128>,
    n: nat,
)
    requires
        forall|i: int| 0 <= i < n ==> chi[i] == chi2[i],
        forall|i: int| 0 <= i < n ==> clo[i] == clo2[i],
        forall|i: int| 0 <= i < n ==> zhi[i] == zhi2[i],
        forall|i: int| 0 <= i < n ==> zlo[i] == zlo2[i],
    ensures
        msg_one(chi, zhi, n) == msg_one(chi2, zhi2, n),
        msg_inf(chi, clo, zhi, zlo, n) == msg_inf(chi2, clo2, zhi2, zlo2, n),
{
    lemma_sum_ext(
        n,
        |i: int| fmul(chi[i], zhi[i]),
        |i: int| fmul(chi2[i], zhi2[i]),
    );
    lemma_sum_ext(
        n,
        |i: int| fmul(fadd(chi[i], clo[i]), fadd(zhi[i], zlo[i])),
        |i: int| fmul(fadd(chi2[i], clo2[i]), fadd(zhi2[i], zlo2[i])),
    );
}

/// The message over `a + b` slots is the sum of the messages over the first `a`
/// and over the remaining `b`: any chunking of a round is exact.
pub proof fn lemma_msg_chunks(
    chi: Seq<F128>,
    clo: Seq<F128>,
    zhi: Seq<F128>,
    zlo: Seq<F128>,
    a: nat,
    b: nat,
)
    requires
        chi.len() >= a + b,
        clo.len() >= a + b,
        zhi.len() >= a + b,
        zlo.len() >= a + b,
    ensures
        msg_one(chi, zhi, a + b) == fadd(
            msg_one(chi, zhi, a),
            msg_one(chi.skip(a as int), zhi.skip(a as int), b),
        ),
        msg_inf(chi, clo, zhi, zlo, a + b) == fadd(
            msg_inf(chi, clo, zhi, zlo, a),
            msg_inf(
                chi.skip(a as int),
                clo.skip(a as int),
                zhi.skip(a as int),
                zlo.skip(a as int),
                b,
            ),
        ),
{
    let s = a as int;
    let f = |i: int| fmul(chi[i], zhi[i]);
    lemma_sum_split(a, b, f);
    lemma_sum_ext(b, |i: int| f(a + i), |i: int| fmul(chi.skip(s)[i], zhi.skip(s)[i]));
    let g = |i: int| fmul(fadd(chi[i], clo[i]), fadd(zhi[i], zlo[i]));
    lemma_sum_split(a, b, g);
    lemma_sum_ext(
        b,
        |i: int| g(a + i),
        |i: int|
            fmul(
                fadd(chi.skip(s)[i], clo.skip(s)[i]),
                fadd(zhi.skip(s)[i], zlo.skip(s)[i]),
            ),
    );
}

} // verus!

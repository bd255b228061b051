//! What the field operations and the slice kernels are, entry by entry.

use crate::block_major::{bind_top, OuterWeights};
use crate::dispatch::split_weights;
use crate::eq::{dot, eq_table, eq_weight, lemma_eq_weight_factors, quirky_eq_table};
use crate::f128_slice::{bank_sum, bound_prefix, fmix, fold4, lemma_mix_two_mul, msg_inf, msg_one, pair_folds, stat_even, stat_pair};
use crate::field::{fadd, fmul, fmul_low, fone, fshift_by, fzero, F128};
use crate::field::{lemma_add_zero, lemma_mul_comm, lemma_mul_one};
use crate::sumcheck::round_msg;
use crate::sums::{fsum, lemma_sum_ext, sel};
use vstd::arithmetic::power2::pow2;
use vstd::prelude::*;

verus! {

/// Addition is exclusive or of the coefficients.
pub proof fn lemma_sum_is_xor(a: F128, b: F128)
    ensures
        fadd(a, b).lo == a.lo ^ b.lo,
        fadd(a, b).hi == a.hi ^ b.hi,
        fzero().lo == 0 && fzero().hi == 0,
        fone().lo == 1 && fone().hi == 0,
{
}

/// Multiplying by `x` shifts the coefficients up by one, and a coefficient that leaves at
/// the top comes back as `x^7 + x^2 + x + 1`. With distributivity, which leaves no choice
/// but in the products of powers of `x`, that fixes multiplication.
pub proof fn lemma_times_x(a: F128)
    ensures
        fmul(F128 { lo: 2, hi: 0 }, a).lo == (a.lo << 1) ^ (if a.hi >= 0x8000_0000_0000_0000 {
            0x87u64
        } else {
            0u64
        }),
        fmul(F128 { lo: 2, hi: 0 }, a).hi == (a.hi << 1) | (a.lo >> 63),
{
    let x = F128 { lo: 2, hi: 0 };
    lemma_mul_comm(x, a);
    reveal(fmul);
    lemma_low_two(a, 128);
    reveal_with_fuel(fshift_by, 2);
    let (h, l) = (a.hi, a.lo);
    assert((h >> 63) & 1 == 1 <==> h >= 0x8000_0000_0000_0000u64) by (bit_vector);
}

/// Only the coefficient of `x` contributes where that is the only one.
proof fn lemma_low_two(a: F128, n: nat)
    requires
        2 <= n <= 128,
    ensures
        fmul_low(a, F128 { lo: 2, hi: 0 }, n) == fshift_by(a, 1),
    decreases n,
{
    let x = F128 { lo: 2, hi: 0 };
    if n == 2 {
        reveal_with_fuel(fmul_low, 3);
        assert((2u64 >> 0u64) & 1 == 0 && (2u64 >> 1u64) & 1 == 1) by (bit_vector);
        lemma_add_zero(fshift_by(a, 1));
    } else {
        lemma_low_two(a, (n - 1) as nat);
        let i = (n - 1) as nat;
        if i < 64 {
            let j = i as u64;
            assert((2u64 >> j) & 1 == 0) by (bit_vector)
                requires
                    2 <= j < 64,
            ;
        } else {
            let j = (i - 64) as u64;
            assert((0u64 >> j) & 1 == 0) by (bit_vector)
                requires
                    j < 64,
            ;
        }
    }
}

/// Folding pairs takes each pair to its line at `r`, and folding fours does so twice.
pub proof fn lemma_folded_entries(src: Seq<F128>, r: F128, s: F128, j: int)
    requires
        0 <= j,
        4 * j + 3 < src.len(),
    ensures
        pair_folds(src, r).len() == src.len() / 2,
        pair_folds(src, r)[j] == fadd(fmul(src[2 * j], fadd(fone(), r)), fmul(src[2 * j + 1], r)),
        fold4(src, r, s, j) == fadd(
            fmul(
                fadd(fmul(src[4 * j], fadd(fone(), r)), fmul(src[4 * j + 1], r)),
                fadd(fone(), s),
            ),
            fmul(fadd(fmul(src[4 * j + 2], fadd(fone(), r)), fmul(src[4 * j + 3], r)), s),
        ),
{
    lemma_mix_two_mul(src[2 * j], src[2 * j + 1], r);
    lemma_mix_two_mul(src[4 * j], src[4 * j + 1], r);
    lemma_mix_two_mul(src[4 * j + 2], src[4 * j + 3], r);
    lemma_mix_two_mul(fmix(src[4 * j], src[4 * j + 1], r), fmix(src[4 * j + 2], src[4 * j + 3], r), s);
}

/// Binding the top variable takes each entry of the low half and its partner in the high
/// half to their line at `r`, and a bound prefix does so as far as it goes.
pub proof fn lemma_bound_entries(
    v: Seq<F128>,
    lo: Seq<F128>,
    hi: Seq<F128>,
    r: F128,
    n: int,
    new: Seq<F128>,
    i: int,
)
    requires
        0 <= i,
    ensures
        bind_top(v, r).len() == v.len() / 2,
        i < v.len() / 2 ==> bind_top(v, r)[i] == fadd(
            fmul(v[i], fadd(fone(), r)),
            fmul(v[i + v.len() / 2], r),
        ),
        bound_prefix(lo, hi, r, n, new) && i < lo.len() ==> new.len() == lo.len() && new[i] == if i
            < n {
            fadd(fmul(lo[i], fadd(fone(), r)), fmul(hi[i], r))
        } else {
            lo[i]
        },
{
    if i < v.len() / 2 {
        lemma_mix_two_mul(v[i], v[i + v.len() / 2], r);
    }
    lemma_mix_two_mul(lo[i], hi[i], r);
}

/// Messages, statistics and dot products grow by one product for each further entry, from
/// zero.
pub proof fn lemma_sums_grow(
    a: Seq<F128>,
    b: Seq<F128>,
    c: Seq<F128>,
    d: Seq<F128>,
    t: int,
    n: nat,
)
    ensures
        dot(a, b, 0) == fzero(),
        dot(a, b, n + 1) == fadd(dot(a, b, n), fmul(a[n as int], b[n as int])),
        msg_one(a, b, 0) == fzero(),
        msg_one(a, b, n + 1) == fadd(msg_one(a, b, n), fmul(a[n as int], b[n as int])),
        msg_inf(a, b, c, d, 0) == fzero(),
        msg_inf(a, b, c, d, n + 1) == fadd(
            msg_inf(a, b, c, d, n),
            fmul(fadd(a[n as int], b[n as int]), fadd(c[n as int], d[n as int])),
        ),
        stat_even(a, b, 0) == fzero(),
        stat_even(a, b, n + 1) == fadd(stat_even(a, b, n), fmul(a[2 * n as int], b[2 * n as int])),
        stat_pair(a, b, 0) == fzero(),
        stat_pair(a, b, n + 1) == fadd(
            stat_pair(a, b, n),
            fmul(fadd(a[2 * n as int], a[2 * n as int + 1]), fadd(b[2 * n as int], b[2 * n as int + 1])),
        ),
        bank_sum(a, b, t, 0) == fzero(),
        bank_sum(a, b, t, n + 1) == fadd(
            bank_sum(a, b, t, n),
            fmul(b[n as int], a[16 * t + n as int]),
        ),
{
}

/// The message of a round is made of dot products: that of the high halves, and that of the
/// sums of the halves.
pub proof fn lemma_message_is_two_dots(c: Seq<F128>, z: Seq<F128>)
    requires
        c.len() == z.len(),
    ensures
        ({
            let h = c.len() as int / 2;
            let c_sum = Seq::new(h as nat, |i: int| fadd(c[h + i], c[i]));
            let z_sum = Seq::new(h as nat, |i: int| fadd(z[h + i], z[i]));
            &&& round_msg(c, z).0 == dot(c.skip(h), z.skip(h), h as nat)
            &&& round_msg(c, z).1 == dot(c_sum, z_sum, h as nat)
        }),
{
    let h = c.len() as int / 2;
    let c_sum = Seq::new(h as nat, |i: int| fadd(c[h + i], c[i]));
    let z_sum = Seq::new(h as nat, |i: int| fadd(z[h + i], z[i]));
    lemma_sum_ext(
        h as nat,
        |i: int| crate::sumcheck::term_one(c, z, i),
        |i: int| fmul(c.skip(h)[i], z.skip(h)[i]),
    );
    lemma_sum_ext(
        h as nat,
        |i: int| crate::sumcheck::term_inf(c, z, i),
        |i: int| fmul(c_sum[i], z_sum[i]),
    );
}

/// Sums grow by one term for each further index, from zero, and only the terms that are
/// picked count.
pub proof fn lemma_sum_steps(n: nat, f: spec_fn(int) -> F128, p: bool, v: F128)
    ensures
        fsum(0, f) == fzero(),
        fsum(n + 1, f) == fadd(fsum(n, f), f(n as int)),
        sel(true, v) == v,
        sel(false, v) == fzero(),
{
}

/// An equality table has one weight for each corner of the cube, and one more coordinate
/// doubles it: the old weights times `1 + r`, and then the old weights times `r`.
pub proof fn lemma_eq_table_doubles(point: Seq<F128>, r: F128, i: int)
    requires
        0 <= i < pow2(point.len()),
    ensures
        eq_table(Seq::<F128>::empty()) == seq![fone()],
        eq_table(point).len() == pow2(point.len()),
        eq_table(point.push(r))[i] == fmul(eq_table(point)[i], fadd(fone(), r)),
        eq_table(point.push(r))[i + pow2(point.len())] == fmul(eq_table(point)[i], r),
{
    let n = pow2(point.len()) as int;
    let one = seq![r];
    let p = point.push(r);
    vstd::arithmetic::power2::lemma2_to64();
    vstd::arithmetic::power2::lemma_pow2_unfold(p.len());
    assert(p =~= point + one);
    assert(pow2(p.len()) == 2 * n);
    lemma_eq_weight_factors(point, one, i);
    lemma_eq_weight_factors(point, one, i + n);
    crate::num::lemma_row_div(0, i, n);
    crate::num::lemma_row_div(1, i, n);
    reveal_with_fuel(crate::eq::eq_prefix, 2);
    assert(!crate::eq::index_bit(0, 0) && crate::eq::index_bit(1, 0));
    lemma_mul_one(fadd(fone(), r));
    lemma_mul_one(r);
    assert(eq_table(Seq::<F128>::empty()) =~= seq![fone()]);
}

/// An inner weight is the Lagrange weight of the low part of its index times the equality
/// weight of the high part.
pub proof fn lemma_inner_weights_factor(
    z_skip: F128,
    rest: Seq<F128>,
    k_skip: nat,
    lo: int,
    hi: int,
)
    requires
        0 <= lo < pow2(k_skip),
        0 <= hi < pow2(rest.len()),
    ensures
        quirky_eq_table(z_skip, rest, k_skip).len() == pow2(k_skip + rest.len()),
        quirky_eq_table(z_skip, rest, k_skip)[hi * pow2(k_skip) + lo] == fmul(
            crate::eq::lagrange_weights(k_skip, z_skip)[lo],
            eq_weight(rest, hi),
        ),
{
    let n = pow2(k_skip) as int;
    vstd::arithmetic::power2::lemma_pow2_adds(k_skip, rest.len());
    crate::num::lemma_row_div(hi, lo, n);
    crate::num::lemma_row_bound(hi, lo, pow2(rest.len()) as int, n);
    assert(pow2(rest.len()) * n == pow2(k_skip + rest.len())) by (nonlinear_arith)
        requires
            n * pow2(rest.len()) == pow2(k_skip + rest.len()),
    ;
}

/// Outer weights in two factors are those of the whole table: the low factor belongs to the
/// low part of an index, and factors that are weights at two points give the weights at the
/// two points joined.
pub proof fn lemma_outer_weights_factor(lo: &[F128], hi: &[F128], i: int, j: int)
    requires
        0 <= i < lo@.len(),
        0 <= j < hi@.len(),
    ensures
        OuterWeights::Full(lo).count() == lo@.len(),
        OuterWeights::Full(lo).weight()(i) == lo@[i],
        OuterWeights::Split(lo, hi).count() == lo@.len() * hi@.len(),
        OuterWeights::Split(lo, hi).weight()(j * lo@.len() + i) == fmul(lo@[i], hi@[j]),
        split_weights(lo@, hi@)(j * lo@.len() + i) == fmul(lo@[i], hi@[j]),
        forall|p: Seq<F128>, q: Seq<F128>|
            lo@ == #[trigger] eq_table(p) && hi@ == #[trigger] eq_table(q) ==> OuterWeights::Split(
                lo,
                hi,
            ).weight()(j * lo@.len() + i) == eq_weight(p + q, j * lo@.len() + i),
{
    let n = lo@.len() as int;
    crate::num::lemma_row_div(j, i, n);
    assert forall|p: Seq<F128>, q: Seq<F128>|
        lo@ == #[trigger] eq_table(p) && hi@ == #[trigger] eq_table(q) implies OuterWeights::Split(
        lo,
        hi,
    ).weight()(j * lo@.len() + i) == eq_weight(p + q, j * lo@.len() + i) by {
        crate::num::lemma_row_bound(j, i, hi@.len() as int, n);
        let h = hi@.len() as int;
        vstd::arithmetic::power2::lemma_pow2_adds(p.len(), q.len());
        assert(j * n + i >= 0) by (nonlinear_arith)
            requires
                j >= 0,
                n >= 0,
                i >= 0,
        ;
        assert(h * n == n * h) by (nonlinear_arith);
        lemma_eq_weight_factors(p, q, j * n + i);
    }
}

} // verus!

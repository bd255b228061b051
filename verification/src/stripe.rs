//! The byte-stripe witness layout and the partial folds that read it.
//!
//! Bit `z[i, o]` of inner column `i` and outer index `o = 8 s + r` is bit `r` of
//! byte `s * k + i`: stripe `s` holds one byte per inner column.

use crate::bits::{byte_bit, field_bit_at, lemma_set_bit};
use crate::field::{fadd, fbit, fzero, lemma_add_assoc, lemma_add_zero, F128};
use crate::fold::{chunk_part, div_up, join_chunks, lemma_chunk_place, lemma_fold_workers, owner_of, part8, reduce_partials, wfold, worker_part};
use crate::num::{lemma_pow2_by_8, lemma_pow2_split, lemma_row_bound, lemma_row_div, pow2_usize};
use crate::par::{par_map, pool_threads};
use crate::sums::{chunk_count, chunk_len, fsum, lemma_sum_ext, sel, zeros};
use crate::tables::{build_sum_table, byte_sum};
use vstd::arithmetic::power2::pow2;
use vstd::prelude::*;
use vstd::slice::slice_subrange;

verus! {

/// Stripes whose tables are held together by the tiled folds.
pub const TILE_T: usize = 8;

/// The bits of inner column `i`, by outer index.
pub open spec fn stripe_bits(z: Seq<u8>, k: int, i: int) -> spec_fn(int) -> bool {
    |o: int| byte_bit(z[(o / 8) * k + i], (o % 8) as nat)
}

/// A table of weights as a function of the outer index.
pub open spec fn weights(eq: Seq<F128>) -> spec_fn(int) -> F128 {
    |o: int| eq[o]
}

/// The partial fold of column `i`: the sum of `eq[o]` over the set bits `z[i, o]`.
pub open spec fn stripe_fold(z: Seq<u8>, k: int, eq: Seq<F128>, i: int) -> F128 {
    wfold(eq.len(), stripe_bits(z, k, i), weights(eq))
}

/// Whether a packed witness and an outer table have the sizes of `(m, k_log)`.
pub open spec fn stripe_shape(z: Seq<u8>, m: int, k_log: int, eq: Seq<F128>) -> bool {
    &&& 0 <= k_log
    &&& k_log + 3 <= m < usize::BITS
    &&& z.len() == pow2(m as nat) / 8
    &&& eq.len() == pow2((m - k_log) as nat)
}

/// The fold of the first `live` columns, zero beyond them.
pub open spec fn is_stripe_fold(
    z: Seq<u8>,
    k: int,
    eq: Seq<F128>,
    live: int,
    out: Seq<F128>,
) -> bool {
    &&& out.len() == k
    &&& forall|i: int|
        0 <= i < k ==> #[trigger] out[i] == if i < live {
            stripe_fold(z, k, eq, i)
        } else {
            fzero()
        }
}

/// `n` rounded up to a multiple of `g`, but at most `k`.
pub open spec fn live_cols(n: int, g: int, k: int) -> int {
    let up = ((n + g - 1) / g) * g;
    if up <= k {
        up
    } else {
        k
    }
}

pub proof fn lemma_stripe_sizes(m: nat, k_log: nat)
    requires
        k_log + 3 <= m,
    ensures
        pow2(m) / 8 == pow2((m - k_log - 3) as nat) * pow2(k_log),
        pow2((m - k_log) as nat) == 8 * pow2((m - k_log - 3) as nat),
        pow2((m - k_log) as nat) / 8 == pow2((m - k_log - 3) as nat),
        pow2((m - k_log - 3) as nat) > 0,
        pow2(k_log) > 0,
        pow2(m) == pow2((m - k_log) as nat) * pow2(k_log),
{
    lemma_pow2_split(m, k_log);
    lemma_pow2_by_8((m - k_log) as nat);
    lemma_pow2_split((m - k_log) as nat, 3);
    let (a, b) = (pow2((m - k_log - 3) as nat) as int, pow2(k_log) as int);
    assert((8 * a) * b == 8 * (a * b)) by (nonlinear_arith);
}

/// The part of stripe `s` is the subset sum of its byte.
proof fn lemma_stripe_part(z: Seq<u8>, k: int, eq: Seq<F128>, s: int, i: int)
    requires
        0 <= s,
        8 * s + 8 <= eq.len(),
    ensures
        part8(stripe_bits(z, k, i), weights(eq), s) == byte_sum(
            z[s * k + i],
            eq.subrange(8 * s, 8 * s + 8),
        ),
{
    let (bit, w) = (stripe_bits(z, k, i), weights(eq));
    let e = eq.subrange(8 * s, 8 * s + 8);
    let f = |r: int| sel(bit(8 * s + r), w(8 * s + r));
    let g = |r: int| sel(byte_bit(z[s * k + i], r as nat), e[r]);
    assert forall|r: int| 0 <= r < 8 implies #[trigger] f(r) == g(r) by {
        assert((8 * s + r) / 8 == s && (8 * s + r) % 8 == r);
    }
    lemma_sum_ext(8, f, g);
}

/// Scalar reference fold: every set bit adds its outer weight.
pub fn partial_fold_packed_z(z_packed: &[u8], m: usize, k_log: usize, eq_outer: &[F128]) -> (out: Vec<
    F128,
>)
    requires
        stripe_shape(z_packed@, m as int, k_log as int, eq_outer@),
    ensures
        is_stripe_fold(
            z_packed@,
            pow2(k_log as nat) as int,
            eq_outer@,
            pow2(k_log as nat) as int,
            out@,
        ),
{
    proof {
        lemma_stripe_sizes(m as nat, k_log as nat);
    }
    let k: usize = pow2_usize(k_log);
    let n_outer: usize = pow2_usize(m - k_log);
    let n_stripes: usize = n_outer / 8;
    let z_len: usize = z_packed.len();
    let mut out: Vec<F128> = zeros(k);
    let mut s: usize = 0;
    while s < n_stripes
        invariant
            s <= n_stripes,
            k > 0,
            out@.len() == k,
            z_len == z_packed@.len(),
            z_packed@.len() == n_stripes * k,
            eq_outer@.len() == 8 * n_stripes,
            n_outer == 8 * n_stripes,
            forall|i: int|
                0 <= i < k ==> #[trigger] out@[i] == wfold(
                    (8 * s) as nat,
                    stripe_bits(z_packed@, k as int, i),
                    weights(eq_outer@),
                ),
        decreases n_stripes - s,
    {
        let mut i: usize = 0;
        while i < k
            invariant
                i <= k,
                k > 0,
                s < n_stripes,
                out@.len() == k,
                z_len == z_packed@.len(),
                z_packed@.len() == n_stripes * k,
                eq_outer@.len() == 8 * n_stripes,
                n_outer == 8 * n_stripes,
                forall|c: int|
                    0 <= c < k ==> #[trigger] out@[c] == wfold(
                        if c < i {
                            (8 * s + 8) as nat
                        } else {
                            (8 * s) as nat
                        },
                        stripe_bits(z_packed@, k as int, c),
                        weights(eq_outer@),
                    ),
            decreases k - i,
        {
            proof {
                lemma_row_bound(s as int, i as int, n_stripes as int, k as int);
            }
            let byte: u8 = z_packed[s * k + i];
            let ghost bits = stripe_bits(z_packed@, k as int, i as int);
            let ghost w = weights(eq_outer@);
            let mut acc: F128 = out[i];
            let mut r: usize = 0;
            while r < 8
                invariant
                    r <= 8,
                    s < n_stripes,
                    eq_outer@.len() == 8 * n_stripes,
                    n_outer == 8 * n_stripes,
                    bits == stripe_bits(z_packed@, k as int, i as int),
                    w == weights(eq_outer@),
                    byte == z_packed@[s * k + i],
                    acc == wfold((8 * s + r) as nat, bits, w),
                decreases 8 - r,
            {
                proof {
                    assert((8 * s + r) as int / 8 == s && (8 * s + r) as int % 8 == r);
                    lemma_add_zero(acc);
                }
                if (byte >> (r as u8)) & 1 == 1 {
                    acc = acc + eq_outer[8 * s + r];
                }
                r = r + 1;
            }
            out.set(i, acc);
            i = i + 1;
        }
        s = s + 1;
    }
    out
}

/// Builds the tables of `n` stripes from `stripe_base` on.
fn tile_tables(eq: &[F128], stripe_base: usize, n: usize, tables: &mut Vec<F128>)
    requires
        n <= TILE_T,
        old(tables)@.len() == TILE_T * 256,
        8 * (stripe_base + n) <= eq@.len(),
    ensures
        final(tables)@.len() == TILE_T * 256,
        forall|t: int, b: u8|
            0 <= t < n ==> #[trigger] final(tables)@[t * 256 + b] == byte_sum(
                b,
                eq@.subrange(8 * (stripe_base + t), 8 * (stripe_base + t) + 8),
            ),
{
    let eq_len: usize = eq.len();
    let mut t: usize = 0;
    while t < n
        invariant
            t <= n,
            n <= TILE_T,
            tables@.len() == TILE_T * 256,
            eq_len == eq@.len(),
            8 * (stripe_base + n) <= eq_len,
            forall|u: int, b: u8|
                0 <= u < t ==> #[trigger] tables@[u * 256 + b] == byte_sum(
                    b,
                    eq@.subrange(8 * (stripe_base + u), 8 * (stripe_base + u) + 8),
                ),
        decreases n - t,
    {
        let at: usize = 8 * (stripe_base + t);
        let eq8: &[F128] = slice_subrange(eq, at, at + 8);
        let ghost before = tables@;
        build_sum_table(eq8, tables, t * 256);
        proof {
            assert forall|u: int, b: u8| 0 <= u < t + 1 implies #[trigger] tables@[u * 256 + b]
                == byte_sum(
                b,
                eq@.subrange(8 * (stripe_base + u), 8 * (stripe_base + u) + 8),
            ) by {
                if u < t {
                    assert(tables@[u * 256 + b] == before[u * 256 + b]);
                } else {
                    assert(tables@[(t * 256) as int + b] == byte_sum(b, eq8@));
                }
            }
        }
        t = t + 1;
    }
}

/// Adds the entries of `n` stripe tables to the accumulators of columns
/// `[lo, hi)`.
fn tile_accumulate(
    z: &[u8],
    k: usize,
    n_stripes: usize,
    eq: &[F128],
    stripe_base: usize,
    n: usize,
    tables: &Vec<F128>,
    lo: usize,
    hi: usize,
    acc: &mut Vec<F128>,
)
    requires
        n <= TILE_T,
        tables@.len() == TILE_T * 256,
        stripe_base + n <= n_stripes,
        z@.len() == n_stripes * k,
        eq@.len() == 8 * n_stripes,
        lo <= hi <= k,
        old(acc)@.len() == hi - lo,
        forall|t: int, b: u8|
            0 <= t < n ==> #[trigger] tables@[t * 256 + b] == byte_sum(
                b,
                eq@.subrange(8 * (stripe_base + t), 8 * (stripe_base + t) + 8),
            ),
    ensures
        final(acc)@.len() == hi - lo,
        forall|i: int|
            lo <= i < hi ==> #[trigger] final(acc)@[i - lo] == fadd(
                old(acc)@[i - lo],
                fsum(
                    n as nat,
                    |j: int|
                        part8(stripe_bits(z@, k as int, i), weights(eq@), stripe_base + j),
                ),
            ),
{
    let ghost before = acc@;
    let z_len: usize = z.len();
    let mut i: usize = lo;
    while i < hi
        invariant
            lo <= i <= hi,
            hi <= k,
            n <= TILE_T,
            tables@.len() == TILE_T * 256,
            stripe_base + n <= n_stripes,
            z_len == z@.len(),
            z@.len() == n_stripes * k,
            eq@.len() == 8 * n_stripes,
            before.len() == hi - lo,
            acc@.len() == hi - lo,
            forall|t: int, b: u8|
                0 <= t < n ==> #[trigger] tables@[t * 256 + b] == byte_sum(
                    b,
                    eq@.subrange(8 * (stripe_base + t), 8 * (stripe_base + t) + 8),
                ),
            forall|c: int|
                lo <= c < i ==> #[trigger] acc@[c - lo] == fadd(
                    before[c - lo],
                    fsum(
                        n as nat,
                        |j: int|
                            part8(stripe_bits(z@, k as int, c), weights(eq@), stripe_base + j),
                    ),
                ),
            forall|c: int| i <= c < hi ==> #[trigger] acc@[c - lo] == before[c - lo],
        decreases hi - i,
    {
        let mut a: F128 = acc[i - lo];
        let ghost start = a;
        let ghost f = |j: int| part8(stripe_bits(z@, k as int, i as int), weights(eq@), stripe_base + j);
        let mut t: usize = 0;
        proof {
            lemma_add_zero(start);
        }
        while t < n
            invariant
                t <= n,
                n <= TILE_T,
                i < hi,
                hi <= k,
                tables@.len() == TILE_T * 256,
                stripe_base + n <= n_stripes,
                z_len == z@.len(),
                z@.len() == n_stripes * k,
                eq@.len() == 8 * n_stripes,
                f == (|j: int|
                    part8(stripe_bits(z@, k as int, i as int), weights(eq@), stripe_base + j)),
                forall|t: int, b: u8|
                    0 <= t < n ==> #[trigger] tables@[t * 256 + b] == byte_sum(
                        b,
                        eq@.subrange(8 * (stripe_base + t), 8 * (stripe_base + t) + 8),
                    ),
                a == fadd(start, fsum(t as nat, f)),
            decreases n - t,
        {
            proof {
                lemma_row_bound((stripe_base + t) as int, i as int, n_stripes as int, k as int);
                lemma_stripe_part(z@, k as int, eq@, (stripe_base + t) as int, i as int);
                lemma_add_assoc(start, fsum(t as nat, f), f(t as int));
            }
            let byte: u8 = z[(stripe_base + t) * k + i];
            assert(tables@[t * 256 + byte] == byte_sum(
                byte,
                eq@.subrange(8 * (stripe_base + t), 8 * (stripe_base + t) + 8),
            ));
            a = a + tables[t * 256 + byte as usize];
            t = t + 1;
        }
        acc.set(i - lo, a);
        i = i + 1;
    }
}

/// The worker that sweeps tile `t`.
pub fn owner_at(t: usize, grab: usize, workers: usize) -> (r: usize)
    requires
        grab > 0,
        workers > 0,
    ensures
        r == owner_of(t as int, grab as int, workers as int),
        r < workers,
{
    (t / grab) % workers
}

/// What worker `v` accumulates for columns `[lo, hi)` when the stripes are cut
/// into tiles of `tile` and the workers take `grab` tiles in turn.
fn stripe_worker(
    z: &[u8],
    k: usize,
    n_stripes: usize,
    eq: &[F128],
    lo: usize,
    hi: usize,
    tile: usize,
    grab: usize,
    workers: usize,
    v: usize,
) -> (acc: Vec<F128>)
    requires
        0 < tile <= TILE_T,
        grab > 0,
        workers > 0,
        z@.len() == n_stripes * k,
        eq@.len() == 8 * n_stripes,
        lo <= hi <= k,
    ensures
        acc@.len() == hi - lo,
        forall|i: int|
            lo <= i < hi ==> #[trigger] acc@[i - lo] == worker_part(
                stripe_bits(z@, k as int, i),
                weights(eq@),
                n_stripes as nat,
                tile as nat,
                grab as int,
                workers as int,
                v as int,
            ),
{
    let mut acc: Vec<F128> = zeros(hi - lo);
    let mut tables: Vec<F128> = zeros(TILE_T * 256);
    let eq_len: usize = eq.len();
    let tiles: usize = div_up(n_stripes, tile);
    let mut t: usize = 0;
    while t < tiles
        invariant
            t <= tiles,
            0 < tile <= TILE_T,
            grab > 0,
            workers > 0,
            tiles == chunk_count(n_stripes as nat, tile as nat),
            z@.len() == n_stripes * k,
            eq_len == eq@.len(),
            eq@.len() == 8 * n_stripes,
            lo <= hi <= k,
            acc@.len() == hi - lo,
            tables@.len() == TILE_T * 256,
            forall|i: int|
                lo <= i < hi ==> #[trigger] acc@[i - lo] == fsum(
                    t as nat,
                    |u: int|
                        sel(
                            owner_of(u, grab as int, workers as int) == v,
                            chunk_part(
                                stripe_bits(z@, k as int, i),
                                weights(eq@),
                                n_stripes as nat,
                                tile as nat,
                                u,
                            ),
                        ),
                ),
        decreases tiles - t,
    {
        let ghost before = acc@;
        if owner_at(t, grab, workers) == v {
            let n: usize = crate::fold::chunk_len_at(n_stripes, tile, t);
            let base: usize = t * tile;
            tile_tables(eq, base, n, &mut tables);
            tile_accumulate(z, k, n_stripes, eq, base, n, &tables, lo, hi, &mut acc);
        }
        proof {
            assert forall|i: int| lo <= i < hi implies #[trigger] acc@[i - lo] == fsum(
                (t + 1) as nat,
                |u: int|
                    sel(
                        owner_of(u, grab as int, workers as int) == v,
                        chunk_part(
                            stripe_bits(z@, k as int, i),
                            weights(eq@),
                            n_stripes as nat,
                            tile as nat,
                            u,
                        ),
                    ),
            ) by {
                lemma_add_zero(before[i - lo]);
                let n = chunk_len(n_stripes as nat, tile as nat, t as int);
                let bits = stripe_bits(z@, k as int, i);
                lemma_sum_ext(
                    n,
                    |j: int| part8(bits, weights(eq@), (t * tile) as int + j),
                    |j: int| part8(bits, weights(eq@), (t as int) * tile + j),
                );
            }
        }
        t = t + 1;
    }
    acc
}

/// Sweeps the stripes with `workers` private accumulators and adds them up. The
/// first `live` columns are folded, the others are zero.
pub fn stripe_sweep(
    z: &[u8],
    k: usize,
    n_stripes: usize,
    eq: &[F128],
    live: usize,
    tile: usize,
    grab: usize,
    workers: usize,
) -> (out: Vec<F128>)
    requires
        0 < tile <= TILE_T,
        grab > 0,
        workers > 0,
        z@.len() == n_stripes * k,
        eq@.len() == 8 * n_stripes,
        live <= k,
    ensures
        is_stripe_fold(z@, k as int, eq@, live as int, out@),
{
    let f = |v: usize| -> (r: Vec<F128>)
        requires
            0 < tile <= TILE_T,
            grab > 0,
            workers > 0,
            z@.len() == n_stripes * k,
            eq@.len() == 8 * n_stripes,
            live <= k,
        ensures
            r@.len() == live,
            forall|i: int|
                0 <= i < live ==> #[trigger] r@[i] == worker_part(
                    stripe_bits(z@, k as int, i),
                    weights(eq@),
                    n_stripes as nat,
                    tile as nat,
                    grab as int,
                    workers as int,
                    v as int,
                ),
    {
        let acc: Vec<F128> = stripe_worker(z, k, n_stripes, eq, 0, live, tile, grab, workers, v);
        proof {
            assert forall|i: int| 0 <= i < live implies #[trigger] acc@[i] == worker_part(
                stripe_bits(z@, k as int, i),
                weights(eq@),
                n_stripes as nat,
                tile as nat,
                grab as int,
                workers as int,
                v as int,
            ) by {
                assert(acc@[i] == acc@[i - 0]);
            }
        }
        acc
    };
    let partials: Vec<Vec<F128>> = par_map(workers, f);
    let mut out: Vec<F128> = reduce_partials(&partials, live);
    proof {
        assert forall|i: int| 0 <= i < live implies #[trigger] out@[i] == stripe_fold(
            z@,
            k as int,
            eq@,
            i,
        ) by {
            let (bits, w) = (stripe_bits(z@, k as int, i), weights(eq@));
            lemma_fold_workers(
                n_stripes as nat,
                tile as nat,
                grab as int,
                workers as nat,
                bits,
                w,
            );
            let g = |v: int|
                worker_part(
                    bits,
                    w,
                    n_stripes as nat,
                    tile as nat,
                    grab as int,
                    workers as int,
                    v,
                );
            let h = |v: int| partials@[v]@[i];
            assert forall|v: int| 0 <= v < workers implies #[trigger] h(v) == g(v) by {}
            lemma_sum_ext(workers as nat, h, g);
        }
    }
    pad_to(&mut out, k);
    out
}

/// Appends zeros up to length `k`.
pub fn pad_to(out: &mut Vec<F128>, k: usize)
    requires
        old(out)@.len() <= k,
    ensures
        final(out)@.len() == k,
        forall|i: int| 0 <= i < old(out)@.len() ==> #[trigger] final(out)@[i] == old(out)@[i],
        forall|i: int| old(out)@.len() <= i < k ==> #[trigger] final(out)@[i] == fzero(),
{
    let ghost before = out@;
    while out.len() < k
        invariant
            before.len() <= out@.len() <= k,
            forall|i: int| 0 <= i < before.len() ==> #[trigger] out@[i] == before[i],
            forall|i: int| before.len() <= i < out@.len() ==> #[trigger] out@[i] == fzero(),
        decreases k - out@.len(),
    {
        out.push(F128::zero());
    }
}

/// `n` rounded up to a multiple of `g`, but at most `k`.
pub fn live_cols_at(n: usize, g: usize, k: usize) -> (r: usize)
    requires
        g > 0,
        n <= k,
    ensures
        r == live_cols(n as int, g as int, k as int),
        n <= r <= k,
{
    let blocks: usize = div_up(n, g);
    proof {
        let (x, d, b) = (n as int, g as int, blocks as int);
        vstd::arithmetic::div_mod::lemma_fundamental_div_mod(x + d - 1, d);
        assert(b * d == d * b) by (nonlinear_arith);
        assert((k as int / d) * d <= k) by {
            vstd::arithmetic::div_mod::lemma_fundamental_div_mod(k as int, d);
            assert((k as int / d) * d == d * (k as int / d)) by (nonlinear_arith);
        }
        if b <= k as int / d {
            assert(b * d <= (k as int / d) * d) by (nonlinear_arith)
                requires
                    b <= k as int / d,
                    d > 0,
            ;
        } else {
            vstd::arithmetic::div_mod::lemma_fundamental_div_mod(k as int, d);
            assert(b * d > k) by (nonlinear_arith)
                requires
                    b >= k as int / d + 1,
                    k as int == d * (k as int / d) + (k as int % d),
                    k as int % d < d,
                    d > 0,
            ;
        }
    }
    if blocks <= k / g {
        blocks * g
    } else {
        k
    }
}

/// The number of workers for `n` items on a pool of `threads` threads: one for each
/// thread, but no more than there are items, and at least one.
pub fn workers_on(n: usize, threads: usize) -> (r: usize)
    ensures
        r == if threads == 0 || n == 0 {
            1
        } else if threads < n {
            threads
        } else {
            n
        },
{
    if threads == 0 || n == 0 {
        1
    } else if threads < n {
        threads
    } else {
        n
    }
}

/// The number of workers for `n` items on the current pool, whose width depends on the
/// machine: at least one, and beyond that no more than there are items.
pub fn workers_for(n: usize) -> (r: usize)
    ensures
        r > 0,
        r <= n || r == 1,
{
    workers_on(n, pool_threads())
}

/// The fold with one 256-entry table per stripe.
pub fn partial_fold_packed_z_fast(
    z_packed: &[u8],
    m: usize,
    k_log: usize,
    eq_outer: &[F128],
) -> (out: Vec<F128>)
    requires
        stripe_shape(z_packed@, m as int, k_log as int, eq_outer@),
    ensures
        is_stripe_fold(
            z_packed@,
            pow2(k_log as nat) as int,
            eq_outer@,
            pow2(k_log as nat) as int,
            out@,
        ),
{
    let k: usize = pow2_usize(k_log);
    partial_fold_packed_z_fast_padded(z_packed, m, k_log, k, eq_outer)
}

/// [`partial_fold_packed_z_fast`] over the first `useful_bits` columns only.
pub fn partial_fold_packed_z_fast_padded(
    z_packed: &[u8],
    m: usize,
    k_log: usize,
    useful_bits: usize,
    eq_outer: &[F128],
) -> (out: Vec<F128>)
    requires
        stripe_shape(z_packed@, m as int, k_log as int, eq_outer@),
        useful_bits <= pow2(k_log as nat),
    ensures
        is_stripe_fold(
            z_packed@,
            pow2(k_log as nat) as int,
            eq_outer@,
            useful_bits as int,
            out@,
        ),
{
    proof {
        lemma_stripe_sizes(m as nat, k_log as nat);
    }
    let k: usize = pow2_usize(k_log);
    let n_outer: usize = pow2_usize(m - k_log);
    let n_stripes: usize = n_outer / 8;
    let per: usize = n_stripes / 256;
    let stripes_per_chunk: usize = if per == 0 {
        1
    } else {
        per
    };
    let workers: usize = workers_for(n_stripes);
    stripe_sweep(
        z_packed,
        k,
        n_stripes,
        eq_outer,
        useful_bits,
        1,
        stripes_per_chunk,
        workers,
    )
}

/// Whether the outer dimension splits into whole tiles of `tile_t` stripes and a
/// stripe into whole groups of eight columns.
pub open spec fn tile_ok(m: int, k_log: int, tile_log: int) -> bool {
    k_log >= 3 && m - k_log >= 3 + tile_log
}

/// Whether the stripes of `(m, k_log)` fall into whole tiles of `tile_t`.
pub open spec fn tiles_evenly(m: int, k_log: int, tile_t: int) -> bool {
    k_log >= 3 && m - k_log >= 3 && tile_t > 0 && pow2((m - k_log - 3) as nat) as int % tile_t == 0
}

/// A power of two is a multiple of `2^tile_log` exactly from there on.
pub proof fn lemma_tiles_evenly(m: int, k_log: int, tile_log: nat)
    ensures
        tiles_evenly(m, k_log, pow2(tile_log) as int) == tile_ok(m, k_log, tile_log as int),
{
    vstd::arithmetic::power2::lemma_pow2_pos(tile_log);
    if m - k_log >= 3 {
        let e = (m - k_log - 3) as nat;
        let (a, t) = (pow2(e) as int, pow2(tile_log) as int);
        vstd::arithmetic::power2::lemma_pow2_pos(e);
        if e >= tile_log {
            crate::num::lemma_pow2_split(e, tile_log);
            let b = pow2((e - tile_log) as nat) as int;
            assert(a % t == 0) by {
                vstd::arithmetic::div_mod::lemma_mod_multiples_basic(b, t);
                assert(b * t == a);
            }
        } else {
            vstd::arithmetic::power2::lemma_pow2_strictly_increases(e, tile_log);
            vstd::arithmetic::div_mod::lemma_small_mod(a as nat, t as nat);
        }
    }
}

/// Whether the tiled folds apply to `(m, k_log)` with tiles of `tile_t` stripes.
pub fn n_log_ok_for_tile(m: usize, k_log: usize, tile_t: usize) -> (r: bool)
    requires
        k_log <= m,
        m - k_log < usize::BITS + 3,
    ensures
        r == tiles_evenly(m as int, k_log as int, tile_t as int),
{
    if k_log < 3 {
        return false;
    }
    let n_log: usize = m - k_log;
    if n_log < 3 {
        return false;
    }
    let n_stripes: usize = pow2_usize(n_log - 3);
    tile_t != 0 && n_stripes % tile_t == 0
}

/// The tiled fold: eight tables at a time, whole groups of eight columns. Tiles
/// are handed out in contiguous runs, `n_tiles / 256` at a time.
pub fn partial_fold_packed_z_x86_tiled_padded(
    z_packed: &[u8],
    m: usize,
    k_log: usize,
    useful_bits: usize,
    eq_outer: &[F128],
) -> (out: Vec<F128>)
    requires
        stripe_shape(z_packed@, m as int, k_log as int, eq_outer@),
        tile_ok(m as int, k_log as int, 3),
        useful_bits <= pow2(k_log as nat),
    ensures
        is_stripe_fold(
            z_packed@,
            pow2(k_log as nat) as int,
            eq_outer@,
            live_cols(useful_bits as int, 8, pow2(k_log as nat) as int),
            out@,
        ),
{
    proof {
        lemma_stripe_sizes(m as nat, k_log as nat);
    }
    let k: usize = pow2_usize(k_log);
    let n_outer: usize = pow2_usize(m - k_log);
    let n_stripes: usize = n_outer / 8;
    let live: usize = live_cols_at(useful_bits, 8, k);
    let n_tiles: usize = n_stripes / TILE_T;
    let per: usize = n_tiles / 256;
    let tiles_per_chunk: usize = if per == 0 {
        1
    } else {
        per
    };
    let workers: usize = workers_for(n_tiles);
    stripe_sweep(z_packed, k, n_stripes, eq_outer, live, TILE_T, tiles_per_chunk, workers)
}

/// The tiled fold over all columns.
pub fn partial_fold_packed_z_neon_single(
    z_packed: &[u8],
    m: usize,
    k_log: usize,
    eq_outer: &[F128],
) -> (out: Vec<F128>)
    requires
        stripe_shape(z_packed@, m as int, k_log as int, eq_outer@),
        tile_ok(m as int, k_log as int, 3),
    ensures
        is_stripe_fold(
            z_packed@,
            pow2(k_log as nat) as int,
            eq_outer@,
            pow2(k_log as nat) as int,
            out@,
        ),
{
    let k: usize = pow2_usize(k_log);
    let out: Vec<F128> = partial_fold_packed_z_neon_single_padded(
        z_packed,
        m,
        k_log,
        k,
        eq_outer,
    );
    proof {
        lemma_live_full(k as int, 8);
    }
    out
}

proof fn lemma_live_full(k: int, g: int)
    requires
        g > 0,
        k >= 0,
    ensures
        live_cols(k, g, k) == k,
{
    vstd::arithmetic::div_mod::lemma_fundamental_div_mod(k + g - 1, g);
    let b = (k + g - 1) / g;
    assert(b * g == g * b) by (nonlinear_arith);
}

/// The tiled fold over the column groups that hold useful bits.
pub fn partial_fold_packed_z_neon_single_padded(
    z_packed: &[u8],
    m: usize,
    k_log: usize,
    useful_bits: usize,
    eq_outer: &[F128],
) -> (out: Vec<F128>)
    requires
        stripe_shape(z_packed@, m as int, k_log as int, eq_outer@),
        tile_ok(m as int, k_log as int, 3),
        useful_bits <= pow2(k_log as nat),
    ensures
        is_stripe_fold(
            z_packed@,
            pow2(k_log as nat) as int,
            eq_outer@,
            live_cols(useful_bits as int, 8, pow2(k_log as nat) as int),
            out@,
        ),
{
    partial_fold_packed_z_x86_tiled_padded(z_packed, m, k_log, useful_bits, eq_outer)
}

/// The tiled fold partitioned by columns: each worker owns a run of columns and
/// sweeps every stripe of it.
pub fn partial_fold_packed_z_neon_iblock_padded(
    z_packed: &[u8],
    m: usize,
    k_log: usize,
    useful_bits: usize,
    eq_outer: &[F128],
) -> (out: Vec<F128>)
    requires
        stripe_shape(z_packed@, m as int, k_log as int, eq_outer@),
        tile_ok(m as int, k_log as int, 3),
        useful_bits <= pow2(k_log as nat),
    ensures
        is_stripe_fold(
            z_packed@,
            pow2(k_log as nat) as int,
            eq_outer@,
            live_cols(useful_bits as int, 8, pow2(k_log as nat) as int),
            out@,
        ),
{
    proof {
        lemma_stripe_sizes(m as nat, k_log as nat);
    }
    let k: usize = pow2_usize(k_log);
    let n_outer: usize = pow2_usize(m - k_log);
    let n_stripes: usize = n_outer / 8;
    let live: usize = live_cols_at(useful_bits, 8, k);
    let workers: usize = workers_for(live);
    let per: usize = live / workers;
    let cols: usize = if per == 0 {
        1
    } else {
        per
    };
    let tasks: usize = div_up(live, cols);
    let f = |t: usize| -> (r: Vec<F128>)
        requires
            tasks > t,
            cols > 0,
            live <= k,
            tasks == chunk_count(live as nat, cols as nat),
            z_packed@.len() == n_stripes * k,
            eq_outer@.len() == 8 * n_stripes,
        ensures
            r@.len() == chunk_len(live as nat, cols as nat, t as int),
            forall|j: int|
                0 <= j < r@.len() ==> #[trigger] r@[j] == stripe_fold(
                    z_packed@,
                    k as int,
                    eq_outer@,
                    t * cols + j,
                ),
    {
        let len: usize = crate::fold::chunk_len_at(live, cols, t);
        let lo: usize = t * cols;
        let acc: Vec<F128> = stripe_worker(
            z_packed,
            k,
            n_stripes,
            eq_outer,
            lo,
            lo + len,
            TILE_T,
            1,
            1,
            0,
        );
        proof {
            assert forall|j: int| 0 <= j < acc@.len() implies #[trigger] acc@[j] == stripe_fold(
                z_packed@,
                k as int,
                eq_outer@,
                t * cols + j,
            ) by {
                let i = lo + j;
                let (bits, w) = (stripe_bits(z_packed@, k as int, i), weights(eq_outer@));
                assert(acc@[j] == acc@[i - lo]);
                lemma_fold_workers(n_stripes as nat, TILE_T as nat, 1, 1, bits, w);
                let g = |v: int| worker_part(bits, w, n_stripes as nat, TILE_T as nat, 1, 1, v);
                assert(fsum(1, g) == fadd(fsum(0, g), g(0)));
                lemma_add_zero(g(0));
            }
        }
        acc
    };
    let parts: Vec<Vec<F128>> = par_map(tasks, f);
    let mut out: Vec<F128> = join_chunks(&parts, live, cols);
    proof {
        assert forall|i: int| 0 <= i < live implies #[trigger] out@[i] == stripe_fold(
            z_packed@,
            k as int,
            eq_outer@,
            i,
        ) by {
            lemma_chunk_place(live as nat, cols as nat, i);
            let d = cols as int;
            assert(parts@[i / d]@[i % d] == stripe_fold(
                z_packed@,
                k as int,
                eq_outer@,
                (i / d) * cols + i % d,
            ));
        }
    }
    pad_to(&mut out, k);
    out
}

/// The tiled fold partitioned by tiles: each worker sweeps one contiguous run of
/// tiles into a private accumulator.
pub fn partial_fold_packed_z_neon_oblock_padded(
    z_packed: &[u8],
    m: usize,
    k_log: usize,
    useful_bits: usize,
    eq_outer: &[F128],
) -> (out: Vec<F128>)
    requires
        stripe_shape(z_packed@, m as int, k_log as int, eq_outer@),
        tile_ok(m as int, k_log as int, 3),
        useful_bits <= pow2(k_log as nat),
    ensures
        is_stripe_fold(
            z_packed@,
            pow2(k_log as nat) as int,
            eq_outer@,
            live_cols(useful_bits as int, 8, pow2(k_log as nat) as int),
            out@,
        ),
{
    proof {
        lemma_stripe_sizes(m as nat, k_log as nat);
    }
    let k: usize = pow2_usize(k_log);
    let n_outer: usize = pow2_usize(m - k_log);
    let n_stripes: usize = n_outer / 8;
    let live: usize = live_cols_at(useful_bits, 8, k);
    let n_tiles: usize = div_up(n_stripes, TILE_T);
    let p: usize = workers_for(n_tiles);
    let tiles_per_worker: usize = div_up(n_tiles, p);
    let workers: usize = div_up(n_tiles, tiles_per_worker);
    stripe_sweep(z_packed, k, n_stripes, eq_outer, live, TILE_T, tiles_per_worker, workers)
}

/// Packs a Boolean witness, indexed `i + o * k`, into the stripe layout.
pub fn pack_z_lincheck(z_logical: &[bool], m: usize, k_log: usize) -> (out: Vec<u8>)
    requires
        k_log + 3 <= m < usize::BITS,
        z_logical@.len() == pow2(m as nat),
    ensures
        out@.len() == pow2(m as nat) / 8,
        forall|i: int, o: int|
            0 <= i < pow2(k_log as nat) && 0 <= o < pow2((m - k_log) as nat)
                ==> #[trigger] stripe_bits(out@, pow2(k_log as nat) as int, i)(o) == z_logical@[i + o
                * pow2(k_log as nat)],
{
    proof {
        lemma_stripe_sizes(m as nat, k_log as nat);
    }
    let k: usize = pow2_usize(k_log);
    let n_outer: usize = pow2_usize(m - k_log);
    let n_stripes: usize = n_outer / 8;
    let total: usize = z_logical.len();
    let mut out: Vec<u8> = Vec::new();
    let mut s: usize = 0;
    proof {
        assert(0 * (k as int) == 0);
    }
    while s < n_stripes
        invariant
            s <= n_stripes,
            k > 0,
            total == z_logical@.len(),
            z_logical@.len() == n_outer * k,
            n_outer == 8 * n_stripes,
            out@.len() == s * k,
            forall|p: int, r: nat|
                0 <= p < out@.len() && r < 8 ==> #[trigger] byte_bit(out@[p], r) == z_logical@[p % (
                k as int) + (8 * (p / (k as int)) + r) * k],
        decreases n_stripes - s,
    {
        let mut i: usize = 0;
        while i < k
            invariant
                i <= k,
                k > 0,
                s < n_stripes,
                total == z_logical@.len(),
                z_logical@.len() == n_outer * k,
                n_outer == 8 * n_stripes,
                out@.len() == s * k + i,
                forall|p: int, r: nat|
                    0 <= p < out@.len() && r < 8 ==> #[trigger] byte_bit(out@[p], r)
                        == z_logical@[p % (k as int) + (8 * (p / (k as int)) + r) * k],
            decreases k - i,
        {
            let mut byte: u8 = 0;
            let mut r: usize = 0;
            proof {
                assert forall|t: nat| t < 8 implies !byte_bit(0u8, t) by {
                    lemma_set_bit(0, 0, t);
                }
            }
            while r < 8
                invariant
                    r <= 8,
                    i < k,
                    s < n_stripes,
                    total == z_logical@.len(),
                    z_logical@.len() == n_outer * k,
                    n_outer == 8 * n_stripes,
                    forall|t: nat|
                        t < 8 ==> #[trigger] byte_bit(byte, t) == (t < r && z_logical@[i + (8 * s
                            + t) * k]),
                decreases 8 - r,
            {
                proof {
                    lemma_row_bound((8 * s + r) as int, i as int, n_outer as int, k as int);
                }
                if z_logical[i + (8 * s + r) * k] {
                    let ghost prior = byte;
                    byte = byte | (1u8 << (r as u8));
                    proof {
                        assert forall|t: nat| t < 8 implies #[trigger] byte_bit(byte, t) == (t < r
                            + 1 && z_logical@[i + (8 * s + t) * k]) by {
                            lemma_set_bit(prior, r as u8, t);
                        }
                    }
                }
                r = r + 1;
            }
            proof {
                lemma_row_div(s as int, i as int, k as int);
            }
            out.push(byte);
            i = i + 1;
        }
        proof {
            assert((s + 1) * k == s * k + k) by (nonlinear_arith);
        }
        s = s + 1;
    }
    proof {
        assert forall|i: int, o: int|
            0 <= i < pow2(k_log as nat) && 0 <= o < pow2((m - k_log) as nat) implies #[trigger] stripe_bits(
            out@,
            pow2(k_log as nat) as int,
            i,
        )(o) == z_logical@[i + o * pow2(k_log as nat)] by {
            let (q, r) = (o / 8, o % 8);
            lemma_row_bound(q, i, n_stripes as int, k as int);
            lemma_row_div(q, i, k as int);
            assert(byte_bit(out@[q * k + i], r as nat) == z_logical@[i + (8 * q + r) * k]);
        }
    }
    out
}

/// One stripe of the layout, read from a witness with 128 bits per element.
fn pack_stripe(z: &[F128], k: usize, n_stripes: usize, s: usize) -> (out: Vec<u8>)
    requires
        k > 0,
        s < n_stripes,
        z@.len() * 128 == 8 * n_stripes * k,
        8 * n_stripes * k <= usize::MAX,
    ensures
        out@.len() == k,
        forall|i: int, r: nat|
            0 <= i < k && r < 8 ==> #[trigger] byte_bit(out@[i], r) == logical_bit(
                z@,
                i + (8 * s + r) * k,
            ),
{
    let mut out: Vec<u8> = Vec::new();
    let mut i: usize = 0;
    while i < k
        invariant
            i <= k,
            s < n_stripes,
            z@.len() * 128 == 8 * n_stripes * k,
            8 * n_stripes * k <= usize::MAX,
            out@.len() == i,
            forall|c: int, r: nat|
                0 <= c < i && r < 8 ==> #[trigger] byte_bit(out@[c], r) == logical_bit(
                    z@,
                    c + (8 * s + r) * k,
                ),
        decreases k - i,
    {
        let mut byte: u8 = 0;
        let mut r: usize = 0;
        proof {
            assert forall|t: nat| t < 8 implies !byte_bit(0u8, t) by {
                lemma_set_bit(0, 0, t);
            }
        }
        while r < 8
            invariant
                r <= 8,
                i < k,
                s < n_stripes,
                z@.len() * 128 == 8 * n_stripes * k,
                8 * n_stripes * k <= usize::MAX,
                forall|t: nat|
                    t < 8 ==> #[trigger] byte_bit(byte, t) == (t < r && logical_bit(
                        z@,
                        i + (8 * s + t) * k,
                    )),
            decreases 8 - r,
        {
            proof {
                let o = (8 * s + r) as int;
                lemma_row_bound(o, i as int, 8 * n_stripes as int, k as int);
                assert(8 * n_stripes >= n_stripes) by (nonlinear_arith);
                let kk = k as int;
                assert(8 * n_stripes <= 8 * n_stripes * kk) by (nonlinear_arith)
                    requires
                        kk >= 1,
                ;
            }
            let idx: usize = i + (8 * s + r) * k;
            if field_bit_at(z[idx / 128], idx % 128) {
                let ghost prior = byte;
                byte = byte | (1u8 << (r as u8));
                proof {
                    assert forall|t: nat| t < 8 implies #[trigger] byte_bit(byte, t) == (t < r + 1
                        && logical_bit(z@, i + (8 * s + t) * k)) by {
                        lemma_set_bit(prior, r as u8, t);
                    }
                }
            }
            r = r + 1;
        }
        out.push(byte);
        i = i + 1;
    }
    out
}

/// Bit `i` of a witness packed 128 bits per element.
pub open spec fn logical_bit(z: Seq<F128>, i: int) -> bool {
    fbit(z[i / 128], (i % 128) as nat)
}

/// Packs a witness with 128 bits per element into the stripe layout.
pub fn pack_z_lincheck_from_packed(z_packed_f128: &[F128], m: usize, k_log: usize) -> (out: Vec<u8>)
    requires
        7 <= m < usize::BITS,
        k_log + 3 <= m,
        z_packed_f128@.len() == pow2(m as nat) / 128,
    ensures
        out@.len() == pow2(m as nat) / 8,
        forall|i: int, o: int|
            0 <= i < pow2(k_log as nat) && 0 <= o < pow2((m - k_log) as nat)
                ==> #[trigger] stripe_bits(out@, pow2(k_log as nat) as int, i)(o) == logical_bit(
                z_packed_f128@,
                i + o * pow2(k_log as nat),
            ),
{
    proof {
        lemma_stripe_sizes(m as nat, k_log as nat);
        lemma_pow2_split(m as nat, 7);
        vstd::arithmetic::power2::lemma2_to64();
        vstd::bits::lemma_usize_pow2_no_overflow(m as nat);
    }
    let k: usize = pow2_usize(k_log);
    let n_outer: usize = pow2_usize(m - k_log);
    let n_stripes: usize = n_outer / 8;
    proof {
        let (a, b) = (n_stripes as int, k as int);
        assert((8 * a) * b == 8 * (a * b)) by (nonlinear_arith);
        assert(z_packed_f128@.len() * 128 == pow2(m as nat));
    }
    let f = |s: usize| -> (r: Vec<u8>)
        requires
            n_stripes > s,
            k > 0,
            z_packed_f128@.len() * 128 == 8 * n_stripes * k,
            8 * n_stripes * k <= usize::MAX,
        ensures
            r@.len() == k,
            forall|i: int, t: nat|
                0 <= i < k && t < 8 ==> #[trigger] byte_bit(r@[i], t) == logical_bit(
                    z_packed_f128@,
                    i + (8 * s + t) * k,
                ),
    { pack_stripe(z_packed_f128, k, n_stripes, s) };
    let parts: Vec<Vec<u8>> = par_map(n_stripes, f);
    proof {
        let (a, b) = (n_stripes as int, k as int);
        assert(a * b + b - 1 == a * b + (b - 1));
        vstd::arithmetic::div_mod::lemma_fundamental_div_mod_converse(
            a * b + b - 1,
            b,
            a,
            b - 1,
        );
        let total = (n_stripes * k) as nat;
        assert forall|t: int| 0 <= t < n_stripes implies #[trigger] chunk_len(total, k as nat, t)
            == k by {
            lemma_row_bound(t, 0, a, b);
        }
        lemma_row_bound(0, 0, a, b);
        assert(a * b <= 8 * (a * b));
    }
    let out: Vec<u8> = join_chunks(&parts, n_stripes * k, k);
    proof {
        assert forall|i: int, o: int|
            0 <= i < pow2(k_log as nat) && 0 <= o < pow2((m - k_log) as nat) implies #[trigger] stripe_bits(
            out@,
            pow2(k_log as nat) as int,
            i,
        )(o) == logical_bit(z_packed_f128@, i + o * pow2(k_log as nat)) by {
            let (q, r) = (o / 8, o % 8);
            lemma_row_bound(q, i, n_stripes as int, k as int);
            lemma_row_div(q, i, k as int);
            assert(out@[q * k + i] == parts@[q]@[i]);
            assert(byte_bit(parts@[q]@[i], r as nat) == logical_bit(
                z_packed_f128@,
                i + (8 * q + r) * k,
            ));
        }
    }
    out
}

} // verus!

//! The folds that provers call: each picks a kernel and a partition for its
//! shape, and every choice gives the same sums.

use crate::block_major::{bind_top, bind_top_vec, block_bits, block_fold, block_shape, block_sweep, eq8_of, with_bind, FoldOptions, OuterWeights, BLOCK_MAJOR_FACTORED_EQ_LO_LOG, BLOCK_MAJOR_FACTORED_EQ_N_LOG, TILE_GRAB};
use crate::eq::{build_eq_table, eq_table, eq_weight, lemma_eq_weight_factors};
use crate::field::{fadd, fzero, lemma_add_zero, F128};
use crate::fold::{chunk_part, div_up, lemma_fold_workers, owner_of, part8, worker_part};
use crate::gather::DIRECT_FOLD_TILE_STRIPES;
use crate::gfni::{col_of, fold_block_major_gfni, lemma_tile_is_chunk, reduced_block, tile_mats_at};
use crate::num::{lemma_pow2_by_8, lemma_pow2_split, pow2_usize};
use crate::par::{par_map, pool_threads};
use crate::planes::{gfni_fold_tile, lemma_plane_col_zero, lemma_plane_tile, plane_xor, tile_mats};
use crate::stripe::{is_stripe_fold, lemma_stripe_sizes, lemma_tiles_evenly, live_cols, live_cols_at, n_log_ok_for_tile, owner_at, pad_to, stripe_bits, stripe_fold, stripe_shape, tile_ok, weights, workers_for};
use crate::stripe::{partial_fold_packed_z_fast_padded, partial_fold_packed_z_neon_iblock_padded, partial_fold_packed_z_neon_oblock_padded, partial_fold_packed_z_x86_tiled_padded};
use crate::sums::{chunk_count, fsum, lemma_sum_ext, sel};
use crate::tables::byte_sum;
use vstd::arithmetic::power2::pow2;
use vstd::prelude::*;

verus! {

proof fn lemma_block_sizes(m: nat, k_log: nat)
    requires
        7 <= k_log,
        k_log + 3 <= m < usize::BITS,
    ensures
        pow2(k_log) % 128 == 0,
        pow2(k_log) > 0,
        pow2((m - k_log) as nat) == 8 * pow2((m - k_log - 3) as nat),
        pow2((m - k_log - 3) as nat) > 0,
        pow2((m - k_log) as nat) * (pow2(k_log) / 128) * 128 == pow2(m),
        pow2((m - k_log) as nat) <= usize::MAX,
{
    lemma_pow2_split(k_log, 7);
    lemma_pow2_split(m, k_log);
    lemma_pow2_by_8((m - k_log) as nat);
    lemma_pow2_split((m - k_log) as nat, 3);
    vstd::arithmetic::power2::lemma2_to64();
    vstd::bits::lemma_usize_pow2_no_overflow(m);
    vstd::bits::lemma_usize_pow2_no_overflow((m - k_log) as nat);
    let (a, b) = (pow2((m - k_log) as nat) as int, (pow2(k_log) / 128) as int);
    assert(a * b * 128 == a * (128 * b)) by (nonlinear_arith);
}

/// The block-major fold, by the kernel that the options and the shape select, on
/// a pool of `threads` threads.
pub fn block_major_padded_on(
    z_packed: &[F128],
    m: usize,
    k_log: usize,
    useful_bits: usize,
    w: &OuterWeights,
    top_bind: Option<F128>,
    opts: FoldOptions,
    threads: usize,
) -> (out: Vec<F128>)
    requires
        block_shape(z_packed@, m as int, k_log as int, w.count()),
        useful_bits <= pow2(k_log as nat),
    ensures
        out@ == with_bind(
            block_fold(
                z_packed@,
                pow2(k_log as nat) as int,
                w.count(),
                w.weight(),
                useful_bits as int,
            ),
            top_bind,
        ),
{
    proof {
        lemma_block_sizes(m as nat, k_log as nat);
    }
    let k: usize = pow2_usize(k_log);
    let n_outer: usize = pow2_usize(m - k_log);
    let n_stripes: usize = n_outer / 8;
    let n_tiles: usize = div_up(n_stripes, DIRECT_FOLD_TILE_STRIPES);
    let p: usize = if threads == 0 {
        1
    } else {
        threads
    };
    let tiles_per_worker: usize = div_up(n_tiles, p);
    let n_workers: usize = div_up(n_tiles, tiles_per_worker);
    if opts.gfni && n_stripes % DIRECT_FOLD_TILE_STRIPES == 0 && k <= usize::MAX / 16 {
        proof {
            assert(8 * n_tiles == n_stripes);
        }
        return fold_block_major_gfni(
            z_packed,
            k,
            useful_bits,
            n_workers,
            tiles_per_worker,
            n_tiles,
            opts.dynamic,
            opts.fuse,
            w,
            top_bind,
        );
    }
    let grab: usize = if opts.dynamic {
        TILE_GRAB
    } else {
        tiles_per_worker
    };
    let mut out: Vec<F128> = block_sweep(
        z_packed,
        k,
        n_stripes,
        w,
        useful_bits,
        opts,
        grab,
        n_workers,
    );
    match top_bind {
        Some(r) => {
            bind_top_vec(&mut out, r);
        },
        None => {},
    }
    out
}

/// The block-major fold on the current pool.
pub fn partial_fold_packed_z_block_major_padded_with_tables(
    z_packed: &[F128],
    m: usize,
    k_log: usize,
    useful_bits: usize,
    w: &OuterWeights,
    top_bind: Option<F128>,
    opts: FoldOptions,
) -> (out: Vec<F128>)
    requires
        block_shape(z_packed@, m as int, k_log as int, w.count()),
        useful_bits <= pow2(k_log as nat),
    ensures
        out@ == with_bind(
            block_fold(
                z_packed@,
                pow2(k_log as nat) as int,
                w.count(),
                w.weight(),
                useful_bits as int,
            ),
            top_bind,
        ),
{
    let threads: usize = pool_threads();
    block_major_padded_on(z_packed, m, k_log, useful_bits, w, top_bind, opts, threads)
}

/// The block-major fold over all columns.
pub fn partial_fold_packed_z_block_major(
    z_packed: &[F128],
    m: usize,
    k_log: usize,
    eq_outer: &[F128],
) -> (out: Vec<F128>)
    requires
        block_shape(z_packed@, m as int, k_log as int, eq_outer@.len()),
    ensures
        out@ == block_fold(
            z_packed@,
            pow2(k_log as nat) as int,
            eq_outer@.len(),
            weights(eq_outer@),
            pow2(k_log as nat) as int,
        ),
{
    let k: usize = pow2_usize(k_log);
    partial_fold_packed_z_block_major_padded(z_packed, m, k_log, k, eq_outer)
}

/// The block-major fold over the first `useful_bits` columns; the others are
/// zero and their bits are ignored.
pub fn partial_fold_packed_z_block_major_padded(
    z_packed: &[F128],
    m: usize,
    k_log: usize,
    useful_bits: usize,
    eq_outer: &[F128],
) -> (out: Vec<F128>)
    requires
        block_shape(z_packed@, m as int, k_log as int, eq_outer@.len()),
        useful_bits <= pow2(k_log as nat),
    ensures
        out@ == block_fold(
            z_packed@,
            pow2(k_log as nat) as int,
            eq_outer@.len(),
            weights(eq_outer@),
            useful_bits as int,
        ),
{
    let w: OuterWeights = OuterWeights::Full(eq_outer);
    let out: Vec<F128> = partial_fold_packed_z_block_major_padded_with_tables(
        z_packed,
        m,
        k_log,
        useful_bits,
        &w,
        None,
        FoldOptions::portable(),
    );
    proof {
        assert(w.weight() =~= weights(eq_outer@));
    }
    out
}

/// The products of a low and a high factor, by outer index.
pub open spec fn split_weights(lo: Seq<F128>, hi: Seq<F128>) -> spec_fn(int) -> F128 {
    |o: int| crate::field::fmul(lo[o % lo.len() as int], hi[o / lo.len() as int])
}

/// The block-major fold with the outer weights given as two factors.
pub fn partial_fold_packed_z_block_major_factorized_padded(
    z_packed: &[F128],
    m: usize,
    k_log: usize,
    useful_bits: usize,
    eq_lo: &[F128],
    eq_hi: &[F128],
) -> (out: Vec<F128>)
    requires
        block_shape(z_packed@, m as int, k_log as int, eq_lo@.len() * eq_hi@.len()),
        useful_bits <= pow2(k_log as nat),
    ensures
        out@ == block_fold(
            z_packed@,
            pow2(k_log as nat) as int,
            eq_lo@.len() * eq_hi@.len(),
            split_weights(eq_lo@, eq_hi@),
            useful_bits as int,
        ),
{
    partial_fold_packed_z_block_major_factorized_padded_with_top_bind(
        z_packed,
        m,
        k_log,
        useful_bits,
        eq_lo,
        eq_hi,
        None,
    )
}

/// The factorized fold, with the top inner variable bound where a challenge is
/// given.
pub fn partial_fold_packed_z_block_major_factorized_padded_with_top_bind(
    z_packed: &[F128],
    m: usize,
    k_log: usize,
    useful_bits: usize,
    eq_lo: &[F128],
    eq_hi: &[F128],
    top_bind: Option<F128>,
) -> (out: Vec<F128>)
    requires
        block_shape(z_packed@, m as int, k_log as int, eq_lo@.len() * eq_hi@.len()),
        useful_bits <= pow2(k_log as nat),
    ensures
        out@ == with_bind(
            block_fold(
                z_packed@,
                pow2(k_log as nat) as int,
                eq_lo@.len() * eq_hi@.len(),
                split_weights(eq_lo@, eq_hi@),
                useful_bits as int,
            ),
            top_bind,
        ),
{
    let w: OuterWeights = OuterWeights::Split(eq_lo, eq_hi);
    let out: Vec<F128> = partial_fold_packed_z_block_major_padded_with_tables(
        z_packed,
        m,
        k_log,
        useful_bits,
        &w,
        top_bind,
        FoldOptions::portable(),
    );
    proof {
        assert(w.weight() =~= split_weights(eq_lo@, eq_hi@));
    }
    out
}

/// The fold of a block-major witness at the outer point `x_outer`.
pub open spec fn block_fold_at(
    z: Seq<F128>,
    k: int,
    x_outer: Seq<F128>,
    useful: int,
) -> Seq<F128> {
    block_fold(z, k, pow2(x_outer.len()), |o: int| eq_weight(x_outer, o), useful)
}

/// Folds with equal weights are equal.
pub proof fn lemma_block_fold_weights(
    z: Seq<F128>,
    k: int,
    n_outer: nat,
    w: spec_fn(int) -> F128,
    v: spec_fn(int) -> F128,
    useful: int,
)
    requires
        forall|o: int| 0 <= o < n_outer ==> #[trigger] w(o) == v(o),
    ensures
        block_fold(z, k, n_outer, w, useful) == block_fold(z, k, n_outer, v, useful),
{
    let (a, b) = (block_fold(z, k, n_outer, w, useful), block_fold(z, k, n_outer, v, useful));
    assert forall|i: int| 0 <= i < a.len() implies #[trigger] a[i] == b[i] by {
        let bits = block_bits(z, k / 128, i);
        lemma_sum_ext(n_outer, |o: int| sel(bits(o), w(o)), |o: int| sel(bits(o), v(o)));
    }
    assert(a =~= b);
}

/// Splitting the outer point gives the same fold as the full outer table: the
/// factorized weights are the equality weights.
pub proof fn lemma_split_fold(z: Seq<F128>, k: int, x: Seq<F128>, at: int, useful: int)
    requires
        0 <= at <= x.len(),
    ensures
        eq_table(x.take(at)).len() * eq_table(x.skip(at)).len() == pow2(x.len()),
        block_fold(
            z,
            k,
            pow2(x.len()),
            split_weights(eq_table(x.take(at)), eq_table(x.skip(at))),
            useful,
        ) == block_fold_at(z, k, x, useful),
{
    let (p, q) = (x.take(at), x.skip(at));
    assert(p + q =~= x);
    lemma_pow2_split(x.len(), at as nat);
    assert((x.len() - at as nat) as nat == q.len());
    let w = split_weights(eq_table(p), eq_table(q));
    let v = |o: int| eq_weight(x, o);
    let (n, r) = (pow2(p.len()) as int, pow2(q.len()) as int);
    assert forall|o: int| 0 <= o < pow2(x.len()) implies #[trigger] w(o) == v(o) by {
        lemma_eq_weight_factors(p, q, o);
        vstd::arithmetic::div_mod::lemma_fundamental_div_mod(o, n);
        vstd::arithmetic::div_mod::lemma_div_pos_is_pos(o, n);
        assert(o / n < r) by (nonlinear_arith)
            requires
                n * (o / n) + o % n == o,
                0 <= o % n,
                o < n * r,
                n > 0,
        ;
    }
    lemma_block_fold_weights(z, k, pow2(x.len()), w, v, useful);
}

/// The block-major fold at `x_outer`: with two factored tables at
/// [`BLOCK_MAJOR_FACTORED_EQ_N_LOG`] outer variables, with one full table elsewhere.
pub fn fold_block_major_one_shot(
    z: &[F128],
    m: usize,
    k_log: usize,
    useful_bits: usize,
    x_outer: &[F128],
) -> (out: Vec<F128>)
    requires
        block_shape(z@, m as int, k_log as int, pow2(x_outer@.len())),
        x_outer@.len() == m - k_log,
        useful_bits <= pow2(k_log as nat),
    ensures
        out@ == block_fold_at(z@, pow2(k_log as nat) as int, x_outer@, useful_bits as int),
{
    fold_block_major_one_shot_with(z, m, k_log, useful_bits, x_outer, None, FoldOptions::portable())
}

/// [`fold_block_major_one_shot`] with the top inner variable bound at `r_top`.
pub fn fold_block_major_one_shot_bind_top(
    z: &[F128],
    m: usize,
    k_log: usize,
    useful_bits: usize,
    x_outer: &[F128],
    r_top: F128,
) -> (out: Vec<F128>)
    requires
        block_shape(z@, m as int, k_log as int, pow2(x_outer@.len())),
        x_outer@.len() == m - k_log,
        useful_bits <= pow2(k_log as nat),
    ensures
        out@ == bind_top(
            block_fold_at(z@, pow2(k_log as nat) as int, x_outer@, useful_bits as int),
            r_top,
        ),
{
    fold_block_major_one_shot_with(
        z,
        m,
        k_log,
        useful_bits,
        x_outer,
        Some(r_top),
        FoldOptions::portable(),
    )
}

/// [`fold_block_major_one_shot`], carried out as `opts` asks for, and with the top inner
/// variable bound where a challenge is given.
pub fn fold_block_major_one_shot_with(
    z: &[F128],
    m: usize,
    k_log: usize,
    useful_bits: usize,
    x_outer: &[F128],
    top_bind: Option<F128>,
    opts: FoldOptions,
) -> (out: Vec<F128>)
    requires
        block_shape(z@, m as int, k_log as int, pow2(x_outer@.len())),
        x_outer@.len() == m - k_log,
        useful_bits <= pow2(k_log as nat),
    ensures
        out@ == with_bind(
            block_fold_at(z@, pow2(k_log as nat) as int, x_outer@, useful_bits as int),
            top_bind,
        ),
{
    let n_log: usize = m - k_log;
    let ghost k = pow2(k_log as nat) as int;
    if n_log == BLOCK_MAJOR_FACTORED_EQ_N_LOG {
        let (outer_lo, outer_hi) = x_outer.split_at(BLOCK_MAJOR_FACTORED_EQ_LO_LOG);
        let eq_lo: Vec<F128> = build_eq_table(outer_lo);
        let eq_hi: Vec<F128> = build_eq_table(outer_hi);
        proof {
            let at = BLOCK_MAJOR_FACTORED_EQ_LO_LOG as int;
            assert(outer_lo@ =~= x_outer@.take(at));
            assert(outer_hi@ =~= x_outer@.skip(at));
            lemma_split_fold(z@, k, x_outer@, at, useful_bits as int);
        }
        let w: OuterWeights = OuterWeights::Split(eq_lo.as_slice(), eq_hi.as_slice());
        proof {
            assert(w.weight() =~= split_weights(eq_lo@, eq_hi@));
        }
        partial_fold_packed_z_block_major_padded_with_tables(
            z,
            m,
            k_log,
            useful_bits,
            &w,
            top_bind,
            opts,
        )
    } else {
        let eq: Vec<F128> = build_eq_table(x_outer);
        let w: OuterWeights = OuterWeights::Full(eq.as_slice());
        let out: Vec<F128> = partial_fold_packed_z_block_major_padded_with_tables(
            z,
            m,
            k_log,
            useful_bits,
            &w,
            top_bind,
            opts,
        );
        proof {
            lemma_block_fold_weights(
                z@,
                k,
                pow2(x_outer@.len()),
                w.weight(),
                |o: int| eq_weight(x_outer@, o),
                useful_bits as int,
            );
        }
        out
    }
}

/// The planes of worker `v` in the stripe layout.
fn stripe_plane_worker(
    z: &[u8],
    k: usize,
    n_tiles: usize,
    w: &OuterWeights,
    blocks: usize,
    grab: usize,
    workers: usize,
    v: usize,
) -> (planes: Vec<u8>)
    requires
        grab > 0,
        workers > 0,
        64 * n_tiles <= usize::MAX,
        64 * blocks <= k,
        z@.len() == 8 * n_tiles * k,
        w.count() == 64 * n_tiles,
        16 * k <= usize::MAX,
    ensures
        planes@.len() == 16 * k,
        forall|i: int|
            0 <= i < 64 * blocks ==> #[trigger] col_of(planes@, i) == worker_part(
                stripe_bits(z@, k as int, i),
                w.weight(),
                (8 * n_tiles) as nat,
                8,
                grab as int,
                workers as int,
                v as int,
            ),
{
    let mut planes: Vec<u8> = vec![0u8; 16 * k];
    let z_len: usize = z.len();
    let ghost held = |t: nat, i: int|
        fsum(
            t,
            |u: int|
                sel(
                    owner_of(u, grab as int, workers as int) == v,
                    chunk_part(
                        stripe_bits(z@, k as int, i),
                        w.weight(),
                        (8 * n_tiles) as nat,
                        8,
                        u,
                    ),
                ),
        );
    let mut first: bool = true;
    let mut t: usize = 0;
    proof {
        assert forall|i: int| 0 <= i < 64 * blocks implies #[trigger] col_of(planes@, i)
            == fzero() by {
            lemma_plane_col_zero(planes@, 1024 * (i / 64), i % 64);
        }
    }
    while t < n_tiles
        invariant
            t <= n_tiles,
            grab > 0,
            workers > 0,
            64 * n_tiles <= usize::MAX,
            64 * blocks <= k,
            z_len == z@.len(),
            z@.len() == 8 * n_tiles * k,
            w.count() == 64 * n_tiles,
            planes@.len() == 16 * k,
            held == (|t: nat, i: int|
                fsum(
                    t,
                    |u: int|
                        sel(
                            owner_of(u, grab as int, workers as int) == v,
                            chunk_part(
                                stripe_bits(z@, k as int, i),
                                w.weight(),
                                (8 * n_tiles) as nat,
                                8,
                                u,
                            ),
                        ),
                )),
            forall|i: int|
                0 <= i < 64 * blocks ==> #[trigger] col_of(planes@, i) == held(t as nat, i),
            first ==> forall|i: int|
                0 <= i < 64 * blocks ==> #[trigger] col_of(planes@, i) == fzero(),
        decreases n_tiles - t,
    {
        let ghost before = planes@;
        let seed: bool = first;
        if owner_at(t, grab, workers) == v {
            let mats: [u64; 128] = tile_mats_at(w, 8 * t);
            proof {
                let (a, n, c) = (8 * t as int, 8 * n_tiles as int, k as int);
                assert(a * c + 8 * c <= n * c && a * c >= 0) by (nonlinear_arith)
                    requires
                        0 <= a,
                        a + 8 <= n,
                        c >= 0,
                ;
            }
            gfni_fold_tile(z, 8 * t * k, k, blocks, &mats, &mut planes, 0, first);
            first = false;
            proof {
                assert forall|i: int| 0 <= i < 64 * blocks implies #[trigger] col_of(planes@, i)
                    == fadd(
                    if seed {
                        fzero()
                    } else {
                        col_of(before, i)
                    },
                    fsum(
                        8,
                        |j: int| part8(stripe_bits(z@, k as int, i), w.weight(), 8 * t + j),
                    ),
                ) by {
                    lemma_stripe_tile(
                        z@,
                        k as int,
                        8 * t as int,
                        w.weight(),
                        mats@,
                        before,
                        planes@,
                        blocks as int,
                        seed,
                        i,
                    );
                }
            }
        }
        proof {
            assert forall|i: int| 0 <= i < 64 * blocks implies #[trigger] col_of(planes@, i)
                == held((t + 1) as nat, i) by {
                let bits = stripe_bits(z@, k as int, i);
                assert(col_of(before, i) == held(t as nat, i));
                lemma_tile_is_chunk(bits, w.weight(), n_tiles as nat, t as int);
                lemma_add_zero(held(t as nat, i));
            }
        }
        t = t + 1;
    }
    proof {
        assert(chunk_count((8 * n_tiles) as nat, 8) == n_tiles) by {
            assert((8 * n_tiles + 7) / 8 == n_tiles);
        }
    }
    planes
}

/// A stripe tile adds its part to a plane column.
proof fn lemma_stripe_tile(
    z: Seq<u8>,
    k: int,
    base: int,
    w: spec_fn(int) -> F128,
    mats: Seq<u64>,
    old_planes: Seq<u8>,
    new_planes: Seq<u8>,
    blocks: int,
    seed_zero: bool,
    i: int,
)
    requires
        0 <= base,
        0 <= i < 64 * blocks,
        tile_mats(|t: int| eq8_of(w, base + t), mats),
        forall|b: int, j: int, c: int|
            0 <= b < blocks && 0 <= j < 16 && 0 <= c < 64 ==> #[trigger] new_planes[0 + 1024 * b
                + 64 * j + c] == (if seed_zero {
                0u8
            } else {
                old_planes[0 + 1024 * b + 64 * j + c]
            }) ^ plane_xor(mats, z, k, base * k + 64 * b + c, j, 8),
    ensures
        col_of(new_planes, i) == fadd(
            if seed_zero {
                fzero()
            } else {
                col_of(old_planes, i)
            },
            fsum(8, |j: int| part8(stripe_bits(z, k, i), w, base + j)),
        ),
{
    let (b, c) = (i / 64, i % 64);
    let ws = |t: int| eq8_of(w, base + t);
    let at = 1024 * b;
    let pos = base * k + i;
    assert forall|j: int| 0 <= j < 16 implies #[trigger] new_planes[at + 64 * j + c] == (
    if seed_zero {
        0u8
    } else {
        old_planes[at + 64 * j + c]
    }) ^ plane_xor(mats, z, k, pos, j, 8) by {
        assert(base * k + 64 * b + c == pos);
        assert(new_planes[0 + 1024 * b + 64 * j + c] == (if seed_zero {
            0u8
        } else {
            old_planes[0 + 1024 * b + 64 * j + c]
        }) ^ plane_xor(mats, z, k, base * k + 64 * b + c, j, 8));
    }
    lemma_plane_tile(ws, mats, z, k, pos, old_planes, new_planes, at, c, seed_zero);
    let f = |t: int| byte_sum(z[t * k + pos], ws(t));
    let g = |j: int| part8(stripe_bits(z, k, i), w, base + j);
    assert forall|t: int| 0 <= t < 8 implies #[trigger] f(t) == g(t) by {
        let s = base + t;
        assert(t * k + pos == s * k + i) by (nonlinear_arith)
            requires
                pos == base * k + i,
                s == base + t,
        ;
        let x = z[s * k + i];
        let p = |r: int| sel(crate::bits::byte_bit(x, r as nat), eq8_of(w, s)[r]);
        let q = |r: int| sel(stripe_bits(z, k, i)(8 * s + r), w(8 * s + r));
        assert forall|r: int| 0 <= r < 8 implies #[trigger] p(r) == q(r) by {
            assert((8 * s + r) / 8 == s && (8 * s + r) % 8 == r);
        }
        lemma_sum_ext(8, p, q);
    }
    lemma_sum_ext(8, f, g);
}

/// The plane-major stripe fold over the 64-column blocks that hold useful bits.
pub fn partial_fold_packed_z_x86_gfni_padded(
    z_packed: &[u8],
    m: usize,
    k_log: usize,
    useful_bits: usize,
    eq_outer: &[F128],
) -> (out: Vec<F128>)
    requires
        stripe_shape(z_packed@, m as int, k_log as int, eq_outer@),
        k_log >= 6,
        m - k_log >= 6,
        useful_bits <= pow2(k_log as nat),
        16 * pow2(k_log as nat) <= usize::MAX,
    ensures
        is_stripe_fold(
            z_packed@,
            pow2(k_log as nat) as int,
            eq_outer@,
            live_cols(useful_bits as int, 64, pow2(k_log as nat) as int),
            out@,
        ),
{
    proof {
        lemma_stripe_sizes(m as nat, k_log as nat);
        lemma_pow2_by_8((m - k_log - 3) as nat);
        lemma_pow2_split(k_log as nat, 6);
        vstd::arithmetic::power2::lemma2_to64();
    }
    let k: usize = pow2_usize(k_log);
    let n_outer: usize = pow2_usize(m - k_log);
    let n_stripes: usize = n_outer / 8;
    let n_tiles: usize = n_stripes / 8;
    let live: usize = live_cols_at(useful_bits, 64, k);
    let blocks: usize = div_up(useful_bits, 64);
    proof {
        assert(live == 64 * blocks);
    }
    let per: usize = n_tiles / 256;
    let grab: usize = if per == 0 {
        1
    } else {
        per
    };
    let workers: usize = workers_for(n_tiles);
    let w: OuterWeights = OuterWeights::Full(eq_outer);
    let f = |v: usize| -> (r: Vec<u8>)
        requires
            grab > 0,
            workers > 0,
            64 * n_tiles <= usize::MAX,
            64 * blocks <= k,
            z_packed@.len() == 8 * n_tiles * k,
            w.count() == 64 * n_tiles,
            16 * k <= usize::MAX,
        ensures
            r@.len() == 16 * k,
            forall|i: int|
                0 <= i < 64 * blocks ==> #[trigger] col_of(r@, i) == worker_part(
                    stripe_bits(z_packed@, k as int, i),
                    w.weight(),
                    (8 * n_tiles) as nat,
                    8,
                    grab as int,
                    workers as int,
                    v as int,
                ),
    { stripe_plane_worker(z_packed, k, n_tiles, &w, blocks, grab, workers, v) };
    let planes: Vec<Vec<u8>> = par_map(workers, f);
    let mut out: Vec<F128> = Vec::new();
    let mut blk: usize = 0;
    while blk < blocks
        invariant
            blk <= blocks,
            64 * blocks <= k,
            live == 64 * blocks,
            16 * k <= usize::MAX,
            forall|v: int| 0 <= v < planes@.len() ==> #[trigger] planes@[v]@.len() == 16 * k,
            out@.len() == 64 * blk,
            forall|i: int|
                0 <= i < 64 * blk ==> #[trigger] out@[i] == fsum(
                    planes@.len(),
                    |v: int| col_of(planes@[v]@, i),
                ),
        decreases blocks - blk,
    {
        let cols: Vec<F128> = reduced_block(&planes, blk, live, k);
        let mut c: usize = 0;
        while c < 64
            invariant
                c <= 64,
                blk < blocks,
                live == 64 * blocks,
                cols@.len() == 64,
                forall|d: int|
                    0 <= d < 64 ==> #[trigger] cols@[d] == if 64 * blk + d < live {
                        fsum(planes@.len(), |v: int| col_of(planes@[v]@, 64 * blk + d))
                    } else {
                        fzero()
                    },
                out@.len() == 64 * blk + c,
                forall|i: int|
                    0 <= i < 64 * blk + c ==> #[trigger] out@[i] == fsum(
                        planes@.len(),
                        |v: int| col_of(planes@[v]@, i),
                    ),
            decreases 64 - c,
        {
            out.push(cols[c]);
            c = c + 1;
        }
        blk = blk + 1;
    }
    proof {
        assert(w.weight() =~= weights(eq_outer@));
        assert forall|i: int| 0 <= i < live implies #[trigger] out@[i] == stripe_fold(
            z_packed@,
            k as int,
            eq_outer@,
            i,
        ) by {
            let bits = stripe_bits(z_packed@, k as int, i);
            lemma_fold_workers(
                (8 * n_tiles) as nat,
                8,
                grab as int,
                workers as nat,
                bits,
                w.weight(),
            );
            lemma_sum_ext(
                workers as nat,
                |v: int| col_of(planes@[v]@, i),
                |v: int|
                    worker_part(
                        bits,
                        w.weight(),
                        (8 * n_tiles) as nat,
                        8,
                        grab as int,
                        workers as int,
                        v,
                    ),
            );
            assert(8 * (8 * n_tiles) == eq_outer@.len());
        }
    }
    pad_to(&mut out, k);
    out
}

/// Which family of stripe kernels to use.
#[derive(Clone, Copy, Debug, PartialEq, Eq)]
pub enum FoldArch {
    /// Tiled tables, or byte planes where they apply.
    X86 { gfni: bool },
    /// Tiled tables partitioned by tiles, or by columns on small folds.
    Aarch64 { force_iblock: bool },
    /// One table per stripe.
    Portable,
}

/// Outer variables from which the tile partition beats the column partition.
pub const OBLOCK_MIN_N_LOG: usize = 16;

/// Stripes per tile.
pub const NEON_TILE_T: usize = 8;

/// The column granularity of the kernel that [`partial_fold_packed_z_best`] picks.
pub open spec fn fold_granule(arch: FoldArch, m: int, k_log: int) -> int {
    if !tile_ok(m, k_log, 3) {
        1
    } else {
        match arch {
            FoldArch::X86 { gfni } => if gfni && k_log >= 6 && 16 * pow2(k_log as nat)
                <= usize::MAX {
                64
            } else {
                8
            },
            FoldArch::Aarch64 { .. } => 8,
            FoldArch::Portable => 1,
        }
    }
}

/// The stripe fold by the fastest kernel for the shape. Columns past
/// `useful_bits` are zero, up to the kernel's granularity.
pub fn partial_fold_packed_z_best(
    z_packed: &[u8],
    m: usize,
    k_log: usize,
    useful_bits: usize,
    eq_outer: &[F128],
    arch: FoldArch,
) -> (out: Vec<F128>)
    requires
        stripe_shape(z_packed@, m as int, k_log as int, eq_outer@),
        useful_bits <= pow2(k_log as nat),
    ensures
        is_stripe_fold(
            z_packed@,
            pow2(k_log as nat) as int,
            eq_outer@,
            live_cols(
                useful_bits as int,
                fold_granule(arch, m as int, k_log as int),
                pow2(k_log as nat) as int,
            ),
            out@,
        ),
{
    proof {
        assert((useful_bits as int + 1 - 1) / 1 == useful_bits);
        lemma_tiles_evenly(m as int, k_log as int, 3);
        vstd::arithmetic::power2::lemma2_to64();
    }
    if !n_log_ok_for_tile(m, k_log, NEON_TILE_T) {
        return partial_fold_packed_z_fast_padded(z_packed, m, k_log, useful_bits, eq_outer);
    }
    match arch {
        FoldArch::X86 { gfni } => {
            let k: usize = pow2_usize(k_log);
            if gfni && k_log >= 6 && k <= usize::MAX / 16 {
                partial_fold_packed_z_x86_gfni_padded(z_packed, m, k_log, useful_bits, eq_outer)
            } else {
                partial_fold_packed_z_x86_tiled_padded(z_packed, m, k_log, useful_bits, eq_outer)
            }
        },
        FoldArch::Aarch64 { force_iblock } => {
            if m - k_log >= OBLOCK_MIN_N_LOG && !force_iblock {
                partial_fold_packed_z_neon_oblock_padded(z_packed, m, k_log, useful_bits, eq_outer)
            } else {
                partial_fold_packed_z_neon_iblock_padded(z_packed, m, k_log, useful_bits, eq_outer)
            }
        },
        FoldArch::Portable => {
            partial_fold_packed_z_fast_padded(z_packed, m, k_log, useful_bits, eq_outer)
        },
    }
}

} // verus!

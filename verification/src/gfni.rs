//! Plane-major folds: each worker accumulates byte planes through bit matrices,
//! and one transpose per 64-column block brings the sums back to columns.

use crate::block_major::{block_bits, block_fold, eq8_of, lemma_block_workers, lemma_gather_part, with_bind, OuterWeights, TILE_GRAB};
use crate::f128_slice::mix;
use crate::field::{fadd, fmul, fone, fzero, lemma_add_zero, F128};
use crate::fold::{chunk_part, div_up, owner_of, part8, worker_part};
use crate::gather::{gather_transpose_group4, gather_transpose_tile, is_gather, DIRECT_FOLD_TILE_STRIPES};
use crate::par::par_map;
use crate::planes::{gfni_fold_tile, gfni_fold_tile_pair_nonseed, lemma_plane_col_zero, lemma_plane_tile, plane_col, plane_xor, reduce_worker_plane_block, tile_mats};
use crate::stripe::owner_at;
use crate::sums::{chunk_count, chunk_len, fsum, lemma_sum_ext, sel};
use crate::tables::{basis_mats, byte_sum, fold_mats_from_basis};
use vstd::prelude::*;

verus! {

/// The plane column of inner column `i`.
pub open spec fn col_of(planes: Seq<u8>, i: int) -> F128 {
    plane_col(planes, 1024 * (i / 64), i % 64)
}

/// Columns with the same sixteen bytes are equal.
proof fn lemma_col_same(p: Seq<u8>, q: Seq<u8>, i: int)
    requires
        forall|x: int|
            1024 * (i / 64) <= x < 1024 * (i / 64) + 1024 ==> #[trigger] p[x] == q[x],
    ensures
        col_of(p, i) == col_of(q, i),
{
    let (at, c) = (1024 * (i / 64), i % 64);
    let v = plane_col(q, at, c);
    assert forall|j: int| 0 <= j < 16 implies #[trigger] p[at + 64 * j + c] == crate::bits::fbyte(
        v,
        j as nat,
    ) by {
        crate::planes::lemma_plane_col_byte(q, at, c, j as nat);
    }
    crate::planes::lemma_plane_col_is(p, at, c, v);
}

/// The matrices of the eight stripes of a full tile.
pub fn tile_mats_at(w: &OuterWeights, base: usize) -> (mats: [u64; 128])
    requires
        8 * (base + 8) <= w.count(),
        w.count() <= usize::MAX,
    ensures
        tile_mats(|t: int| eq8_of(w.weight(), base + t), mats@),
{
    let mut mats: [u64; 128] = [0u64;128];
    let mut t: usize = 0;
    while t < 8
        invariant
            t <= 8,
            8 * (base + 8) <= w.count(),
            w.count() <= usize::MAX,
            forall|u: int|
                #![trigger eq8_of(w.weight(), base + u)]
                0 <= u < t ==> basis_mats(
                    eq8_of(w.weight(), base + u),
                    mats@.subrange(16 * u, 16 * u + 16),
                ),
        decreases 8 - t,
    {
        let eq8: [F128; 8] = w.eq8_at(8 * (base + t));
        let ghost before = mats@;
        fold_mats_from_basis(&eq8, &mut mats, 16 * t);
        proof {
            assert(eq8@ =~= eq8_of(w.weight(), (base + t) as int));
            assert forall|u: int|
                #![trigger eq8_of(w.weight(), base + u)]
                0 <= u < t + 1 implies basis_mats(
                eq8_of(w.weight(), base + u),
                mats@.subrange(16 * u, 16 * u + 16),
            ) by {
                if u < t {
                    assert(mats@.subrange(16 * u, 16 * u + 16) =~= before.subrange(
                        16 * u,
                        16 * u + 16,
                    ));
                }
            }
        }
        t = t + 1;
    }
    mats
}

/// Number of whole 64-column blocks that cover `useful` columns.
pub open spec fn live_blocks(useful: int) -> int {
    (useful + 63) / 64
}

/// The tile's part of column `i`.
pub open spec fn tile_sum(
    z: Seq<F128>,
    cpb: int,
    w: spec_fn(int) -> F128,
    base: int,
    i: int,
) -> F128 {
    fsum(8, |j: int| part8(block_bits(z, cpb, i), w, base + j))
}

/// Folding gathered bytes adds the tile's part to a column.
proof fn lemma_step_column(
    z: Seq<F128>,
    cpb: int,
    base: int,
    q: int,
    tr: Seq<u8>,
    slab: int,
    w: spec_fn(int) -> F128,
    mats: Seq<u64>,
    old_planes: Seq<u8>,
    new_planes: Seq<u8>,
    nb: int,
    seed_zero: bool,
    i: int,
)
    requires
        is_gather(z, cpb, base, 8, q, tr, slab),
        tile_mats(|t: int| eq8_of(w, base + t), mats),
        0 <= q,
        128 * q <= i < 128 * q + 64 * nb,
        nb <= 2,
        forall|b: int, j: int, c: int|
            0 <= b < nb && 0 <= j < 16 && 0 <= c < 64 ==> #[trigger] new_planes[2048 * q + 1024 * b
                + 64 * j + c] == (if seed_zero {
                0u8
            } else {
                old_planes[2048 * q + 1024 * b + 64 * j + c]
            }) ^ plane_xor(mats, tr, 128, slab + 64 * b + c, j, 8),
    ensures
        col_of(new_planes, i) == fadd(
            if seed_zero {
                fzero()
            } else {
                col_of(old_planes, i)
            },
            tile_sum(z, cpb, w, base, i),
        ),
{
    let b = (i - 128 * q) / 64;
    let c = i % 64;
    let ws = |t: int| eq8_of(w, base + t);
    let at = 2048 * q + 1024 * b;
    assert(i / 64 == 2 * q + b);
    assert(1024 * (i / 64) == at);
    let pos = slab + 64 * b + c;
    assert forall|j: int| 0 <= j < 16 implies #[trigger] new_planes[at + 64 * j + c] == (
    if seed_zero {
        0u8
    } else {
        old_planes[at + 64 * j + c]
    }) ^ plane_xor(mats, tr, 128, pos, j, 8) by {
        assert(new_planes[2048 * q + 1024 * b + 64 * j + c] == (if seed_zero {
            0u8
        } else {
            old_planes[2048 * q + 1024 * b + 64 * j + c]
        }) ^ plane_xor(mats, tr, 128, slab + 64 * b + c, j, 8));
    }
    lemma_plane_tile(ws, mats, tr, 128, pos, old_planes, new_planes, at, c, seed_zero);
    let f = |t: int| byte_sum(tr[t * 128 + pos], ws(t));
    let g = |j: int| part8(block_bits(z, cpb, i), w, base + j);
    assert forall|t: int| 0 <= t < 8 implies #[trigger] f(t) == g(t) by {
        lemma_gather_part(z, cpb, base, 8, q, tr, slab, w, t, 64 * b + c);
        assert(128 * q + (64 * b + c) == i);
        assert(t * 128 + pos == slab + 128 * t + (64 * b + c));
    }
    lemma_sum_ext(8, f, g);
}

/// Adds one full tile to the planes of the live blocks, four elements per gather
/// while whole elements are left.
fn plane_step(
    z: &[F128],
    cpb: usize,
    n_stripes: usize,
    w: &OuterWeights,
    base: usize,
    useful: usize,
    fuse: bool,
    first: bool,
    planes: &mut Vec<u8>,
)
    requires
        base + 8 <= n_stripes,
        z@.len() == 8 * n_stripes * cpb,
        w.count() == 8 * n_stripes,
        w.count() <= usize::MAX,
        useful <= 128 * cpb,
        old(planes)@.len() == 2048 * cpb,
    ensures
        final(planes)@.len() == old(planes)@.len(),
        forall|i: int|
            0 <= i < 64 * live_blocks(useful as int) ==> #[trigger] col_of(final(planes)@, i)
                == fadd(
                if first {
                    fzero()
                } else {
                    col_of(old(planes)@, i)
                },
                tile_sum(z@, cpb as int, w.weight(), base as int, i),
            ),
{
    let mats: [u64; 128] = tile_mats_at(w, base);
    let mut tr: Vec<u8> = vec![0u8; 4096];
    let ghost before = planes@;
    let full: usize = useful / 128;
    let chunks: usize = div_up(useful, 128);
    let len: usize = planes.len();
    let mut q: usize = 0;
    while q + 4 <= full
        invariant
            q <= full,
            full == useful / 128,
            full <= cpb,
            base + 8 <= n_stripes,
            z@.len() == 8 * n_stripes * cpb,
            tile_mats(|t: int| eq8_of(w.weight(), base + t), mats@),
            tr@.len() == 4096,
            len == planes@.len(),
            planes@.len() == 2048 * cpb,
            before.len() == planes@.len(),
            forall|x: int| 2048 * q <= x < before.len() ==> #[trigger] planes@[x] == before[x],
            forall|i: int|
                0 <= i < 128 * q ==> #[trigger] col_of(planes@, i) == fadd(
                    if first {
                        fzero()
                    } else {
                        col_of(before, i)
                    },
                    tile_sum(z@, cpb as int, w.weight(), base as int, i),
                ),
        decreases full - q,
    {
        gather_transpose_group4(z, cpb, n_stripes, base, q, fuse, &mut tr);
        let mut c: usize = 0;
        while c < 4
            invariant
                c <= 4,
                q + 4 <= full,
                full <= cpb,
                base + 8 <= n_stripes,
                z@.len() == 8 * n_stripes * cpb,
                tile_mats(|t: int| eq8_of(w.weight(), base + t), mats@),
                tr@.len() == 4096,
                forall|d: int|
                    0 <= d < 4 ==> #[trigger] is_gather(
                        z@,
                        cpb as int,
                        base as int,
                        8,
                        q + d,
                        tr@,
                        1024 * d,
                    ),
                len == planes@.len(),
                planes@.len() == 2048 * cpb,
                before.len() == planes@.len(),
                forall|x: int|
                    2048 * (q + c) <= x < before.len() ==> #[trigger] planes@[x] == before[x],
                forall|i: int|
                    0 <= i < 128 * (q + c) ==> #[trigger] col_of(planes@, i) == fadd(
                        if first {
                            fzero()
                        } else {
                            col_of(before, i)
                        },
                        tile_sum(z@, cpb as int, w.weight(), base as int, i),
                    ),
            decreases 4 - c,
        {
            let ghost mid = planes@;
            gfni_fold_tile(&tr, 1024 * c, 128, 2, &mats, planes, 2048 * (q + c), first);
            proof {
                assert(is_gather(z@, cpb as int, base as int, 8, q + c as int, tr@, 1024 * c as int));
                lemma_plane_chunk(
                    z@,
                    cpb as int,
                    base as int,
                    (q + c) as int,
                    tr@,
                    1024 * c as int,
                    w.weight(),
                    mats@,
                    before,
                    mid,
                    planes@,
                    2,
                    first,
                );
            }
            c = c + 1;
        }
        q = q + 4;
    }
    while q < chunks
        invariant
            q <= chunks,
            chunks == chunk_count(useful as nat, 128),
            useful <= 128 * cpb,
            base + 8 <= n_stripes,
            z@.len() == 8 * n_stripes * cpb,
            tile_mats(|t: int| eq8_of(w.weight(), base + t), mats@),
            tr@.len() == 4096,
            len == planes@.len(),
            planes@.len() == 2048 * cpb,
            before.len() == planes@.len(),
            q < chunks ==> (forall|x: int|
                2048 * q <= x < before.len() ==> #[trigger] planes@[x] == before[x]),
            forall|i: int|
                0 <= i < 64 * live_blocks(useful as int) && i < 128 * q ==> #[trigger] col_of(
                    planes@,
                    i,
                ) == fadd(
                    if first {
                        fzero()
                    } else {
                        col_of(before, i)
                    },
                    tile_sum(z@, cpb as int, w.weight(), base as int, i),
                ),
        decreases chunks - q,
    {
        proof {
            crate::sums::lemma_chunk_bounds(useful as nat, 128, q as int);
        }
        let rest: usize = useful - 128 * q;
        let bits: usize = if rest < 128 {
            rest
        } else {
            128
        };
        let nb: usize = div_up(bits, 64);
        gather_transpose_tile(z, cpb, n_stripes, base, DIRECT_FOLD_TILE_STRIPES, q, fuse, &mut tr, 0);
        let ghost mid = planes@;
        gfni_fold_tile(&tr, 0, 128, nb, &mats, planes, 2048 * q, first);
        proof {
            lemma_plane_chunk(
                z@,
                cpb as int,
                base as int,
                q as int,
                tr@,
                0,
                w.weight(),
                mats@,
                before,
                mid,
                planes@,
                nb as int,
                first,
            );
            assert forall|i: int|
                0 <= i < 64 * live_blocks(useful as int) && i < 128 * (q
                    + 1) implies #[trigger] col_of(planes@, i) == fadd(
                if first {
                    fzero()
                } else {
                    col_of(before, i)
                },
                tile_sum(z@, cpb as int, w.weight(), base as int, i),
            ) by {
                if i < 128 * q {
                    lemma_col_same(planes@, mid, i);
                }
            }
        }
        q = q + 1;
    }
}

/// One chunk of [`plane_step`]: its blocks gain the tile's part, and what lies
/// below is unchanged.
proof fn lemma_plane_chunk(
    z: Seq<F128>,
    cpb: int,
    base: int,
    q: int,
    tr: Seq<u8>,
    slab: int,
    w: spec_fn(int) -> F128,
    mats: Seq<u64>,
    before: Seq<u8>,
    mid: Seq<u8>,
    after: Seq<u8>,
    nb: int,
    seed_zero: bool,
)
    requires
        is_gather(z, cpb, base, 8, q, tr, slab),
        tile_mats(|t: int| eq8_of(w, base + t), mats),
        0 <= q,
        0 <= nb <= 2,
        mid.len() == before.len(),
        after.len() == mid.len(),
        2048 * q + 1024 * nb <= mid.len(),
        forall|x: int| 2048 * q <= x < before.len() ==> #[trigger] mid[x] == before[x],
        forall|b: int, j: int, c: int|
            0 <= b < nb && 0 <= j < 16 && 0 <= c < 64 ==> #[trigger] after[2048 * q + 1024 * b + 64
                * j + c] == (if seed_zero {
                0u8
            } else {
                mid[2048 * q + 1024 * b + 64 * j + c]
            }) ^ plane_xor(mats, tr, 128, slab + 64 * b + c, j, 8),
        forall|x: int|
            0 <= x < mid.len() && !(2048 * q <= x < 2048 * q + 1024 * nb) ==> #[trigger] after[x]
                == mid[x],
    ensures
        forall|i: int|
            128 * q <= i < 128 * q + 64 * nb ==> #[trigger] col_of(after, i) == fadd(
                if seed_zero {
                    fzero()
                } else {
                    col_of(before, i)
                },
                tile_sum(z, cpb, w, base, i),
            ),
        forall|i: int| 0 <= i < 128 * q ==> #[trigger] col_of(after, i) == col_of(mid, i),
{
    assert forall|i: int| 128 * q <= i < 128 * q + 64 * nb implies #[trigger] col_of(after, i)
        == fadd(
        if seed_zero {
            fzero()
        } else {
            col_of(before, i)
        },
        tile_sum(z, cpb, w, base, i),
    ) by {
        lemma_step_column(z, cpb, base, q, tr, slab, w, mats, mid, after, nb, seed_zero, i);
        lemma_col_same(mid, before, i);
    }
    assert forall|i: int| 0 <= i < 128 * q implies #[trigger] col_of(after, i) == col_of(mid, i) by {
        lemma_col_same(after, mid, i);
    }
}

/// Adds two full tiles to planes that already hold one.
fn plane_step_pair(
    z: &[F128],
    cpb: usize,
    n_stripes: usize,
    w: &OuterWeights,
    base0: usize,
    base1: usize,
    useful: usize,
    fuse: bool,
    planes: &mut Vec<u8>,
)
    requires
        base0 + 8 <= n_stripes,
        base1 + 8 <= n_stripes,
        z@.len() == 8 * n_stripes * cpb,
        w.count() == 8 * n_stripes,
        w.count() <= usize::MAX,
        useful <= 128 * cpb,
        old(planes)@.len() == 2048 * cpb,
    ensures
        final(planes)@.len() == old(planes)@.len(),
        forall|i: int|
            0 <= i < 64 * live_blocks(useful as int) ==> #[trigger] col_of(final(planes)@, i)
                == fadd(
                fadd(
                    col_of(old(planes)@, i),
                    tile_sum(z@, cpb as int, w.weight(), base0 as int, i),
                ),
                tile_sum(z@, cpb as int, w.weight(), base1 as int, i),
            ),
{
    let mats0: [u64; 128] = tile_mats_at(w, base0);
    let mats1: [u64; 128] = tile_mats_at(w, base1);
    let mut tr0: Vec<u8> = vec![0u8; 1024];
    let mut tr1: Vec<u8> = vec![0u8; 1024];
    let ghost before = planes@;
    let chunks: usize = div_up(useful, 128);
    let len: usize = planes.len();
    let mut q: usize = 0;
    while q < chunks
        invariant
            q <= chunks,
            chunks == chunk_count(useful as nat, 128),
            useful <= 128 * cpb,
            base0 + 8 <= n_stripes,
            base1 + 8 <= n_stripes,
            z@.len() == 8 * n_stripes * cpb,
            tile_mats(|t: int| eq8_of(w.weight(), base0 + t), mats0@),
            tile_mats(|t: int| eq8_of(w.weight(), base1 + t), mats1@),
            tr0@.len() == 1024,
            tr1@.len() == 1024,
            len == planes@.len(),
            planes@.len() == 2048 * cpb,
            before.len() == planes@.len(),
            q < chunks ==> (forall|x: int|
                2048 * q <= x < before.len() ==> #[trigger] planes@[x] == before[x]),
            forall|i: int|
                0 <= i < 64 * live_blocks(useful as int) && i < 128 * q ==> #[trigger] col_of(
                    planes@,
                    i,
                ) == fadd(
                    fadd(
                        col_of(before, i),
                        tile_sum(z@, cpb as int, w.weight(), base0 as int, i),
                    ),
                    tile_sum(z@, cpb as int, w.weight(), base1 as int, i),
                ),
        decreases chunks - q,
    {
        proof {
            crate::sums::lemma_chunk_bounds(useful as nat, 128, q as int);
        }
        let rest: usize = useful - 128 * q;
        let bits: usize = if rest < 128 {
            rest
        } else {
            128
        };
        let nb: usize = div_up(bits, 64);
        gather_transpose_tile(
            z,
            cpb,
            n_stripes,
            base0,
            DIRECT_FOLD_TILE_STRIPES,
            q,
            fuse,
            &mut tr0,
            0,
        );
        gather_transpose_tile(
            z,
            cpb,
            n_stripes,
            base1,
            DIRECT_FOLD_TILE_STRIPES,
            q,
            fuse,
            &mut tr1,
            0,
        );
        let ghost mid = planes@;
        gfni_fold_tile_pair_nonseed(&tr0, &tr1, 128, nb, &mats0, &mats1, planes, 2048 * q);
        proof {
            lemma_pair_chunk(
                z@,
                cpb as int,
                base0 as int,
                base1 as int,
                q as int,
                tr0@,
                tr1@,
                w.weight(),
                mats0@,
                mats1@,
                before,
                mid,
                planes@,
                nb as int,
            );
            assert forall|i: int|
                0 <= i < 64 * live_blocks(useful as int) && i < 128 * (q
                    + 1) implies #[trigger] col_of(planes@, i) == fadd(
                fadd(col_of(before, i), tile_sum(z@, cpb as int, w.weight(), base0 as int, i)),
                tile_sum(z@, cpb as int, w.weight(), base1 as int, i),
            ) by {
                if i < 128 * q {
                    assert(col_of(planes@, i) == col_of(mid, i));
                }
            }
        }
        q = q + 1;
    }
}

/// One chunk of [`plane_step_pair`].
proof fn lemma_pair_chunk(
    z: Seq<F128>,
    cpb: int,
    base0: int,
    base1: int,
    q: int,
    tr0: Seq<u8>,
    tr1: Seq<u8>,
    w: spec_fn(int) -> F128,
    mats0: Seq<u64>,
    mats1: Seq<u64>,
    before: Seq<u8>,
    mid: Seq<u8>,
    after: Seq<u8>,
    nb: int,
)
    requires
        is_gather(z, cpb, base0, 8, q, tr0, 0),
        is_gather(z, cpb, base1, 8, q, tr1, 0),
        tile_mats(|t: int| eq8_of(w, base0 + t), mats0),
        tile_mats(|t: int| eq8_of(w, base1 + t), mats1),
        0 <= q,
        0 <= nb <= 2,
        mid.len() == before.len(),
        after.len() == mid.len(),
        2048 * q + 1024 * nb <= mid.len(),
        forall|x: int| 2048 * q <= x < before.len() ==> #[trigger] mid[x] == before[x],
        forall|b: int, j: int, c: int|
            0 <= b < nb && 0 <= j < 16 && 0 <= c < 64 ==> #[trigger] after[2048 * q + 1024 * b + 64
                * j + c] == (mid[2048 * q + 1024 * b + 64 * j + c] ^ plane_xor(
                mats0,
                tr0,
                128,
                64 * b + c,
                j,
                8,
            )) ^ plane_xor(mats1, tr1, 128, 64 * b + c, j, 8),
        forall|x: int|
            0 <= x < mid.len() && !(2048 * q <= x < 2048 * q + 1024 * nb) ==> #[trigger] after[x]
                == mid[x],
    ensures
        forall|i: int|
            128 * q <= i < 128 * q + 64 * nb ==> #[trigger] col_of(after, i) == fadd(
                fadd(col_of(before, i), tile_sum(z, cpb, w, base0, i)),
                tile_sum(z, cpb, w, base1, i),
            ),
        forall|i: int| 0 <= i < 128 * q ==> #[trigger] col_of(after, i) == col_of(mid, i),
{
    let half = pair_half(mid, mats0, tr0, 2048 * q, nb);
    lemma_pair_half(mid, after, mats0, mats1, tr0, tr1, 2048 * q, nb);
    assert forall|b: int, j: int, c: int|
        0 <= b < nb && 0 <= j < 16 && 0 <= c < 64 implies #[trigger] half[2048 * q + 1024 * b + 64
        * j + c] == (if false {
        0u8
    } else {
        mid[2048 * q + 1024 * b + 64 * j + c]
    }) ^ plane_xor(mats0, tr0, 128, 0 + 64 * b + c, j, 8) by {}
    lemma_plane_chunk(z, cpb, base0, q, tr0, 0, w, mats0, before, mid, half, nb, false);
    assert forall|b: int, j: int, c: int|
        0 <= b < nb && 0 <= j < 16 && 0 <= c < 64 implies #[trigger] after[2048 * q + 1024 * b + 64
        * j + c] == (if false {
        0u8
    } else {
        half[2048 * q + 1024 * b + 64 * j + c]
    }) ^ plane_xor(mats1, tr1, 128, 0 + 64 * b + c, j, 8) by {}
    lemma_plane_chunk(z, cpb, base1, q, tr1, 0, w, mats1, half, half, after, nb, false);
}

/// The planes after the first tile of a pair.
spec fn pair_half(mid: Seq<u8>, mats: Seq<u64>, tr: Seq<u8>, at: int, nb: int) -> Seq<u8> {
    Seq::new(
        mid.len(),
        |x: int|
            if at <= x < at + 1024 * nb {
                let d = x - at;
                mid[x] ^ plane_xor(
                    mats,
                    tr,
                    128,
                    64 * (d / 1024) + d % 64,
                    (d % 1024) / 64,
                    8,
                )
            } else {
                mid[x]
            },
    )
}

proof fn lemma_pair_half(
    mid: Seq<u8>,
    after: Seq<u8>,
    mats0: Seq<u64>,
    mats1: Seq<u64>,
    tr0: Seq<u8>,
    tr1: Seq<u8>,
    at: int,
    nb: int,
)
    requires
        0 <= at,
        0 <= nb <= 2,
        after.len() == mid.len(),
        at + 1024 * nb <= mid.len(),
        forall|b: int, j: int, c: int|
            0 <= b < nb && 0 <= j < 16 && 0 <= c < 64 ==> #[trigger] after[at + 1024 * b + 64 * j
                + c] == (mid[at + 1024 * b + 64 * j + c] ^ plane_xor(
                mats0,
                tr0,
                128,
                64 * b + c,
                j,
                8,
            )) ^ plane_xor(mats1, tr1, 128, 64 * b + c, j, 8),
        forall|x: int|
            0 <= x < mid.len() && !(at <= x < at + 1024 * nb) ==> #[trigger] after[x] == mid[x],
    ensures
        ({
            let half = pair_half(mid, mats0, tr0, at, nb);
            &&& half.len() == mid.len()
            &&& forall|b: int, j: int, c: int|
                0 <= b < nb && 0 <= j < 16 && 0 <= c < 64 ==> #[trigger] half[at + 1024 * b + 64 * j
                    + c] == mid[at + 1024 * b + 64 * j + c] ^ plane_xor(
                    mats0,
                    tr0,
                    128,
                    64 * b + c,
                    j,
                    8,
                )
            &&& forall|b: int, j: int, c: int|
                0 <= b < nb && 0 <= j < 16 && 0 <= c < 64 ==> #[trigger] after[at + 1024 * b + 64
                    * j + c] == half[at + 1024 * b + 64 * j + c] ^ plane_xor(
                    mats1,
                    tr1,
                    128,
                    64 * b + c,
                    j,
                    8,
                )
            &&& forall|x: int|
                0 <= x < mid.len() && !(at <= x < at + 1024 * nb) ==> #[trigger] half[x] == mid[x]
            &&& forall|x: int|
                0 <= x < mid.len() && !(at <= x < at + 1024 * nb) ==> #[trigger] after[x]
                    == half[x]
        }),
{
    let half = pair_half(mid, mats0, tr0, at, nb);
    assert forall|b: int, j: int, c: int|
        0 <= b < nb && 0 <= j < 16 && 0 <= c < 64 implies #[trigger] half[at + 1024 * b + 64 * j + c]
        == mid[at + 1024 * b + 64 * j + c] ^ plane_xor(mats0, tr0, 128, 64 * b + c, j, 8) by {
        let d = 1024 * b + 64 * j + c;
        assert(d / 1024 == b && d % 64 == c && (d % 1024) / 64 == j);
    }
}

/// The planes of worker `v`.
fn plane_worker(
    z: &[F128],
    cpb: usize,
    n_tiles: usize,
    w: &OuterWeights,
    useful: usize,
    fuse: bool,
    pair_tiles: bool,
    grab: usize,
    workers: usize,
    v: usize,
) -> (planes: Vec<u8>)
    requires
        grab > 0,
        workers > 0,
        64 * n_tiles <= usize::MAX,
        z@.len() == 64 * n_tiles * cpb,
        w.count() == 64 * n_tiles,
        useful <= 128 * cpb,
        2048 * cpb <= usize::MAX,
    ensures
        planes@.len() == 2048 * cpb,
        forall|i: int|
            0 <= i < 64 * live_blocks(useful as int) ==> #[trigger] col_of(planes@, i)
                == worker_part(
                block_bits(z@, cpb as int, i),
                w.weight(),
                (8 * n_tiles) as nat,
                8,
                grab as int,
                workers as int,
                v as int,
            ),
{
    let mut planes: Vec<u8> = vec![0u8; 2048 * cpb];
    let n_stripes: usize = 8 * n_tiles;
    let ghost live = 64 * live_blocks(useful as int);
    let ghost held = |t: nat, i: int|
        fsum(
            t,
            |u: int|
                sel(
                    owner_of(u, grab as int, workers as int) == v,
                    chunk_part(
                        block_bits(z@, cpb as int, i),
                        w.weight(),
                        (8 * n_tiles) as nat,
                        8,
                        u,
                    ),
                ),
        );
    let mut first: bool = true;
    let mut t: usize = 0;
    proof {
        assert(live <= 128 * cpb);
        assert forall|i: int| 0 <= i < live implies #[trigger] col_of(planes@, i) == fzero() by {
            lemma_plane_col_zero(planes@, 1024 * (i / 64), i % 64);
        }
    }
    while t < n_tiles
        invariant
            t <= n_tiles,
            grab > 0,
            workers > 0,
            64 * n_tiles <= usize::MAX,
            n_stripes == 8 * n_tiles,
            z@.len() == 8 * n_stripes * cpb,
            w.count() == 8 * n_stripes,
            useful <= 128 * cpb,
            live == 64 * live_blocks(useful as int),
            planes@.len() == 2048 * cpb,
            held == (|t: nat, i: int|
                fsum(
                    t,
                    |u: int|
                        sel(
                            owner_of(u, grab as int, workers as int) == v,
                            chunk_part(
                                block_bits(z@, cpb as int, i),
                                w.weight(),
                                (8 * n_tiles) as nat,
                                8,
                                u,
                            ),
                        ),
                )),
            forall|i: int| 0 <= i < live ==> #[trigger] col_of(planes@, i) == held(t as nat, i),
            first ==> forall|i: int| 0 <= i < live ==> #[trigger] col_of(planes@, i) == fzero(),
        decreases n_tiles - t,
    {
        let ghost before = planes@;
        let mine: bool = owner_at(t, grab, workers) == v;
        let next: bool = t + 1 < n_tiles && owner_at(t + 1, grab, workers) == v;
        if mine && pair_tiles && !first && next {
            plane_step_pair(
                z,
                cpb,
                n_stripes,
                w,
                8 * t,
                8 * t + 8,
                useful,
                fuse,
                &mut planes,
            );
            proof {
                assert forall|i: int| 0 <= i < live implies #[trigger] col_of(planes@, i) == held(
                    (t + 2) as nat,
                    i,
                ) by {
                    let bits = block_bits(z@, cpb as int, i);
                    assert(col_of(before, i) == held(t as nat, i));
                    lemma_tile_is_chunk(bits, w.weight(), n_tiles as nat, t as int);
                    lemma_tile_is_chunk(bits, w.weight(), n_tiles as nat, t + 1);
                    reveal_with_fuel(fsum, 3);
                }
            }
            t = t + 2;
        } else {
            if mine {
                plane_step(z, cpb, n_stripes, w, 8 * t, useful, fuse, first, &mut planes);
                first = false;
            }
            proof {
                assert forall|i: int| 0 <= i < live implies #[trigger] col_of(planes@, i) == held(
                    (t + 1) as nat,
                    i,
                ) by {
                    let bits = block_bits(z@, cpb as int, i);
                    assert(col_of(before, i) == held(t as nat, i));
                    lemma_tile_is_chunk(bits, w.weight(), n_tiles as nat, t as int);
                    lemma_add_zero(held(t as nat, i));
                }
            }
            t = t + 1;
        }
    }
    proof {
        assert(chunk_count((8 * n_tiles) as nat, 8) == n_tiles) by {
            assert((8 * n_tiles + 7) / 8 == n_tiles);
        }
    }
    planes
}

/// A full tile is a chunk of eight stripes.
pub proof fn lemma_tile_is_chunk(
    bits: spec_fn(int) -> bool,
    w: spec_fn(int) -> F128,
    n_tiles: nat,
    t: int,
)
    requires
        0 <= t < n_tiles,
    ensures
        chunk_part(bits, w, 8 * n_tiles, 8, t) == fsum(8, |j: int| part8(bits, w, 8 * t + j)),
{
    assert(chunk_len(8 * n_tiles, 8, t) == 8);
    lemma_sum_ext(8, |j: int| part8(bits, w, t * 8 + j), |j: int| part8(bits, w, 8 * t + j));
}

/// The 64 columns of block `blk`, with the columns from `useful` on cleared.
pub fn reduced_block(planes: &Vec<Vec<u8>>, blk: usize, useful: usize, cols: usize) -> (out: Vec<F128>)
    requires
        64 * blk + 64 <= cols,
        useful <= cols,
        16 * cols <= usize::MAX,
        forall|v: int| 0 <= v < planes@.len() ==> #[trigger] planes@[v]@.len() == 16 * cols,
    ensures
        out@.len() == 64,
        forall|c: int|
            0 <= c < 64 ==> #[trigger] out@[c] == if 64 * blk + c < useful {
                fsum(planes@.len(), |v: int| col_of(planes@[v]@, 64 * blk + c))
            } else {
                fzero()
            },
{
    let mut out: Vec<F128> = reduce_worker_plane_block(planes, blk);
    proof {
        assert forall|c: int| 0 <= c < 64 implies #[trigger] out@[c] == fsum(
            planes@.len(),
            |v: int| col_of(planes@[v]@, 64 * blk + c),
        ) by {
            let i = 64 * blk + c;
            assert(i / 64 == blk && i % 64 == c);
            lemma_sum_ext(
                planes@.len(),
                |v: int| plane_col(planes@[v]@, 1024 * blk as int, c),
                |v: int| col_of(planes@[v]@, 64 * blk + c),
            );
        }
    }
    let ghost full = out@;
    let mut c: usize = 0;
    while c < 64
        invariant
            c <= 64,
            64 * blk + 64 <= cols,
            16 * cols <= usize::MAX,
            out@.len() == 64,
            full.len() == 64,
            forall|d: int|
                0 <= d < c ==> #[trigger] out@[d] == if 64 * blk + d < useful {
                    full[d]
                } else {
                    fzero()
                },
            forall|d: int| c <= d < 64 ==> #[trigger] out@[d] == full[d],
        decreases 64 - c,
    {
        if 64 * blk + c >= useful {
            out.set(c, F128::zero());
        }
        c = c + 1;
    }
    out
}

/// Columns whose low-half row is constant one in every outer block.
pub const ONE_ROWS_LO: usize = 1152;

/// First low-half column whose high partner is constant one.
pub const ONE_ROWS_HI_START: usize = 6912;

/// End of the columns whose high partner is constant one.
pub const ONE_ROWS_HI_END: usize = 7168;

/// The part of the bound table that comes from the constant-one rows: the low
/// end weighs `1 + r`, the high end `r`.
pub open spec fn one_rows(full: Seq<F128>, r: F128) -> Seq<F128> {
    let half = (full.len() / 2) as int;
    Seq::new(
        half as nat,
        |c: int|
            if c < ONE_ROWS_LO {
                fmul(fadd(fone(), r), full[c])
            } else if ONE_ROWS_HI_START <= c < ONE_ROWS_HI_END {
                fmul(r, full[c + half])
            } else {
                fzero()
            },
    )
}

/// The plane-major fold over full tiles. Where a top challenge is given the table
/// is bound as it is reduced; with `ranked_one_rows` the part of the
/// constant-one rows is returned beside it.
pub fn fold_block_major_gfni_with_pairs(
    z_packed: &[F128],
    k: usize,
    useful_bits: usize,
    n_workers: usize,
    tiles_per_worker: usize,
    n_tiles: usize,
    dynamic: bool,
    fuse: bool,
    w: &OuterWeights,
    top_bind: Option<F128>,
    ranked_one_rows: bool,
    pair_tiles: bool,
) -> (out: (Vec<F128>, Option<Vec<F128>>))
    requires
        n_workers > 0,
        tiles_per_worker > 0,
        k > 0,
        k % 128 == 0,
        16 * k <= usize::MAX,
        64 * n_tiles <= usize::MAX,
        z_packed@.len() == 64 * n_tiles * (k / 128),
        w.count() == 64 * n_tiles,
        useful_bits <= k,
        ranked_one_rows ==> top_bind is Some && k == 16384,
    ensures
        out.0@ == with_bind(
            block_fold(
                z_packed@,
                k as int,
                (64 * n_tiles) as nat,
                w.weight(),
                useful_bits as int,
            ),
            top_bind,
        ),
        !ranked_one_rows ==> out.1 is None,
        ranked_one_rows ==> out.1 is Some && out.1->0@ == one_rows(
            block_fold(
                z_packed@,
                k as int,
                (64 * n_tiles) as nat,
                w.weight(),
                useful_bits as int,
            ),
            top_bind->0,
        ),
{
    let cpb: usize = k / 128;
    let grab: usize = if dynamic {
        TILE_GRAB
    } else {
        tiles_per_worker
    };
    let f = |v: usize| -> (r: Vec<u8>)
        requires
            grab > 0,
            n_workers > 0,
            64 * n_tiles <= usize::MAX,
            z_packed@.len() == 64 * n_tiles * cpb,
            w.count() == 64 * n_tiles,
            useful_bits <= 128 * cpb,
            2048 * cpb <= usize::MAX,
        ensures
            r@.len() == 2048 * cpb,
            forall|i: int|
                0 <= i < 64 * live_blocks(useful_bits as int) ==> #[trigger] col_of(r@, i)
                    == worker_part(
                    block_bits(z_packed@, cpb as int, i),
                    w.weight(),
                    (8 * n_tiles) as nat,
                    8,
                    grab as int,
                    n_workers as int,
                    v as int,
                ),
    {
        plane_worker(
            z_packed,
            cpb,
            n_tiles,
            w,
            useful_bits,
            fuse,
            pair_tiles,
            grab,
            n_workers,
            v,
        )
    };
    let planes: Vec<Vec<u8>> = par_map(n_workers, f);
    let ghost full = block_fold(
        z_packed@,
        k as int,
        (64 * n_tiles) as nat,
        w.weight(),
        useful_bits as int,
    );
    proof {
        assert forall|i: int| 0 <= i < useful_bits implies #[trigger] full[i] == fsum(
            planes@.len(),
            |v: int| col_of(planes@[v]@, i),
        ) by {
            lemma_block_workers(
                z_packed@,
                cpb as int,
                (8 * n_tiles) as nat,
                w.weight(),
                grab as int,
                n_workers as nat,
                i,
                |v: int| col_of(planes@[v]@, i),
            );
            assert(8 * (8 * n_tiles) == 64 * n_tiles);
        }
    }
    let half: usize = k / 2;
    let out_len: usize = if top_bind.is_some() {
        half
    } else {
        k
    };
    let mut out: Vec<F128> = Vec::new();
    let mut ones: Vec<F128> = Vec::new();
    let mut blk: usize = 0;
    while 64 * blk < out_len
        invariant
            64 * blk <= out_len,
            out_len <= k,
            k % 128 == 0,
            half == k / 2,
            16 * k <= usize::MAX,
            useful_bits <= k,
            out_len == (if top_bind is Some {
                half
            } else {
                k
            }),
            forall|v: int| 0 <= v < planes@.len() ==> #[trigger] planes@[v]@.len() == 16 * k,
            full.len() == k,
            forall|i: int|
                0 <= i < useful_bits ==> #[trigger] full[i] == fsum(
                    planes@.len(),
                    |v: int| col_of(planes@[v]@, i),
                ),
            forall|i: int| useful_bits <= i < k ==> #[trigger] full[i] == fzero(),
            out@.len() == 64 * blk,
            forall|i: int|
                0 <= i < 64 * blk ==> #[trigger] out@[i] == with_bind(full, top_bind)[i],
            ranked_one_rows ==> top_bind is Some,
            ranked_one_rows ==> ones@.len() == 64 * blk && forall|i: int|
                0 <= i < 64 * blk ==> #[trigger] ones@[i] == one_rows(full, top_bind->0)[i],
        decreases out_len - 64 * blk,
    {
        let lo: Vec<F128> = reduced_block(&planes, blk, useful_bits, k);
        match top_bind {
            None => {
                let mut c: usize = 0;
                while c < 64
                    invariant
                        c <= 64,
                        top_bind is None,
                        64 * blk + 64 <= full.len(),
                        lo@.len() == 64,
                        forall|d: int| 0 <= d < 64 ==> #[trigger] lo@[d] == full[64 * blk + d],
                        out@.len() == 64 * blk + c,
                        forall|i: int|
                            0 <= i < 64 * blk + c ==> #[trigger] out@[i] == with_bind(
                                full,
                                top_bind,
                            )[i],
                    decreases 64 - c,
                {
                    out.push(lo[c]);
                    c = c + 1;
                }
            },
            Some(r) => {
                let hi: Vec<F128> = reduced_block(&planes, blk + k / 128, useful_bits, k);
                let mut c: usize = 0;
                while c < 64
                    invariant
                        c <= 64,
                        top_bind == Some(r),
                        half == k / 2,
                        k == full.len(),
                        k % 128 == 0,
                        64 * blk + 64 <= half,
                        lo@.len() == 64,
                        hi@.len() == 64,
                        16 * k <= usize::MAX,
                        forall|d: int| 0 <= d < 64 ==> #[trigger] lo@[d] == full[64 * blk + d],
                        forall|d: int|
                            0 <= d < 64 ==> #[trigger] hi@[d] == full[64 * blk + half + d],
                        out@.len() == 64 * blk + c,
                        forall|i: int|
                            0 <= i < 64 * blk + c ==> #[trigger] out@[i] == with_bind(
                                full,
                                top_bind,
                            )[i],
                        ranked_one_rows ==> ones@.len() == 64 * blk + c && forall|i: int|
                            0 <= i < 64 * blk + c ==> #[trigger] ones@[i] == one_rows(full, r)[i],
                    decreases 64 - c,
                {
                    out.push(mix(lo[c], hi[c], r));
                    if ranked_one_rows {
                        let col: usize = 64 * blk + c;
                        let v: F128 = if col < ONE_ROWS_LO {
                            (F128::one() + r) * lo[c]
                        } else if ONE_ROWS_HI_START <= col && col < ONE_ROWS_HI_END {
                            r * hi[c]
                        } else {
                            F128::zero()
                        };
                        ones.push(v);
                    }
                    c = c + 1;
                }
            },
        }
        blk = blk + 1;
    }
    proof {
        assert(out@ =~= with_bind(full, top_bind));
        if ranked_one_rows {
            assert(ones@ =~= one_rows(full, top_bind->0));
        }
    }
    if ranked_one_rows {
        (out, Some(ones))
    } else {
        (out, None)
    }
}

/// The plane-major fold over full tiles.
pub fn fold_block_major_gfni(
    z_packed: &[F128],
    k: usize,
    useful_bits: usize,
    n_workers: usize,
    tiles_per_worker: usize,
    n_tiles: usize,
    dynamic: bool,
    fuse: bool,
    w: &OuterWeights,
    top_bind: Option<F128>,
) -> (out: Vec<F128>)
    requires
        n_workers > 0,
        tiles_per_worker > 0,
        k > 0,
        k % 128 == 0,
        16 * k <= usize::MAX,
        64 * n_tiles <= usize::MAX,
        z_packed@.len() == 64 * n_tiles * (k / 128),
        w.count() == 64 * n_tiles,
        useful_bits <= k,
    ensures
        out@ == with_bind(
            block_fold(
                z_packed@,
                k as int,
                (64 * n_tiles) as nat,
                w.weight(),
                useful_bits as int,
            ),
            top_bind,
        ),
{
    let r: (Vec<F128>, Option<Vec<F128>>) = fold_block_major_gfni_with_pairs(
        z_packed,
        k,
        useful_bits,
        n_workers,
        tiles_per_worker,
        n_tiles,
        dynamic,
        fuse,
        w,
        top_bind,
        false,
        false,
    );
    r.0
}

} // verus!

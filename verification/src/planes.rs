//! Byte-plane accumulators. A 64-column block takes 1024 bytes: byte `j` of
//! column `c` lies at `64 * j + c`, so one bit matrix serves 64 columns.

use crate::bits::{fbyte, lemma_byte_add, lemma_field_ext, lemma_word_from_bytes, transpose_8x8_bytes, word_at, word_byte, word_from_bytes};
use crate::field::{fadd, fzero, lemma_add_zero, F128};
use crate::sums::fsum;
use crate::tables::{affine_byte, affine_table, basis_mats, byte_sum, lemma_affine_is_byte_sum};
use vstd::prelude::*;

verus! {

/// Column `c` of the plane block that starts at `at`.
pub open spec fn plane_col(planes: Seq<u8>, at: int, c: int) -> F128 {
    F128 {
        lo: word_from_bytes(|j: nat| planes[at + 64 * j + c]),
        hi: word_from_bytes(|j: nat| planes[at + 64 * (8 + j) + c]),
    }
}

/// The bytes of a plane column.
pub proof fn lemma_plane_col_byte(planes: Seq<u8>, at: int, c: int, j: nat)
    requires
        j < 16,
    ensures
        fbyte(plane_col(planes, at, c), j) == planes[at + 64 * j + c],
{
    if j < 8 {
        lemma_word_from_bytes(|j: nat| planes[at + 64 * j + c], j);
    } else {
        lemma_word_from_bytes(|j: nat| planes[at + 64 * (8 + j) + c], (j - 8) as nat);
    }
}

/// A column is known once its sixteen bytes are.
pub proof fn lemma_plane_col_is(planes: Seq<u8>, at: int, c: int, v: F128)
    requires
        forall|j: int| 0 <= j < 16 ==> #[trigger] planes[at + 64 * j + c] == fbyte(v, j as nat),
    ensures
        plane_col(planes, at, c) == v,
{
    assert forall|j: nat| j < 16 implies fbyte(plane_col(planes, at, c), j) == fbyte(v, j) by {
        lemma_plane_col_byte(planes, at, c, j);
        assert(planes[at + 64 * (j as int) + c] == fbyte(v, j));
    }
    lemma_field_ext(plane_col(planes, at, c), v);
}

/// The XOR of the products of the first `n` stripes of a tile, for byte `j` of
/// the column at offset `pos`.
pub open spec fn plane_xor(
    mats: Seq<u64>,
    tile: Seq<u8>,
    stride: int,
    pos: int,
    j: int,
    n: nat,
) -> u8
    decreases n,
{
    if n == 0 {
        0
    } else {
        plane_xor(mats, tile, stride, pos, j, (n - 1) as nat) ^ affine_byte(
            mats[16 * (n - 1) + j],
            tile[(n - 1) * stride + pos],
        )
    }
}

/// What the tile holds fits: eight strided rows of `n_blocks64` blocks each.
pub open spec fn tile_fits(len: int, at: int, stride: int, n_blocks64: int) -> bool {
    n_blocks64 == 0 || 0 <= at && at + 7 * stride + 64 * n_blocks64 <= len
}

/// Adds a tile of eight stripes to `n_blocks64` plane blocks from `out_at` on.
/// The planes start from zero where `seed_zero` is set.
pub fn gfni_fold_tile(
    tile: &[u8],
    tile_at: usize,
    stride: usize,
    n_blocks64: usize,
    mats: &[u64; 128],
    planes: &mut [u8],
    out_at: usize,
    seed_zero: bool,
)
    requires
        tile_fits(tile@.len() as int, tile_at as int, stride as int, n_blocks64 as int),
        out_at + 1024 * n_blocks64 <= old(planes)@.len(),
    ensures
        final(planes)@.len() == old(planes)@.len(),
        forall|b: int, j: int, c: int|
            0 <= b < n_blocks64 && 0 <= j < 16 && 0 <= c < 64 ==> #[trigger] final(planes)@[out_at
                + 1024 * b + 64 * j + c] == (if seed_zero {
                0u8
            } else {
                old(planes)@[out_at + 1024 * b + 64 * j + c]
            }) ^ plane_xor(mats@, tile@, stride as int, tile_at + 64 * b + c, j, 8),
        forall|i: int|
            0 <= i < old(planes)@.len() && !(out_at <= i < out_at + 1024 * n_blocks64)
                ==> #[trigger] final(planes)@[i] == old(planes)@[i],
{
    let planes_len: usize = planes.len();
    let tile_len: usize = tile.len();
    let ghost before = planes@;
    let mut table: Vec<u8> = vec![0u8; 2048];
    let mut j: usize = 0;
    while j < 16
        invariant
            j <= 16,
            table@.len() == 2048,
            planes_len == before.len(),
            planes@.len() == before.len(),
            tile_len == tile@.len(),
            tile_fits(tile_len as int, tile_at as int, stride as int, n_blocks64 as int),
            out_at + 1024 * n_blocks64 <= planes_len,
            forall|b: int, i: int, c: int|
                0 <= b < n_blocks64 && 0 <= i < 16 && 0 <= c < 64 ==> #[trigger] planes@[out_at
                    + 1024 * b + 64 * i + c] == if i < j {
                    (if seed_zero {
                        0u8
                    } else {
                        before[out_at + 1024 * b + 64 * i + c]
                    }) ^ plane_xor(mats@, tile@, stride as int, tile_at + 64 * b + c, i, 8)
                } else {
                    before[out_at + 1024 * b + 64 * i + c]
                },
            forall|i: int|
                0 <= i < before.len() && !(out_at <= i < out_at + 1024 * n_blocks64)
                    ==> #[trigger] planes@[i] == before[i],
        decreases 16 - j,
    {
        plane_tables(mats, j, &mut table);
        let ghost mid = planes@;
        let mut b: usize = 0;
        while b < n_blocks64
            invariant
                b <= n_blocks64,
                j < 16,
                table@.len() == 2048,
                planes_len == before.len(),
                planes@.len() == before.len(),
                mid.len() == before.len(),
                tile_len == tile@.len(),
                tile_fits(tile_len as int, tile_at as int, stride as int, n_blocks64 as int),
                out_at + 1024 * n_blocks64 <= planes_len,
                forall|t: int, x: u8|
                    0 <= t < 8 ==> #[trigger] table@[256 * t + x] == affine_byte(
                        mats@[16 * t + j],
                        x,
                    ),
                forall|a: int, i: int, c: int|
                    0 <= a < n_blocks64 && 0 <= i < 16 && 0 <= c < 64 ==> #[trigger] planes@[out_at
                        + 1024 * a + 64 * i + c] == if i == j && a < b {
                        (if seed_zero {
                            0u8
                        } else {
                            mid[out_at + 1024 * a + 64 * i + c]
                        }) ^ plane_xor(mats@, tile@, stride as int, tile_at + 64 * a + c, i, 8)
                    } else {
                        mid[out_at + 1024 * a + 64 * i + c]
                    },
                forall|i: int|
                    0 <= i < before.len() && !(out_at <= i < out_at + 1024 * n_blocks64)
                        ==> #[trigger] planes@[i] == mid[i],
            decreases n_blocks64 - b,
        {
            let mut c: usize = 0;
            let ghost row = planes@;
            while c < 64
                invariant
                    c <= 64,
                    b < n_blocks64,
                    j < 16,
                    table@.len() == 2048,
                    planes_len == before.len(),
                    planes@.len() == before.len(),
                    row.len() == before.len(),
                    tile_len == tile@.len(),
                    tile_fits(tile_len as int, tile_at as int, stride as int, n_blocks64 as int),
                    out_at + 1024 * n_blocks64 <= planes_len,
                    forall|t: int, x: u8|
                        0 <= t < 8 ==> #[trigger] table@[256 * t + x] == affine_byte(
                            mats@[16 * t + j],
                            x,
                        ),
                    forall|i: int|
                        0 <= i < before.len() && !(out_at + 1024 * b + 64 * j <= i < out_at + 1024
                            * b + 64 * j + c) ==> #[trigger] planes@[i] == row[i],
                    forall|d: int|
                        0 <= d < c ==> #[trigger] planes@[out_at + 1024 * b + 64 * j + d] == (
                        if seed_zero {
                            0u8
                        } else {
                            row[out_at + 1024 * b + 64 * j + d]
                        }) ^ plane_xor(
                            mats@,
                            tile@,
                            stride as int,
                            tile_at + 64 * b + d,
                            j as int,
                            8,
                        ),
                decreases 64 - c,
            {
                let at: usize = out_at + 1024 * b + 64 * j + c;
                let start: u8 = if seed_zero {
                    0
                } else {
                    planes[at]
                };
                let pos: usize = tile_at + 64 * b + c;
                let mut acc: u8 = 0;
                let mut t: usize = 0;
                while t < 8
                    invariant
                        t <= 8,
                        c < 64,
                        b < n_blocks64,
                        j < 16,
                        table@.len() == 2048,
                        tile_len == tile@.len(),
                        tile_fits(
                            tile_len as int,
                            tile_at as int,
                            stride as int,
                            n_blocks64 as int,
                        ),
                        pos == tile_at + 64 * b + c,
                        forall|t: int, x: u8|
                            0 <= t < 8 ==> #[trigger] table@[256 * t + x] == affine_byte(
                                mats@[16 * t + j],
                                x,
                            ),
                        acc == plane_xor(
                            mats@,
                            tile@,
                            stride as int,
                            pos as int,
                            j as int,
                            t as nat,
                        ),
                    decreases 8 - t,
                {
                    proof {
                        assert(t * stride <= 7 * stride) by (nonlinear_arith)
                            requires
                                t <= 7,
                                stride >= 0,
                        ;
                    }
                    let x: u8 = tile[t * stride + pos];
                    assert(table@[256 * t + x] == affine_byte(mats@[16 * t + j], x));
                    acc = acc ^ table[256 * t + x as usize];
                    t = t + 1;
                }
                planes[at] = start ^ acc;
                c = c + 1;
            }
            proof {
                assert forall|a: int, i: int, c: int|
                    0 <= a < n_blocks64 && 0 <= i < 16 && 0 <= c < 64 implies #[trigger] planes@[out_at
                    + 1024 * a + 64 * i + c] == if i == j && a < b + 1 {
                    (if seed_zero {
                        0u8
                    } else {
                        mid[out_at + 1024 * a + 64 * i + c]
                    }) ^ plane_xor(mats@, tile@, stride as int, tile_at + 64 * a + c, i, 8)
                } else {
                    mid[out_at + 1024 * a + 64 * i + c]
                } by {
                    if a == b && i == j {
                        assert(row[out_at + 1024 * b + 64 * j + c] == mid[out_at + 1024 * b + 64 * j
                            + c]);
                    } else {
                        assert(planes@[out_at + 1024 * a + 64 * i + c] == row[out_at + 1024 * a + 64
                            * i + c]);
                    }
                }
            }
            b = b + 1;
        }
        j = j + 1;
    }
}

/// The lookup tables of the eight stripes for byte `j`.
fn plane_tables(mats: &[u64; 128], j: usize, table: &mut Vec<u8>)
    requires
        j < 16,
        old(table)@.len() == 2048,
    ensures
        final(table)@.len() == 2048,
        forall|t: int, x: u8|
            0 <= t < 8 ==> #[trigger] final(table)@[256 * t + x] == affine_byte(
                mats@[16 * t + j],
                x,
            ),
{
    let mut t: usize = 0;
    while t < 8
        invariant
            t <= 8,
            j < 16,
            table@.len() == 2048,
            forall|u: int, x: u8|
                0 <= u < t ==> #[trigger] table@[256 * u + x] == affine_byte(mats@[16 * u + j], x),
        decreases 8 - t,
    {
        let ghost before = table@;
        affine_table(mats[16 * t + j], table, 256 * t);
        proof {
            assert forall|u: int, x: u8| 0 <= u < t + 1 implies #[trigger] table@[256 * u + x]
                == affine_byte(mats@[16 * u + j], x) by {
                if u < t {
                    assert(table@[256 * u + x] == before[256 * u + x]);
                } else {
                    assert(table@[(256 * t) as int + x] == affine_byte(mats@[16 * t + j], x));
                }
            }
        }
        t = t + 1;
    }
}

/// Adds two tiles, each with its own matrices, to the planes in one call.
pub fn gfni_fold_tile_pair_nonseed(
    tile0: &[u8],
    tile1: &[u8],
    stride: usize,
    n_blocks64: usize,
    mats0: &[u64; 128],
    mats1: &[u64; 128],
    planes: &mut [u8],
    out_at: usize,
)
    requires
        tile_fits(tile0@.len() as int, 0, stride as int, n_blocks64 as int),
        tile_fits(tile1@.len() as int, 0, stride as int, n_blocks64 as int),
        out_at + 1024 * n_blocks64 <= old(planes)@.len(),
    ensures
        final(planes)@.len() == old(planes)@.len(),
        forall|b: int, j: int, c: int|
            0 <= b < n_blocks64 && 0 <= j < 16 && 0 <= c < 64 ==> #[trigger] final(planes)@[out_at
                + 1024 * b + 64 * j + c] == (old(planes)@[out_at + 1024 * b + 64 * j + c]
                ^ plane_xor(mats0@, tile0@, stride as int, 64 * b + c, j, 8)) ^ plane_xor(
                mats1@,
                tile1@,
                stride as int,
                64 * b + c,
                j,
                8,
            ),
        forall|i: int|
            0 <= i < old(planes)@.len() && !(out_at <= i < out_at + 1024 * n_blocks64)
                ==> #[trigger] final(planes)@[i] == old(planes)@[i],
{
    gfni_fold_tile(tile0, 0, stride, n_blocks64, mats0, planes, out_at, false);
    let ghost mid = planes@;
    gfni_fold_tile(tile1, 0, stride, n_blocks64, mats1, planes, out_at, false);
    proof {
        assert forall|b: int, j: int, c: int|
            0 <= b < n_blocks64 && 0 <= j < 16 && 0 <= c < 64 implies #[trigger] planes@[out_at
            + 1024 * b + 64 * j + c] == (old(planes)@[out_at + 1024 * b + 64 * j + c] ^ plane_xor(
            mats0@,
            tile0@,
            stride as int,
            64 * b + c,
            j,
            8,
        )) ^ plane_xor(mats1@, tile1@, stride as int, 64 * b + c, j, 8) by {
            assert(mid[out_at + 1024 * b + 64 * j + c] == old(planes)@[out_at + 1024 * b + 64 * j
                + c] ^ plane_xor(mats0@, tile0@, stride as int, 0 + 64 * b + c, j, 8));
        }
    }
}

/// Adding the same pair of tiles twice restores every plane byte.
pub proof fn lemma_pair_twice_cancels(p: u8, x: u8, y: u8)
    ensures
        (((p ^ x) ^ y) ^ x) ^ y == p,
{
    assert((((p ^ x) ^ y) ^ x) ^ y == p) by (bit_vector);
}

/// The matrices of a tile come from the weights of its eight stripes.
pub open spec fn tile_mats(w: spec_fn(int) -> Seq<F128>, mats: Seq<u64>) -> bool {
    &&& mats.len() == 128
    &&& forall|t: int|
        #![trigger w(t)]
        0 <= t < 8 ==> w(t).len() == 8 && basis_mats(w(t), mats.subrange(16 * t, 16 * t + 16))
}

proof fn lemma_plane_xor_sum(
    w: spec_fn(int) -> Seq<F128>,
    mats: Seq<u64>,
    tile: Seq<u8>,
    stride: int,
    pos: int,
    j: int,
    n: nat,
)
    requires
        tile_mats(w, mats),
        0 <= j < 16,
        n <= 8,
    ensures
        plane_xor(mats, tile, stride, pos, j, n) == fbyte(
            fsum(n, |t: int| byte_sum(tile[t * stride + pos], w(t))),
            j as nat,
        ),
    decreases n,
{
    let f = |t: int| byte_sum(tile[t * stride + pos], w(t));
    if n == 0 {
        lemma_zero_bytes(j as nat);
    } else {
        let t = n - 1;
        lemma_plane_xor_sum(w, mats, tile, stride, pos, j, t as nat);
        lemma_byte_add(fsum(t as nat, f), f(t), j as nat);
        let sub = mats.subrange(16 * t, 16 * t + 16);
        assert(w(t).len() == 8);
        lemma_affine_is_byte_sum(w(t), sub, tile[t * stride + pos], j);
        assert(sub[j] == mats[16 * t + j]);
    }
}

/// In terms of columns, a tile adds the subset sums of its eight bytes.
pub proof fn lemma_plane_tile(
    w: spec_fn(int) -> Seq<F128>,
    mats: Seq<u64>,
    tile: Seq<u8>,
    stride: int,
    pos: int,
    old_planes: Seq<u8>,
    new_planes: Seq<u8>,
    at: int,
    c: int,
    seed_zero: bool,
)
    requires
        tile_mats(w, mats),
        forall|j: int|
            0 <= j < 16 ==> #[trigger] new_planes[at + 64 * j + c] == (if seed_zero {
                0u8
            } else {
                old_planes[at + 64 * j + c]
            }) ^ plane_xor(mats, tile, stride, pos, j, 8),
    ensures
        plane_col(new_planes, at, c) == fadd(
            if seed_zero {
                fzero()
            } else {
                plane_col(old_planes, at, c)
            },
            fsum(8, |t: int| byte_sum(tile[t * stride + pos], w(t))),
        ),
{
    let s = fsum(8, |t: int| byte_sum(tile[t * stride + pos], w(t)));
    let base = if seed_zero {
        fzero()
    } else {
        plane_col(old_planes, at, c)
    };
    let v = fadd(base, s);
    assert forall|j: int| 0 <= j < 16 implies #[trigger] new_planes[at + 64 * j + c] == fbyte(
        v,
        j as nat,
    ) by {
        lemma_plane_xor_sum(w, mats, tile, stride, pos, j, 8);
        lemma_byte_add(base, s, j as nat);
        lemma_plane_col_byte(old_planes, at, c, j as nat);
        lemma_zero_bytes(j as nat);
    }
    lemma_plane_col_is(new_planes, at, c, v);
}

proof fn lemma_zero_bytes(j: nat)
    requires
        j < 16,
    ensures
        fbyte(fzero(), j) == 0,
{
    lemma_byte_add(fzero(), fzero(), j);
    lemma_add_zero(fzero());
    let z = fbyte(fzero(), j);
    assert(z ^ z == 0) by (bit_vector);
}

/// A zeroed plane column is zero.
pub proof fn lemma_plane_col_zero(planes: Seq<u8>, at: int, c: int)
    requires
        forall|j: int| 0 <= j < 16 ==> #[trigger] planes[at + 64 * j + c] == 0,
    ensures
        plane_col(planes, at, c) == fzero(),
{
    assert forall|j: int| 0 <= j < 16 implies #[trigger] planes[at + 64 * j + c] == fbyte(
        fzero(),
        j as nat,
    ) by {
        lemma_zero_bytes(j as nat);
    }
    lemma_plane_col_is(planes, at, c, fzero());
}

/// XORs `n` bytes of `src` into `dst`.
pub fn xor_bytes(dst: &mut [u8], src: &[u8], src_at: usize)
    requires
        src_at + old(dst)@.len() <= src@.len(),
    ensures
        final(dst)@.len() == old(dst)@.len(),
        forall|i: int|
            0 <= i < old(dst)@.len() ==> #[trigger] final(dst)@[i] == old(dst)@[i] ^ src@[src_at
                + i],
{
    let n: usize = dst.len();
    let src_len: usize = src.len();
    let ghost before = dst@;
    let mut i: usize = 0;
    while i < n
        invariant
            i <= n,
            n == dst@.len(),
            n == before.len(),
            src_len == src@.len(),
            src_at + n <= src_len,
            forall|t: int| 0 <= t < i ==> #[trigger] dst@[t] == before[t] ^ src@[src_at + t],
            forall|t: int| i <= t < n ==> #[trigger] dst@[t] == before[t],
        decreases n - i,
    {
        dst[i] = dst[i] ^ src[src_at + i];
        i = i + 1;
    }
}

/// What the workers' planes hold at column `c` of the block at `at`, added up.
pub open spec fn plane_sum(planes: Seq<Vec<u8>>, at: int, c: int, n: nat) -> F128 {
    fsum(n, |v: int| plane_col(planes[v]@, at, c))
}

/// Adds up one plane block over the workers and transposes it back to columns.
pub fn reduce_worker_plane_block(planes: &Vec<Vec<u8>>, blk: usize) -> (out: Vec<F128>)
    requires
        1024 * blk + 1024 <= usize::MAX,
        forall|v: int|
            0 <= v < planes@.len() ==> 1024 * blk + 1024 <= #[trigger] planes@[v]@.len(),
    ensures
        out@.len() == 64,
        forall|c: int|
            0 <= c < 64 ==> #[trigger] out@[c] == plane_sum(
                planes@,
                1024 * blk as int,
                c,
                planes@.len(),
            ),
{
    let base: usize = 1024 * blk;
    let mut acc: Vec<u8> = vec![0u8; 1024];
    let workers: usize = planes.len();
    let mut v: usize = 0;
    proof {
        assert forall|c: int| 0 <= c < 64 implies #[trigger] plane_col(acc@, 0, c) == plane_sum(
            planes@,
            base as int,
            c,
            0,
        ) by {
            lemma_plane_col_zero(acc@, 0, c);
        }
    }
    while v < workers
        invariant
            v <= workers,
            workers == planes@.len(),
            base == 1024 * blk,
            1024 * blk + 1024 <= usize::MAX,
            acc@.len() == 1024,
            forall|u: int|
                0 <= u < planes@.len() ==> 1024 * blk + 1024 <= #[trigger] planes@[u]@.len(),
            forall|c: int|
                0 <= c < 64 ==> #[trigger] plane_col(acc@, 0, c) == plane_sum(
                    planes@,
                    base as int,
                    c,
                    v as nat,
                ),
        decreases workers - v,
    {
        let ghost before = acc@;
        let src: &Vec<u8> = &planes[v];
        xor_bytes(&mut acc, src, base);
        proof {
            assert forall|c: int| 0 <= c < 64 implies #[trigger] plane_col(acc@, 0, c)
                == plane_sum(planes@, base as int, c, (v + 1) as nat) by {
                let p = plane_col(before, 0, c);
                let q = plane_col(src@, base as int, c);
                assert forall|j: int| 0 <= j < 16 implies #[trigger] acc@[0 + 64 * j + c] == fbyte(
                    fadd(p, q),
                    j as nat,
                ) by {
                    lemma_byte_add(p, q, j as nat);
                    lemma_plane_col_byte(before, 0, c, j as nat);
                    lemma_plane_col_byte(src@, base as int, c, j as nat);
                    assert(acc@[64 * j + c] == before[64 * j + c] ^ src@[base + (64 * j + c)]);
                }
                lemma_plane_col_is(acc@, 0, c, fadd(p, q));
            }
        }
        v = v + 1;
    }
    let out: Vec<F128> = planes_to_columns(&acc);
    out
}

/// Transposes one plane block to its 64 columns, eight columns at a time.
fn planes_to_columns(acc: &Vec<u8>) -> (out: Vec<F128>)
    requires
        acc@.len() == 1024,
    ensures
        out@.len() == 64,
        forall|c: int| 0 <= c < 64 ==> #[trigger] out@[c] == plane_col(acc@, 0, c),
{
    let mut out: Vec<F128> = Vec::new();
    let mut g: usize = 0;
    while g < 8
        invariant
            g <= 8,
            acc@.len() == 1024,
            out@.len() == 8 * g,
            forall|c: int| 0 <= c < 8 * g ==> #[trigger] out@[c] == plane_col(acc@, 0, c),
        decreases 8 - g,
    {
        let lo: [u64; 8] = plane_rows(acc, 8 * g);
        let hi: [u64; 8] = plane_rows(acc, 512 + 8 * g);
        let lo_cols: [u64; 8] = transpose_8x8_bytes(lo);
        let hi_cols: [u64; 8] = transpose_8x8_bytes(hi);
        let mut c: usize = 0;
        while c < 8
            invariant
                c <= 8,
                g < 8,
                acc@.len() == 1024,
                out@.len() == 8 * g + c,
                forall|i: int, j: int|
                    0 <= i < 8 && 0 <= j < 8 ==> #[trigger] word_byte(lo_cols@[i], j as nat)
                        == acc@[64 * j + 8 * g + i],
                forall|i: int, j: int|
                    0 <= i < 8 && 0 <= j < 8 ==> #[trigger] word_byte(hi_cols@[i], j as nat)
                        == acc@[512 + 64 * j + 8 * g + i],
                forall|i: int| 0 <= i < 8 * g + c ==> #[trigger] out@[i] == plane_col(acc@, 0, i),
            decreases 8 - c,
        {
            let v: F128 = F128 { lo: lo_cols[c], hi: hi_cols[c] };
            proof {
                let col = (8 * g + c) as int;
                assert forall|j: int| 0 <= j < 16 implies #[trigger] acc@[0 + 64 * j + col]
                    == fbyte(v, j as nat) by {
                    if j < 8 {
                        assert(word_byte(lo_cols@[c as int], j as nat) == acc@[64 * j + 8 * g + c]);
                    } else {
                        let i = j - 8;
                        assert(word_byte(hi_cols@[c as int], i as nat) == acc@[512 + 64 * i + 8 * g
                            + c]);
                    }
                }
                lemma_plane_col_is(acc@, 0, col, v);
            }
            out.push(v);
            c = c + 1;
        }
        g = g + 1;
    }
    out
}

/// Eight consecutive columns of eight consecutive byte planes, one word per plane.
fn plane_rows(acc: &Vec<u8>, at: usize) -> (rows: [u64; 8])
    requires
        at + 456 <= acc@.len(),
    ensures
        forall|j: int, i: int|
            0 <= j < 8 && 0 <= i < 8 ==> #[trigger] word_byte(rows@[j], i as nat) == acc@[at + 64 * j
                + i],
{
    let len: usize = acc.len();
    let rows: [u64; 8] = [
        word_at(acc, at),
        word_at(acc, at + 64),
        word_at(acc, at + 128),
        word_at(acc, at + 192),
        word_at(acc, at + 256),
        word_at(acc, at + 320),
        word_at(acc, at + 384),
        word_at(acc, at + 448),
    ];
    rows
}

} // verus!

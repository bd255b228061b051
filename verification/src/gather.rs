//! Gathering a tile of the block-major witness and turning it into table bytes.

use crate::bits::{byte_bit, fbyte, lemma_set_bit, transpose_8_f128s_to_128_bytes, word_at, word_byte};
use crate::field::{fbit, F128};
use crate::tables::{affine, affine_bit, lemma_affine_bits, lemma_word_byte_bit, mat_bit};
use vstd::prelude::*;

verus! {

/// Stripes gathered together: eight stripes cover 64 outer blocks.
pub const DIRECT_FOLD_TILE_STRIPES: usize = 8;

/// Bit `r` of byte `128 j + b` is coefficient `b` of element `q` of outer block
/// `8 (base + j) + r`, for the first `n` stripes of the tile.
pub open spec fn is_gather(
    z: Seq<F128>,
    cpb: int,
    base: int,
    n: int,
    q: int,
    out: Seq<u8>,
    at: int,
) -> bool {
    forall|j: int, b: int, r: nat|
        0 <= j < n && 0 <= b < 128 && r < 8 ==> #[trigger] byte_bit(out[at + 128 * j + b], r)
            == fbit(z[(8 * (base + j) + r) * cpb + q], b as nat)
}

/// Which byte of two 64-byte tables feeds output byte `i` of the transpose of one
/// limb: table rows 0 to 3 lie in the first table, rows 4 to 7 in the second,
/// each as eight low-limb bytes and eight high-limb bytes.
pub open spec fn gather_index(high: bool, i: int) -> int {
    let row = 7 - i % 8;
    let limb: int = if high {
        8
    } else {
        0
    };
    16 * row + limb + i / 8
}

/// The byte selectors of the two-table gather, for the low or the high limbs.
pub fn gather_transpose_vpermt2b_indices(high: bool) -> (indices: [u8; 64])
    ensures
        forall|i: int| 0 <= i < 64 ==> #[trigger] indices@[i] == gather_index(high, i),
{
    let mut indices: [u8; 64] = [0u8;64];
    let mut i: usize = 0;
    while i < 64
        invariant
            i <= 64,
            forall|t: int| 0 <= t < i ==> #[trigger] indices@[t] == gather_index(high, t),
        decreases 64 - i,
    {
        let row: usize = 7 - i % 8;
        let byte_in_limb: usize = i / 8;
        let limb_offset: usize = if high {
            8
        } else {
            0
        };
        let v: usize = if row < 4 {
            16 * row + limb_offset + byte_in_limb
        } else {
            64 + 16 * (row - 4) + limb_offset + byte_in_limb
        };
        indices[i] = v as u8;
        i = i + 1;
    }
    indices
}

/// The bytes of a field element, low limb first.
fn field_byte_at(a: F128, j: usize) -> (b: u8)
    requires
        j < 16,
    ensures
        b == fbyte(a, j as nat),
{
    if j < 8 {
        (a.lo >> ((8 * j) as u64)) as u8
    } else {
        (a.hi >> ((8 * (j - 8)) as u64)) as u8
    }
}

/// Coefficient `8 l + i` of an element is bit `i` of its byte `l`.
proof fn lemma_coefficient(a: F128, l: nat, i: nat)
    requires
        l < 16,
        i < 8,
    ensures
        byte_bit(fbyte(a, l), i) == fbit(a, 8 * l + i),
{
    if l < 8 {
        lemma_word_byte_bit(a.lo, l, i);
    } else {
        lemma_word_byte_bit(a.hi, (l - 8) as nat, i);
    }
}

proof fn lemma_affine_unit(m: u64, i: nat, t: nat, n: nat)
    requires
        i < 8,
        n <= 8,
    ensures
        affine_bit(m, 1u8 << (i as u8), t, n) == (i < n && mat_bit(m, t, i)),
    decreases n,
{
    if n > 0 {
        let k = (n - 1) as nat;
        lemma_affine_unit(m, i, t, k);
        lemma_set_bit(0, i as u8, k);
        let u = i as u8;
        assert(0u8 | (1u8 << u) == 1u8 << u) by (bit_vector);
    }
}

/// The selector form of the transpose: permute the rows' bytes by
/// [`gather_transpose_vpermt2b_indices`] and read each bit matrix column by
/// column.
pub fn transpose_8_f128s_by_selectors(lanes: &[F128; 8], out: &mut [u8], at: usize)
    requires
        at + 128 <= old(out)@.len(),
    ensures
        final(out)@.len() == old(out)@.len(),
        forall|i: int|
            0 <= i < old(out)@.len() && !(at <= i < at + 128) ==> #[trigger] final(out)@[i] == old(
                out,
            )@[i],
        forall|b: int, r: nat|
            0 <= b < 128 && r < 8 ==> #[trigger] byte_bit(final(out)@[at + b], r) == fbit(
                lanes@[r as int],
                b as nat,
            ),
{
    let len: usize = out.len();
    let ghost before = out@;
    let mut rows: Vec<u8> = Vec::new();
    let mut p: usize = 0;
    while p < 128
        invariant
            p <= 128,
            rows@.len() == p,
            forall|t: int|
                0 <= t < p ==> #[trigger] rows@[t] == fbyte(lanes@[t / 16], (t % 16) as nat),
        decreases 128 - p,
    {
        rows.push(field_byte_at(lanes[p / 16], p % 16));
        p = p + 1;
    }
    let lo: [u8; 64] = gather_transpose_vpermt2b_indices(false);
    let hi: [u8; 64] = gather_transpose_vpermt2b_indices(true);
    let mut b: usize = 0;
    while b < 128
        invariant
            b <= 128,
            len == before.len(),
            out@.len() == before.len(),
            at + 128 <= before.len(),
            rows@.len() == 128,
            forall|t: int|
                0 <= t < 128 ==> #[trigger] rows@[t] == fbyte(lanes@[t / 16], (t % 16) as nat),
            forall|i: int| 0 <= i < 64 ==> #[trigger] lo@[i] == gather_index(false, i),
            forall|i: int| 0 <= i < 64 ==> #[trigger] hi@[i] == gather_index(true, i),
            forall|i: int|
                0 <= i < before.len() && !(at <= i < at + 128) ==> #[trigger] out@[i] == before[i],
            forall|c: int, r: nat|
                0 <= c < b && r < 8 ==> #[trigger] byte_bit(out@[at + c], r) == fbit(
                    lanes@[r as int],
                    c as nat,
                ),
        decreases 128 - b,
    {
        let high: bool = b >= 64;
        let lane: usize = (b % 64) / 8;
        let mut word: Vec<u8> = Vec::new();
        let mut j: usize = 0;
        while j < 8
            invariant
                j <= 8,
                b < 128,
                lane == (b % 64) / 8,
                high == (b >= 64),
                rows@.len() == 128,
                forall|t: int|
                    0 <= t < 128 ==> #[trigger] rows@[t] == fbyte(lanes@[t / 16], (t % 16) as nat),
                forall|i: int| 0 <= i < 64 ==> #[trigger] lo@[i] == gather_index(false, i),
                forall|i: int| 0 <= i < 64 ==> #[trigger] hi@[i] == gather_index(true, i),
                word@.len() == j,
                forall|t: int|
                    0 <= t < j ==> #[trigger] word@[t] == fbyte(lanes@[7 - t], (b / 8) as nat),
            decreases 8 - j,
        {
            let sel: u8 = if high {
                hi[8 * lane + j]
            } else {
                lo[8 * lane + j]
            };
            proof {
                let limb: int = if high {
                    8
                } else {
                    0
                };
                let i = 8 * lane + j;
                assert(i % 8 == j && i / 8 == lane);
                assert(b as int / 8 == limb + lane);
                let s = 16 * (7 - j) + limb + lane;
                assert(sel == s);
                assert(s / 16 == 7 - j && s % 16 == limb + lane);
                assert(rows@[s] == fbyte(lanes@[s / 16], (s % 16) as nat));
            }
            word.push(rows[sel as usize]);
            j = j + 1;
        }
        let m: u64 = word_at(&word, 0);
        let i: u8 = (b % 8) as u8;
        let y: u8 = affine(m, 1u8 << i);
        out[at + b] = y;
        proof {
            assert forall|r: nat| r < 8 implies #[trigger] byte_bit(y, r) == fbit(
                lanes@[r as int],
                b as nat,
            ) by {
                lemma_affine_bits(m, 1u8 << i);
                lemma_affine_unit(m, i as nat, r, 8);
                assert(word_byte(m, (7 - r) as nat) == word@[0 + (7 - r)]);
                lemma_coefficient(lanes@[r as int], (b / 8) as nat, i as nat);
            }
        }
        b = b + 1;
    }
}

/// Gathers and transposes one stripe: element `q` of the eight outer blocks from
/// `8 s` on, into `out[at..at + 128]`.
pub fn gather_transpose_stripe(
    z: &[F128],
    cpb: usize,
    s: usize,
    q: usize,
    fuse: bool,
    out: &mut [u8],
    at: usize,
)
    requires
        q < cpb,
        (8 * s + 8) * cpb <= z@.len(),
        at + 128 <= old(out)@.len(),
    ensures
        final(out)@.len() == old(out)@.len(),
        forall|i: int|
            0 <= i < old(out)@.len() && !(at <= i < at + 128) ==> #[trigger] final(out)@[i] == old(
                out,
            )@[i],
        forall|b: int, r: nat|
            0 <= b < 128 && r < 8 ==> #[trigger] byte_bit(final(out)@[at + b], r) == fbit(
                z@[(8 * s + r) * cpb + q],
                b as nat,
            ),
{
    let z_len: usize = z.len();
    proof {
        let (x, c) = (8 * s as int, cpb as int);
        assert((x + 8) * c == x * c + 8 * c) by (nonlinear_arith);
        assert((x + 1) * c == x * c + c && (x + 2) * c == x * c + 2 * c && (x + 3) * c == x * c + 3
            * c && (x + 4) * c == x * c + 4 * c && (x + 5) * c == x * c + 5 * c && (x + 6) * c == x
            * c + 6 * c && (x + 7) * c == x * c + 7 * c && x * c >= 0 && x <= x * c)
            by (nonlinear_arith)
            requires
                x >= 0,
                c >= 1,
        ;
    }
    let p: usize = 8 * s;
    let lanes: [F128; 8] = [
        z[p * cpb + q],
        z[(p + 1) * cpb + q],
        z[(p + 2) * cpb + q],
        z[(p + 3) * cpb + q],
        z[(p + 4) * cpb + q],
        z[(p + 5) * cpb + q],
        z[(p + 6) * cpb + q],
        z[(p + 7) * cpb + q],
    ];
    if fuse {
        transpose_8_f128s_by_selectors(&lanes, out, at);
    } else {
        transpose_8_f128s_to_128_bytes(&lanes, out, at);
    }
    proof {
        assert forall|b: int, r: nat| 0 <= b < 128 && r < 8 implies #[trigger] byte_bit(
            out@[at + b],
            r,
        ) == fbit(z@[(8 * s + r) * cpb + q], b as nat) by {
            assert(lanes@[r as int] == z@[(8 * s + r) * cpb + q]);
        }
    }
}

/// Gathers and transposes element `q` of the first `n` stripes of a tile.
pub fn gather_transpose_tile(
    z: &[F128],
    cpb: usize,
    n_stripes: usize,
    base: usize,
    n: usize,
    q: usize,
    fuse: bool,
    out: &mut [u8],
    at: usize,
)
    requires
        q < cpb,
        n <= DIRECT_FOLD_TILE_STRIPES,
        base + n <= n_stripes,
        z@.len() == 8 * n_stripes * cpb,
        at + 1024 <= old(out)@.len(),
    ensures
        final(out)@.len() == old(out)@.len(),
        is_gather(z@, cpb as int, base as int, n as int, q as int, final(out)@, at as int),
        forall|i: int|
            0 <= i < old(out)@.len() && !(at <= i < at + 1024) ==> #[trigger] final(out)@[i] == old(
                out,
            )@[i],
{
    let len: usize = out.len();
    let ghost before = out@;
    let mut j: usize = 0;
    while j < n
        invariant
            j <= n,
            q < cpb,
            n <= DIRECT_FOLD_TILE_STRIPES,
            base + n <= n_stripes,
            z@.len() == 8 * n_stripes * cpb,
            len == before.len(),
            out@.len() == before.len(),
            at + 1024 <= before.len(),
            is_gather(z@, cpb as int, base as int, j as int, q as int, out@, at as int),
            forall|i: int|
                0 <= i < before.len() && !(at <= i < at + 1024) ==> #[trigger] out@[i] == before[i],
        decreases n - j,
    {
        let ghost mid = out@;
        proof {
            let (s, m, c) = ((base + j) as int, n_stripes as int, cpb as int);
            assert((8 * s + 8) * c <= 8 * m * c) by (nonlinear_arith)
                requires
                    s + 1 <= m,
                    c >= 0,
            ;
        }
        gather_transpose_stripe(z, cpb, base + j, q, fuse, out, at + 128 * j);
        proof {
            assert forall|t: int, b: int, r: nat|
                0 <= t < j + 1 && 0 <= b < 128 && r < 8 implies #[trigger] byte_bit(
                out@[at + 128 * t + b],
                r,
            ) == fbit(z@[(8 * (base + t) + r) * cpb + q], b as nat) by {
                if t < j {
                    assert(out@[at + 128 * t + b] == mid[at + 128 * t + b]);
                } else {
                    assert(byte_bit(out@[(at + 128 * j) + b], r) == fbit(
                        z@[(8 * (base + j) + r) * cpb + q],
                        b as nat,
                    ));
                }
            }
        }
        j = j + 1;
    }
}

/// Gathers and transposes the four elements `q..q + 4` of a full tile, element
/// `q + c` into the slab at `1024 c`.
pub fn gather_transpose_group4(
    z: &[F128],
    cpb: usize,
    n_stripes: usize,
    base: usize,
    q: usize,
    fuse: bool,
    out: &mut [u8],
)
    requires
        q + 4 <= cpb,
        base + DIRECT_FOLD_TILE_STRIPES <= n_stripes,
        z@.len() == 8 * n_stripes * cpb,
        old(out)@.len() == 4096,
    ensures
        final(out)@.len() == 4096,
        forall|c: int|
            0 <= c < 4 ==> #[trigger] is_gather(
                z@,
                cpb as int,
                base as int,
                8,
                q + c,
                final(out)@,
                1024 * c,
            ),
{
    let mut c: usize = 0;
    while c < 4
        invariant
            c <= 4,
            q + 4 <= cpb,
            base + DIRECT_FOLD_TILE_STRIPES <= n_stripes,
            z@.len() == 8 * n_stripes * cpb,
            out@.len() == 4096,
            forall|d: int|
                0 <= d < c ==> #[trigger] is_gather(
                    z@,
                    cpb as int,
                    base as int,
                    8,
                    q + d,
                    out@,
                    1024 * d,
                ),
        decreases 4 - c,
    {
        let ghost before = out@;
        gather_transpose_tile(
            z,
            cpb,
            n_stripes,
            base,
            DIRECT_FOLD_TILE_STRIPES,
            q + c,
            fuse,
            out,
            1024 * c,
        );
        proof {
            assert forall|d: int| 0 <= d < c + 1 implies #[trigger] is_gather(
                z@,
                cpb as int,
                base as int,
                8,
                q + d,
                out@,
                1024 * d,
            ) by {
                if d < c {
                    assert(is_gather(z@, cpb as int, base as int, 8, q + d, before, 1024 * d));
                    assert forall|j: int, b: int, r: nat|
                        0 <= j < 8 && 0 <= b < 128 && r < 8 implies #[trigger] byte_bit(
                        out@[1024 * d + 128 * j + b],
                        r,
                    ) == fbit(z@[(8 * (base + j) + r) * cpb + (q + d)], b as nat) by {
                        assert(out@[1024 * d + 128 * j + b] == before[1024 * d + 128 * j + b]);
                    }
                }
            }
        }
        c = c + 1;
    }
}

/// Whether the value of the kill switch turns the fused gather off: only the text `1`
/// does.
pub fn lincheck_gt_fuse_disabled_value(value: Option<&[u8]>) -> (r: bool)
    ensures
        r == (value matches Some(v) && v@ == seq![49u8]),
{
    match value {
        Some(v) => {
            let r: bool = v.len() == 1 && v[0] == 49;
            proof {
                if r {
                    assert(v@ =~= seq![49u8]);
                }
            }
            r
        },
        None => false,
    }
}

} // verus!

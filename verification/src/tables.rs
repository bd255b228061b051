//! Subset-sum tables of eight outer weights, in the three shapes that the folds
//! use: 256 byte entries, two sets of 16 nibble entries, and sixteen 8 x 8 bit
//! matrices.

use crate::bits::{byte_bit, byte_from_bits, fbyte, word_bit, word_byte, word_from_bytes};
use crate::bits::{lemma_byte_add, lemma_byte_ext, lemma_byte_from_bits, lemma_set_bit, lemma_word_from_bytes};
use crate::bits::transpose_8_u64s_to_64_bytes;
use crate::eq::{index_bit, lemma_index_bit_low, lemma_index_bit_top};
use crate::field::{fadd, fzero, lemma_add_zero, F128};
use crate::num::pow2_usize;
use crate::sums::{fsum, lemma_sum_ext, lemma_sum_split, sel};
use vstd::arithmetic::power2::{lemma2_to64, lemma_pow2_pos, lemma_pow2_unfold, pow2};
use vstd::prelude::*;

verus! {

/// The sum of the weights `w[r]` over the set bits `r` of a byte.
pub open spec fn byte_sum(b: u8, w: Seq<F128>) -> F128 {
    fsum(8, |r: int| sel(byte_bit(b, r as nat), w[r]))
}

/// The sum of the first `n` weights `w[r]` over the set bits `r` of `j`.
pub open spec fn index_sum(j: int, w: Seq<F128>, n: nat) -> F128 {
    fsum(n, |r: int| sel(index_bit(j, r as nat), w[r]))
}

/// The bits of a byte are the binary digits of its value.
pub proof fn lemma_byte_index_bit(b: u8, r: nat)
    requires
        r < 8,
    ensures
        byte_bit(b, r) == index_bit(b as int, r),
{
    vstd::bits::lemma_u8_shr_is_div(b, r as u8);
    let x: u8 = b >> (r as u8);
    assert(x & 1 == x % 2) by (bit_vector);
}

proof fn lemma_byte_sum_index(b: u8, w: Seq<F128>)
    ensures
        byte_sum(b, w) == index_sum(b as int, w, 8),
{
    assert forall|r: nat| r < 8 implies #[trigger] byte_bit(b, r) == index_bit(b as int, r) by {
        lemma_byte_index_bit(b, r);
    }
    lemma_sum_ext(
        8,
        |r: int| sel(byte_bit(b, r as nat), w[r]),
        |r: int| sel(index_bit(b as int, r as nat), w[r]),
    );
}

/// Subset sums double: the new high bit adds its weight.
proof fn lemma_index_sum_double(j: int, w: Seq<F128>, n: nat)
    requires
        0 <= j < pow2(n),
    ensures
        index_sum(j, w, n + 1) == index_sum(j, w, n),
        index_sum(j + pow2(n), w, n + 1) == fadd(index_sum(j, w, n), w[n as int]),
{
    lemma_index_bit_top(j, n);
    lemma_add_zero(index_sum(j, w, n));
    let k = j + pow2(n);
    assert forall|r: nat| r < n implies #[trigger] index_bit(k, r) == index_bit(j, r) by {
        lemma_index_bit_low(j, n, r);
    }
    lemma_sum_ext(
        n,
        |r: int| sel(index_bit(k, r as nat), w[r]),
        |r: int| sel(index_bit(j, r as nat), w[r]),
    );
}

/// Builds the `2^n` subset sums of `w[from..from + n]` in `table[at..]`.
fn build_subset_sums(w: &[F128], from: usize, n: usize, table: &mut [F128], at: usize)
    requires
        n <= 8,
        from + n <= w@.len(),
        at + pow2(n as nat) <= old(table)@.len(),
    ensures
        final(table)@.len() == old(table)@.len(),
        forall|j: int|
            0 <= j < pow2(n as nat) ==> #[trigger] final(table)@[at + j] == index_sum(
                j,
                w@.skip(from as int),
                n as nat,
            ),
        forall|i: int|
            0 <= i < old(table)@.len() && !(at <= i < at + pow2(n as nat))
                ==> #[trigger] final(table)@[i] == old(table)@[i],
{
    let len_all: usize = table.len();
    let w_len: usize = w.len();
    let ghost before = table@;
    let ghost ws = w@.skip(from as int);
    proof {
        lemma_pow2_pos(n as nat);
        lemma2_to64();
    }
    table[at] = F128::zero();
    let mut i: usize = 0;
    while i < n
        invariant
            i <= n,
            n <= 8,
            from + n <= w_len,
            w_len == w@.len(),
            ws == w@.skip(from as int),
            len_all == before.len(),
            table@.len() == before.len(),
            at + pow2(n as nat) <= before.len(),
            forall|j: int|
                0 <= j < pow2(i as nat) ==> #[trigger] table@[at + j] == index_sum(j, ws, i as nat),
            forall|k: int|
                0 <= k < before.len() && !(at <= k < at + pow2(n as nat)) ==> #[trigger] table@[k]
                    == before[k],
        decreases n - i,
    {
        let e: F128 = w[from + i];
        let len: usize = pow2_usize(i);
        proof {
            lemma_pow2_unfold((i + 1) as nat);
            if i + 1 < n {
                vstd::arithmetic::power2::lemma_pow2_strictly_increases((i + 1) as nat, n as nat);
            }
        }
        let ghost mid = table@;
        let mut j: usize = 0;
        while j < len
            invariant
                j <= len,
                len == pow2(i as nat),
                i < n,
                n <= 8,
                2 * len <= pow2(n as nat),
                len_all == before.len(),
                table@.len() == before.len(),
                mid.len() == before.len(),
                at + pow2(n as nat) <= before.len(),
                e == ws[i as int],
                forall|t: int|
                    0 <= t < len ==> #[trigger] mid[at + t] == index_sum(t, ws, i as nat),
                forall|t: int| 0 <= t < len ==> #[trigger] table@[at + t] == mid[at + t],
                forall|t: int|
                    len <= t < len + j ==> #[trigger] table@[at + t] == index_sum(
                        t,
                        ws,
                        (i + 1) as nat,
                    ),
                forall|k: int|
                    0 <= k < before.len() && !(at <= k < at + pow2(n as nat))
                        ==> #[trigger] table@[k] == before[k],
            decreases len - j,
        {
            proof {
                assert(table@[at + j] == mid[at + j]);
                lemma_index_sum_double(j as int, ws, i as nat);
            }
            table[at + (len + j)] = table[at + j] + e;
            j = j + 1;
        }
        proof {
            assert forall|t: int| 0 <= t < pow2((i + 1) as nat) implies #[trigger] table@[at + t]
                == index_sum(t, ws, (i + 1) as nat) by {
                if t < len {
                    assert(table@[at + t] == mid[at + t]);
                    lemma_index_sum_double(t, ws, i as nat);
                }
            }
        }
        i = i + 1;
    }
}

/// Builds the 256-entry subset-sum table of eight weights in
/// `table[at..at + 256]`: entry `b` is the sum over the set bits of `b`.
pub fn build_sum_table(eq8: &[F128], table: &mut [F128], at: usize)
    requires
        eq8@.len() == 8,
        at + 256 <= old(table)@.len(),
    ensures
        final(table)@.len() == old(table)@.len(),
        forall|b: u8| #[trigger] final(table)@[at + b] == byte_sum(b, eq8@),
        forall|i: int|
            0 <= i < old(table)@.len() && !(at <= i < at + 256) ==> #[trigger] final(table)@[i]
                == old(table)@[i],
{
    proof {
        lemma2_to64();
    }
    build_subset_sums(eq8, 0, 8, table, at);
    proof {
        assert(eq8@.skip(0) =~= eq8@);
        assert forall|b: u8| #[trigger] table@[at + b] == byte_sum(b, eq8@) by {
            lemma_byte_sum_index(b, eq8@);
            assert(table@[at + (b as int)] == index_sum(b as int, eq8@.skip(0), 8));
        }
    }
}

/// The subset sums of the low and of the high four weights, as limbs: sixteen
/// low-nibble low limbs, their high limbs, then the same for the high nibble.
pub open spec fn nibble_tables(w: Seq<F128>, nib: Seq<u64>) -> bool {
    &&& nib.len() == 64
    &&& forall|i: int|
        #![trigger nib[i]]
        0 <= i < 16 ==> nib[i] == index_sum(i, w, 4).lo && nib[16 + i] == index_sum(i, w, 4).hi
            && nib[32 + i] == index_sum(i, w.skip(4), 4).lo && nib[48 + i] == index_sum(
            i,
            w.skip(4),
            4,
        ).hi
}

/// Builds the two nibble tables of eight weights.
pub fn build_nibble_tables(eq8: &[F128; 8], out: &mut [u64; 64])
    ensures
        nibble_tables(eq8@, final(out)@),
{
    let mut tl: [F128; 16] = [F128 { lo: 0, hi: 0 };16];
    let mut th: [F128; 16] = [F128 { lo: 0, hi: 0 };16];
    proof {
        lemma2_to64();
    }
    build_subset_sums(eq8, 0, 4, &mut tl, 0);
    build_subset_sums(eq8, 4, 4, &mut th, 0);
    proof {
        assert(eq8@.skip(0) =~= eq8@);
        assert forall|i: int| 0 <= i < 16 implies tl@[i] == index_sum(i, eq8@, 4) && th@[i]
            == index_sum(i, eq8@.skip(4), 4) by {
            assert(tl@[0 + i] == index_sum(i, eq8@.skip(0), 4));
            assert(th@[0 + i] == index_sum(i, eq8@.skip(4), 4));
        }
    }
    let mut i: usize = 0;
    while i < 16
        invariant
            i <= 16,
            forall|t: int| 0 <= t < 16 ==> #[trigger] tl@[t] == index_sum(t, eq8@, 4),
            forall|t: int| 0 <= t < 16 ==> #[trigger] th@[t] == index_sum(t, eq8@.skip(4), 4),
            forall|t: int| 0 <= t < i ==> #[trigger] out@[t] == tl@[t].lo,
            forall|t: int| 16 <= t < 16 + i ==> #[trigger] out@[t] == tl@[t - 16].hi,
            forall|t: int| 32 <= t < 32 + i ==> #[trigger] out@[t] == th@[t - 32].lo,
            forall|t: int| 48 <= t < 48 + i ==> #[trigger] out@[t] == th@[t - 48].hi,
        decreases 16 - i,
    {
        out[i] = tl[i].lo;
        out[16 + i] = tl[i].hi;
        out[32 + i] = th[i].lo;
        out[48 + i] = th[i].hi;
        i = i + 1;
    }
}

/// The entry of a byte composed from its two nibble entries.
pub open spec fn nibble_entry(nib: Seq<u64>, b: u8) -> F128 {
    let (lo, hi) = (b as int % 16, b as int / 16);
    F128 { lo: nib[lo] ^ nib[32 + hi], hi: nib[16 + lo] ^ nib[48 + hi] }
}

/// The nibble split is exact: low-nibble and high-nibble sums add up to the
/// byte's subset sum.
pub proof fn lemma_nibble_entry(w: Seq<F128>, nib: Seq<u64>, b: u8)
    requires
        w.len() == 8,
        nibble_tables(w, nib),
    ensures
        nibble_entry(nib, b) == byte_sum(b, w),
{
    let (lo, hi) = (b as int % 16, b as int / 16);
    lemma2_to64();
    lemma_byte_sum_index(b, w);
    let f = |r: int| sel(index_bit(b as int, r as nat), w[r]);
    let half: nat = 4;
    lemma_sum_split(half, half, f);
    assert forall|r: nat| r < 4 implies #[trigger] index_bit(b as int, r) == index_bit(lo, r)
        && index_bit(b as int, 4 + r) == index_bit(hi, r) by {
        let v = b as int;
        if r == 0 {
            assert((v / 1) % 2 == ((v % 16) / 1) % 2);
            assert((v / 16) % 2 == ((v / 16) / 1) % 2);
        } else if r == 1 {
            assert((v / 2) % 2 == ((v % 16) / 2) % 2);
            assert((v / 32) % 2 == ((v / 16) / 2) % 2);
        } else if r == 2 {
            assert((v / 4) % 2 == ((v % 16) / 4) % 2);
            assert((v / 64) % 2 == ((v / 16) / 4) % 2);
        } else {
            assert((v / 8) % 2 == ((v % 16) / 8) % 2);
            assert((v / 128) % 2 == ((v / 16) / 8) % 2);
        }
    }
    lemma_sum_ext(4, f, |r: int| sel(index_bit(lo, r as nat), w[r]));
    let high = |r: int| sel(index_bit(hi, r as nat), w.skip(4)[r]);
    let top = |i: int| f(half + i);
    assert forall|i: int| 0 <= i < 4 implies #[trigger] top(i) == high(i) by {
        assert(index_bit(b as int, i as nat) == index_bit(lo, i as nat));
        assert((4 + i) as nat == 4 + (i as nat));
    }
    lemma_sum_ext(half, top, high);
    assert(nib[lo] == index_sum(lo, w, 4).lo);
    assert(nib[hi] == index_sum(hi, w, 4).lo);
}

/// The subset sum of a byte, read from its two nibble entries.
pub fn nibble_lookup(nib: &[u64; 64], b: u8) -> (r: F128)
    ensures
        r == nibble_entry(nib@, b),
{
    let lo: usize = (b % 16) as usize;
    let hi: usize = (b / 16) as usize;
    F128 { lo: nib[lo] ^ nib[32 + hi], hi: nib[16 + lo] ^ nib[48 + hi] }
}

/// Column `r` of an 8 x 8 bit matrix whose row `i` is byte `7 - i` of the word.
pub open spec fn mat_bit(m: u64, i: nat, r: nat) -> bool {
    byte_bit(word_byte(m, (7 - i) as nat), r)
}

/// The parity of the first `n` products of row `i` of the matrix with a byte.
pub open spec fn affine_bit(m: u64, x: u8, i: nat, n: nat) -> bool
    decreases n,
{
    if n == 0 {
        false
    } else {
        affine_bit(m, x, i, (n - 1) as nat) != (mat_bit(m, i, (n - 1) as nat) && byte_bit(
            x,
            (n - 1) as nat,
        ))
    }
}

/// The 8 x 8 bit matrix `m` applied to the byte `x` over GF(2).
pub open spec fn affine_byte(m: u64, x: u8) -> u8 {
    byte_from_bits(|i: nat| affine_bit(m, x, i, 8))
}

/// Applies an 8 x 8 bit matrix to a byte over GF(2).
pub fn affine(m: u64, x: u8) -> (y: u8)
    ensures
        y == affine_byte(m, x),
{
    let mut y: u8 = 0;
    let mut i: u64 = 0;
    proof {
        assert forall|t: nat| t < 8 implies !byte_bit(0u8, t) by {
            lemma_set_bit(0, 0, t);
        }
    }
    while i < 8
        invariant
            i <= 8,
            forall|t: nat|
                t < 8 ==> #[trigger] byte_bit(y, t) == (t < i && affine_bit(m, x, t, 8)),
        decreases 8 - i,
    {
        let row: u8 = (m >> (8 * (7 - i))) as u8;
        assert(row == word_byte(m, (7 - i as nat) as nat));
        let mut parity: bool = false;
        let mut r: u8 = 0;
        while r < 8
            invariant
                r <= 8,
                i < 8,
                row == word_byte(m, (7 - i as nat) as nat),
                parity == affine_bit(m, x, i as nat, r as nat),
            decreases 8 - r,
        {
            let hit: bool = (row >> r) & 1 == 1 && (x >> r) & 1 == 1;
            parity = parity != hit;
            r = r + 1;
        }
        if parity {
            let ghost prior = y;
            y = y | (1u8 << (i as u8));
            proof {
                assert forall|t: nat| t < 8 implies #[trigger] byte_bit(y, t) == (t < i + 1
                    && affine_bit(m, x, t, 8)) by {
                    lemma_set_bit(prior, i as u8, t);
                }
            }
        }
        i = i + 1;
    }
    proof {
        lemma_affine_bits(m, x);
        lemma_byte_ext(y, affine_byte(m, x));
    }
    y
}

pub proof fn lemma_affine_bits(m: u64, x: u8)
    ensures
        forall|i: nat|
            i < 8 ==> #[trigger] byte_bit(affine_byte(m, x), i) == affine_bit(m, x, i, 8),
{
    let f = |i: nat| affine_bit(m, x, i, 8);
    assert forall|i: nat| i < 8 implies #[trigger] byte_bit(affine_byte(m, x), i) == affine_bit(
        m,
        x,
        i,
        8,
    ) by {
        lemma_byte_from_bits(f, i);
    }
}

proof fn lemma_affine_bit_xor(m: u64, x: u8, y: u8, i: nat, n: nat)
    requires
        n <= 8,
    ensures
        affine_bit(m, x ^ y, i, n) == (affine_bit(m, x, i, n) != affine_bit(m, y, i, n)),
    decreases n,
{
    if n > 0 {
        lemma_affine_bit_xor(m, x, y, i, (n - 1) as nat);
        lemma_byte_bit_xor(x, y, (n - 1) as nat);
    }
}

/// A bit matrix acts linearly.
pub proof fn lemma_affine_xor(m: u64, x: u8, y: u8)
    ensures
        affine_byte(m, x ^ y) == affine_byte(m, x) ^ affine_byte(m, y),
{
    lemma_affine_bits(m, x);
    lemma_affine_bits(m, y);
    lemma_affine_bits(m, x ^ y);
    assert forall|i: nat| i < 8 implies byte_bit(affine_byte(m, x ^ y), i) == byte_bit(
        affine_byte(m, x) ^ affine_byte(m, y),
        i,
    ) by {
        lemma_affine_bit_xor(m, x, y, i, 8);
        lemma_byte_bit_xor(affine_byte(m, x), affine_byte(m, y), i);
    }
    lemma_byte_ext(affine_byte(m, x ^ y), affine_byte(m, x) ^ affine_byte(m, y));
}

/// Tabulates a bit matrix in `table[at..at + 256]`, doubling from its columns.
pub fn affine_table(m: u64, table: &mut [u8], at: usize)
    requires
        at + 256 <= old(table)@.len(),
    ensures
        final(table)@.len() == old(table)@.len(),
        forall|b: u8| #[trigger] final(table)@[at + b] == affine_byte(m, b),
        forall|i: int|
            0 <= i < old(table)@.len() && !(at <= i < at + 256) ==> #[trigger] final(table)@[i]
                == old(table)@[i],
{
    let len_all: usize = table.len();
    let ghost before = table@;
    table[at] = affine(m, 0);
    let mut r: u8 = 0;
    let mut len: usize = 1;
    proof {
        lemma2_to64();
    }
    while r < 8
        invariant
            r <= 8,
            len == pow2(r as nat),
            1 <= len <= 256,
            r < 8 ==> 2 * len <= 256,
            len_all == before.len(),
            table@.len() == before.len(),
            at + 256 <= before.len(),
            forall|j: int|
                0 <= j < len ==> #[trigger] table@[at + j] == affine_byte(m, j as u8),
            forall|i: int|
                0 <= i < before.len() && !(at <= i < at + 256) ==> #[trigger] table@[i]
                    == before[i],
        decreases 8 - r,
    {
        let top: u8 = len as u8;
        let col: u8 = affine(m, top);
        let ghost mid = table@;
        let mut j: usize = 0;
        while j < len
            invariant
                j <= len,
                2 * len <= 256,
                len == pow2(r as nat),
                r < 8,
                top == len,
                col == affine_byte(m, top),
                len_all == before.len(),
                table@.len() == before.len(),
                mid.len() == before.len(),
                at + 256 <= before.len(),
                forall|t: int|
                    0 <= t < len ==> #[trigger] table@[at + t] == affine_byte(m, t as u8),
                forall|t: int|
                    len <= t < len + j ==> #[trigger] table@[at + t] == affine_byte(m, t as u8),
                forall|i: int|
                    0 <= i < before.len() && !(at <= i < at + 256) ==> #[trigger] table@[i]
                        == before[i],
            decreases len - j,
        {
            proof {
                lemma_disjoint_xor(j as u8, r);
                lemma_affine_xor(m, j as u8, top);
            }
            table[at + (len + j)] = table[at + j] ^ col;
            j = j + 1;
        }
        proof {
            lemma_pow2_unfold((r + 1) as nat);
            lemma2_to64();
            if r + 1 < 8 {
                vstd::arithmetic::power2::lemma_pow2_unfold((r + 2) as nat);
                if r + 2 < 8 {
                    vstd::arithmetic::power2::lemma_pow2_strictly_increases((r + 2) as nat, 8);
                }
            }
        }
        len = 2 * len;
        r = r + 1;
    }
    proof {
        assert forall|b: u8| #[trigger] table@[at + b] == affine_byte(m, b) by {
            assert(table@[at + (b as int)] == affine_byte(m, (b as int) as u8));
        }
    }
}

/// Below a power of two, adding it is XOR-ing it.
proof fn lemma_disjoint_xor(j: u8, r: u8)
    requires
        r < 8,
        j < pow2(r as nat),
    ensures
        pow2(r as nat) <= 128,
        j ^ (pow2(r as nat) as u8) == j + pow2(r as nat),
{
    lemma2_to64();
    vstd::bits::lemma_u8_pow2_no_overflow(r as nat);
    vstd::bits::lemma_u8_shl_is_mul(1, r);
    if r < 7 {
        vstd::arithmetic::power2::lemma_pow2_strictly_increases(r as nat, 7);
    }
    let p: u8 = 1u8 << r;
    assert(j ^ p == j + p) by (bit_vector)
        requires
            p == 1u8 << r,
            r < 8,
            j < p,
    ;
}

/// The matrix words of eight weights: applying word `c` to a byte gives byte `c`
/// of the byte's subset sum.
pub open spec fn basis_mats(w: Seq<F128>, mats: Seq<u64>) -> bool {
    forall|c: int, i: nat, r: nat|
        0 <= c < 16 && i < 8 && r < 8 ==> #[trigger] mat_bit(mats[c], i, r) == byte_bit(
            fbyte(w[r as int], c as nat),
            i,
        )
}

/// The word of eight bytes from `bytes[at]` on, most significant first.
fn word_from_bytes_rev(bytes: &[u8], at: usize) -> (w: u64)
    requires
        at + 8 <= bytes@.len(),
    ensures
        forall|j: nat| j < 8 ==> #[trigger] word_byte(w, j) == bytes@[at + 7 - j],
{
    let len: usize = bytes.len();
    let (b0, b1, b2, b3) = (bytes[at + 7], bytes[at + 6], bytes[at + 5], bytes[at + 4]);
    let (b4, b5, b6, b7) = (bytes[at + 3], bytes[at + 2], bytes[at + 1], bytes[at]);
    let w: u64 = (b0 as u64) | ((b1 as u64) << 8) | ((b2 as u64) << 16) | ((b3 as u64) << 24) | ((
    b4 as u64) << 32) | ((b5 as u64) << 40) | ((b6 as u64) << 48) | ((b7 as u64) << 56);
    proof {
        let f = |j: nat| bytes@[at + 7 - j];
        assert(w == word_from_bytes(f));
        assert forall|j: nat| j < 8 implies #[trigger] word_byte(w, j) == bytes@[at + 7 - j] by {
            lemma_word_from_bytes(f, j);
        }
    }
    w
}

/// Bit `8c + i` of a word is bit `i` of its byte `c`.
pub proof fn lemma_word_byte_bit(w: u64, c: nat, i: nat)
    requires
        c < 8,
        i < 8,
    ensures
        byte_bit(word_byte(w, c), i) == word_bit(w, 8 * c + i),
{
    let (s, t): (u64, u8) = ((8 * c) as u64, i as u8);
    let u: u64 = (8 * c + i) as u64;
    assert(((((w >> s) as u8) >> t) & 1 == 1) == ((w >> u) & 1 == 1)) by (bit_vector)
        requires
            s <= 56,
            t < 8,
            u == s + t,
    ;
}

/// Builds the sixteen matrix words of eight weights in `mats[at..at + 16]`.
pub fn fold_mats_from_basis(eq8: &[F128], mats: &mut [u64], at: usize)
    requires
        eq8@.len() == 8,
        at + 16 <= old(mats)@.len(),
    ensures
        final(mats)@.len() == old(mats)@.len(),
        basis_mats(eq8@, final(mats)@.subrange(at as int, at + 16)),
        forall|i: int|
            0 <= i < old(mats)@.len() && !(at <= i < at + 16) ==> #[trigger] final(mats)@[i] == old(
                mats,
            )@[i],
{
    let len: usize = mats.len();
    let ghost before = mats@;
    let lo_lanes: [u64; 8] = [
        eq8[0].lo,
        eq8[1].lo,
        eq8[2].lo,
        eq8[3].lo,
        eq8[4].lo,
        eq8[5].lo,
        eq8[6].lo,
        eq8[7].lo,
    ];
    let hi_lanes: [u64; 8] = [
        eq8[0].hi,
        eq8[1].hi,
        eq8[2].hi,
        eq8[3].hi,
        eq8[4].hi,
        eq8[5].hi,
        eq8[6].hi,
        eq8[7].hi,
    ];
    let mut bytes: [u8; 128] = [0u8;128];
    transpose_8_u64s_to_64_bytes(&lo_lanes, &mut bytes, 0);
    let ghost mid = bytes@;
    transpose_8_u64s_to_64_bytes(&hi_lanes, &mut bytes, 64);
    let mut c: usize = 0;
    while c < 16
        invariant
            c <= 16,
            len == before.len(),
            mats@.len() == before.len(),
            at + 16 <= before.len(),
            forall|d: int, j: nat|
                0 <= d < c && j < 8 ==> #[trigger] word_byte(mats@[at + d], j) == bytes@[8 * d + 7
                    - j],
            forall|i: int|
                0 <= i < before.len() && !(at <= i < at + 16) ==> #[trigger] mats@[i] == before[i],
        decreases 16 - c,
    {
        mats[at + c] = word_from_bytes_rev(&bytes, 8 * c);
        c = c + 1;
    }
    proof {
        let out = mats@.subrange(at as int, at + 16);
        assert forall|c: int, i: nat, r: nat| 0 <= c < 16 && i < 8 && r < 8 implies #[trigger] mat_bit(
            out[c],
            i,
            r,
        ) == byte_bit(fbyte(eq8@[r as int], c as nat), i) by {
            let j = (7 - i) as nat;
            assert(word_byte(mats@[at + c], j) == bytes@[8 * c + 7 - j]);
            assert(out[c] == mats@[at + c]);
            if c < 8 {
                assert(bytes@[8 * c + i] == mid[8 * c + i]);
                assert(byte_bit(mid[0 + (8 * c + i)], r) == word_bit(
                    lo_lanes@[r as int],
                    (8 * c + i) as nat,
                ));
                lemma_word_byte_bit(lo_lanes@[r as int], c as nat, i);
            } else {
                let d = c - 8;
                assert(bytes@[8 * c + i] == bytes@[64 + (8 * d + i)]);
                assert(byte_bit(bytes@[64 + (8 * d + i)], r) == word_bit(
                    hi_lanes@[r as int],
                    (8 * d + i) as nat,
                ));
                lemma_word_byte_bit(hi_lanes@[r as int], d as nat, i);
            }
        }
    }
}

proof fn lemma_affine_prefix(w: Seq<F128>, mats: Seq<u64>, x: u8, c: int, i: nat, n: nat)
    requires
        w.len() == 8,
        basis_mats(w, mats),
        0 <= c < 16,
        i < 8,
        n <= 8,
    ensures
        affine_bit(mats[c], x, i, n) == byte_bit(
            fbyte(fsum(n, |r: int| sel(byte_bit(x, r as nat), w[r])), c as nat),
            i,
        ),
    decreases n,
{
    let f = |r: int| sel(byte_bit(x, r as nat), w[r]);
    if n == 0 {
        lemma_zero_byte(c as nat, i);
    } else {
        let m = (n - 1) as nat;
        lemma_affine_prefix(w, mats, x, c, i, m);
        assert(mat_bit(mats[c], i, m) == byte_bit(fbyte(w[m as int], c as nat), i));
        let s = fsum(m, f);
        lemma_byte_add(s, f(m as int), c as nat);
        lemma_byte_bit_xor(fbyte(s, c as nat), fbyte(f(m as int), c as nat), i);
        lemma_zero_byte(c as nat, i);
    }
}

/// The bits of a sum of two bytes.
pub proof fn lemma_byte_bit_xor(a: u8, b: u8, i: nat)
    requires
        i < 8,
    ensures
        byte_bit(a ^ b, i) == (byte_bit(a, i) != byte_bit(b, i)),
{
    let t = i as u8;
    assert((((a ^ b) >> t) & 1 == 1) == (((a >> t) & 1 == 1) != ((b >> t) & 1 == 1)))
        by (bit_vector);
}

proof fn lemma_zero_byte(c: nat, i: nat)
    requires
        c < 16,
        i < 8,
    ensures
        fbyte(fzero(), c) == 0,
        !byte_bit(fbyte(fzero(), c), i),
{
    lemma_byte_add(fzero(), fzero(), c);
    lemma_add_zero(fzero());
    let z = fbyte(fzero(), c);
    assert(z ^ z == 0) by (bit_vector);
    lemma_set_bit(0, 0, i);
}

/// The matrix fold is exact: applying the matrix words of eight weights to a
/// byte gives the bytes of its subset sum.
pub proof fn lemma_affine_is_byte_sum(w: Seq<F128>, mats: Seq<u64>, x: u8, c: int)
    requires
        w.len() == 8,
        basis_mats(w, mats),
        0 <= c < 16,
    ensures
        affine_byte(mats[c], x) == fbyte(byte_sum(x, w), c as nat),
{
    lemma_affine_bits(mats[c], x);
    assert forall|i: nat| i < 8 implies byte_bit(affine_byte(mats[c], x), i) == byte_bit(
        fbyte(byte_sum(x, w), c as nat),
        i,
    ) by {
        lemma_affine_prefix(w, mats, x, c, i, 8);
    }
    lemma_byte_ext(affine_byte(mats[c], x), fbyte(byte_sum(x, w), c as nat));
}

} // verus!

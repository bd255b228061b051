//! Bit and byte views of machine words, and the transposes between them.

use crate::field::{fadd, fbit, F128};
use vstd::prelude::*;

verus! {

/// Bit `r` of a byte.
pub open spec fn byte_bit(b: u8, r: nat) -> bool {
    (b >> (r as u8)) & 1 == 1
}

/// Bit `i` of a word.
pub open spec fn word_bit(w: u64, i: nat) -> bool {
    (w >> (i as u64)) & 1 == 1
}

/// Byte `j` of a word, least significant first.
pub open spec fn word_byte(w: u64, j: nat) -> u8 {
    (w >> ((8 * j) as u64)) as u8
}

/// Byte `j` of a field element: the eight low-limb bytes, then the eight high ones.
pub open spec fn fbyte(a: F128, j: nat) -> u8 {
    if j < 8 {
        word_byte(a.lo, j)
    } else {
        word_byte(a.hi, (j - 8) as nat)
    }
}

/// Setting bit `r` of a byte changes that bit alone.
pub proof fn lemma_set_bit(b: u8, r: u8, t: nat)
    requires
        r < 8,
        t < 8,
    ensures
        byte_bit(b | (1u8 << r), t) == (t == r || byte_bit(b, t)),
        !byte_bit(0u8, t),
{
    let u = t as u8;
    assert((((b | (1u8 << r)) >> u) & 1 == 1) == (u == r || ((b >> u) & 1 == 1)) && (0u8 >> u) & 1
        == 0u8) by (bit_vector)
        requires
            r < 8,
            u < 8,
    ;
}

/// The byte whose bit `i` is `f(i)`.
pub open spec fn byte_from_bits(f: spec_fn(nat) -> bool) -> u8 {
    (if f(0) { 1u8 } else { 0u8 }) | (if f(1) { 2u8 } else { 0u8 }) | (if f(2) { 4u8 } else { 0u8 })
        | (if f(3) { 8u8 } else { 0u8 }) | (if f(4) { 16u8 } else { 0u8 }) | (if f(5) {
        32u8
    } else {
        0u8
    }) | (if f(6) { 64u8 } else { 0u8 }) | (if f(7) { 128u8 } else { 0u8 })
}

/// [`byte_from_bits`] has the bits that it was made from.
pub proof fn lemma_byte_from_bits(f: spec_fn(nat) -> bool, i: nat)
    requires
        i < 8,
    ensures
        byte_bit(byte_from_bits(f), i) == f(i),
{
    let (b0, b1, b2, b3, b4, b5, b6, b7) = (f(0), f(1), f(2), f(3), f(4), f(5), f(6), f(7));
    let b = byte_from_bits(f);
    assert({
        &&& ((b >> 0u8) & 1 == 1) == b0
        &&& ((b >> 1u8) & 1 == 1) == b1
        &&& ((b >> 2u8) & 1 == 1) == b2
        &&& ((b >> 3u8) & 1 == 1) == b3
        &&& ((b >> 4u8) & 1 == 1) == b4
        &&& ((b >> 5u8) & 1 == 1) == b5
        &&& ((b >> 6u8) & 1 == 1) == b6
        &&& ((b >> 7u8) & 1 == 1) == b7
    }) by (bit_vector)
        requires
            b == (if b0 { 1u8 } else { 0u8 }) | (if b1 { 2u8 } else { 0u8 }) | (if b2 {
                4u8
            } else {
                0u8
            }) | (if b3 { 8u8 } else { 0u8 }) | (if b4 { 16u8 } else { 0u8 }) | (if b5 {
                32u8
            } else {
                0u8
            }) | (if b6 { 64u8 } else { 0u8 }) | (if b7 { 128u8 } else { 0u8 }),
    ;
}

/// The word whose byte `j` is `f(j)`.
pub open spec fn word_from_bytes(f: spec_fn(nat) -> u8) -> u64 {
    (f(0) as u64) | ((f(1) as u64) << 8) | ((f(2) as u64) << 16) | ((f(3) as u64) << 24) | ((f(
        4,
    ) as u64) << 32) | ((f(5) as u64) << 40) | ((f(6) as u64) << 48) | ((f(7) as u64) << 56)
}

/// [`word_from_bytes`] has the bytes that it was made from.
pub proof fn lemma_word_from_bytes(f: spec_fn(nat) -> u8, j: nat)
    requires
        j < 8,
    ensures
        word_byte(word_from_bytes(f), j) == f(j),
{
    let (b0, b1, b2, b3, b4, b5, b6, b7) = (f(0), f(1), f(2), f(3), f(4), f(5), f(6), f(7));
    let w = word_from_bytes(f);
    assert({
        &&& (w >> 0u64) as u8 == b0
        &&& (w >> 8u64) as u8 == b1
        &&& (w >> 16u64) as u8 == b2
        &&& (w >> 24u64) as u8 == b3
        &&& (w >> 32u64) as u8 == b4
        &&& (w >> 40u64) as u8 == b5
        &&& (w >> 48u64) as u8 == b6
        &&& (w >> 56u64) as u8 == b7
    }) by (bit_vector)
        requires
            w == (b0 as u64) | ((b1 as u64) << 8) | ((b2 as u64) << 16) | ((b3 as u64) << 24) | ((
            b4 as u64) << 32) | ((b5 as u64) << 40) | ((b6 as u64) << 48) | ((b7 as u64) << 56),
    ;
}

/// The word of eight bytes from `bytes[at]` on, least significant first.
pub fn word_at(bytes: &[u8], at: usize) -> (w: u64)
    requires
        at + 8 <= bytes@.len(),
    ensures
        forall|j: nat| j < 8 ==> #[trigger] word_byte(w, j) == bytes@[at + j],
{
    let len: usize = bytes.len();
    let (b0, b1, b2, b3) = (bytes[at], bytes[at + 1], bytes[at + 2], bytes[at + 3]);
    let (b4, b5, b6, b7) = (bytes[at + 4], bytes[at + 5], bytes[at + 6], bytes[at + 7]);
    let w: u64 = (b0 as u64) | ((b1 as u64) << 8) | ((b2 as u64) << 16) | ((b3 as u64) << 24) | ((
    b4 as u64) << 32) | ((b5 as u64) << 40) | ((b6 as u64) << 48) | ((b7 as u64) << 56);
    proof {
        let f = |j: nat| bytes@[at + j];
        assert(w == word_from_bytes(f));
        assert forall|j: nat| j < 8 implies #[trigger] word_byte(w, j) == bytes@[at + j] by {
            lemma_word_from_bytes(f, j);
        }
    }
    w
}

/// A byte is determined by its bits.
pub proof fn lemma_byte_ext(a: u8, b: u8)
    requires
        forall|t: nat| t < 8 ==> byte_bit(a, t) == byte_bit(b, t),
    ensures
        a == b,
{
    assert(byte_bit(a, 0) == byte_bit(b, 0));
    assert(byte_bit(a, 1) == byte_bit(b, 1));
    assert(byte_bit(a, 2) == byte_bit(b, 2));
    assert(byte_bit(a, 3) == byte_bit(b, 3));
    assert(byte_bit(a, 4) == byte_bit(b, 4));
    assert(byte_bit(a, 5) == byte_bit(b, 5));
    assert(byte_bit(a, 6) == byte_bit(b, 6));
    assert(byte_bit(a, 7) == byte_bit(b, 7));
    assert(a == b) by (bit_vector)
        requires
            ((a >> 0u8) & 1 == 1) == ((b >> 0u8) & 1 == 1),
            ((a >> 1u8) & 1 == 1) == ((b >> 1u8) & 1 == 1),
            ((a >> 2u8) & 1 == 1) == ((b >> 2u8) & 1 == 1),
            ((a >> 3u8) & 1 == 1) == ((b >> 3u8) & 1 == 1),
            ((a >> 4u8) & 1 == 1) == ((b >> 4u8) & 1 == 1),
            ((a >> 5u8) & 1 == 1) == ((b >> 5u8) & 1 == 1),
            ((a >> 6u8) & 1 == 1) == ((b >> 6u8) & 1 == 1),
            ((a >> 7u8) & 1 == 1) == ((b >> 7u8) & 1 == 1),
    ;
}

/// A word is determined by its bytes.
pub proof fn lemma_word_ext(a: u64, b: u64)
    requires
        forall|j: nat| j < 8 ==> word_byte(a, j) == word_byte(b, j),
    ensures
        a == b,
{
    assert(word_byte(a, 0) == word_byte(b, 0));
    assert(word_byte(a, 1) == word_byte(b, 1));
    assert(word_byte(a, 2) == word_byte(b, 2));
    assert(word_byte(a, 3) == word_byte(b, 3));
    assert(word_byte(a, 4) == word_byte(b, 4));
    assert(word_byte(a, 5) == word_byte(b, 5));
    assert(word_byte(a, 6) == word_byte(b, 6));
    assert(word_byte(a, 7) == word_byte(b, 7));
    assert(a == b) by (bit_vector)
        requires
            (a >> 0u64) as u8 == (b >> 0u64) as u8,
            (a >> 8u64) as u8 == (b >> 8u64) as u8,
            (a >> 16u64) as u8 == (b >> 16u64) as u8,
            (a >> 24u64) as u8 == (b >> 24u64) as u8,
            (a >> 32u64) as u8 == (b >> 32u64) as u8,
            (a >> 40u64) as u8 == (b >> 40u64) as u8,
            (a >> 48u64) as u8 == (b >> 48u64) as u8,
            (a >> 56u64) as u8 == (b >> 56u64) as u8,
    ;
}

/// A field element is determined by its sixteen bytes.
pub proof fn lemma_field_ext(a: F128, b: F128)
    requires
        forall|j: nat| j < 16 ==> fbyte(a, j) == fbyte(b, j),
    ensures
        a == b,
{
    assert forall|j: nat| j < 8 implies word_byte(a.lo, j) == word_byte(b.lo, j) by {
        assert(fbyte(a, j) == fbyte(b, j));
    }
    assert forall|j: nat| j < 8 implies word_byte(a.hi, j) == word_byte(b.hi, j) by {
        assert(fbyte(a, j + 8) == fbyte(b, j + 8));
    }
    lemma_word_ext(a.lo, b.lo);
    lemma_word_ext(a.hi, b.hi);
}

/// Addition acts on each byte by XOR.
pub proof fn lemma_byte_add(a: F128, b: F128, j: nat)
    requires
        j < 16,
    ensures
        fbyte(fadd(a, b), j) == fbyte(a, j) ^ fbyte(b, j),
{
    let (p, q): (u64, u64) = if j < 8 {
        (a.lo, b.lo)
    } else {
        (a.hi, b.hi)
    };
    let s: u64 = if j < 8 {
        (8 * j) as u64
    } else {
        (8 * (j - 8) as nat) as u64
    };
    assert(((p ^ q) >> s) as u8 == ((p >> s) as u8) ^ ((q >> s) as u8)) by (bit_vector)
        requires
            s < 64,
    ;
}

/// Whether bit `i` of a word is set.
pub fn word_bit_at(w: u64, i: u64) -> (r: bool)
    requires
        i < 64,
    ensures
        r == word_bit(w, i as nat),
{
    (w >> i) & 1 == 1
}

/// Coefficient `i` of a field element.
pub fn field_bit_at(a: F128, i: usize) -> (r: bool)
    requires
        i < 128,
    ensures
        r == fbit(a, i as nat),
{
    if i < 64 {
        (a.lo >> (i as u64)) & 1 == 1
    } else {
        (a.hi >> ((i - 64) as u64)) & 1 == 1
    }
}

/// Transposes eight words into 64 bytes starting at `out[at]`: bit `r` of byte
/// `b` is bit `b` of `lanes[r]`.
pub fn transpose_8_u64s_to_64_bytes(lanes: &[u64; 8], out: &mut [u8], at: usize)
    requires
        at + 64 <= old(out)@.len(),
    ensures
        final(out)@.len() == old(out)@.len(),
        forall|i: int|
            0 <= i < old(out)@.len() && !(at <= i < at + 64) ==> #[trigger] final(out)@[i] == old(
                out,
            )@[i],
        forall|b: int, r: nat|
            0 <= b < 64 && r < 8 ==> #[trigger] byte_bit(final(out)@[at + b], r) == word_bit(
                lanes@[r as int],
                b as nat,
            ),
{
    let mut b: usize = 0;
    let len: usize = out.len();
    let ghost before = out@;
    while b < 64
        invariant
            b <= 64,
            len == before.len(),
            at + 64 <= before.len(),
            out@.len() == before.len(),
            forall|i: int|
                0 <= i < before.len() && !(at <= i < at + 64) ==> #[trigger] out@[i] == before[i],
            forall|c: int, r: nat|
                0 <= c < b && r < 8 ==> #[trigger] byte_bit(out@[at + c], r) == word_bit(
                    lanes@[r as int],
                    c as nat,
                ),
        decreases 64 - b,
    {
        let mut byte: u8 = 0;
        let mut r: usize = 0;
        proof {
            assert forall|t: nat| t < 8 implies !byte_bit(0u8, t) by {
                lemma_set_bit(0, 0, t);
            }
        }
        while r < 8
            invariant
                r <= 8,
                b < 64,
                forall|t: nat|
                    t < 8 ==> #[trigger] byte_bit(byte, t) == (t < r && word_bit(
                        lanes@[t as int],
                        b as nat,
                    )),
            decreases 8 - r,
        {
            if word_bit_at(lanes[r], b as u64) {
                let ghost prior = byte;
                byte = byte | (1u8 << (r as u8));
                proof {
                    assert forall|t: nat| t < 8 implies #[trigger] byte_bit(byte, t) == (t < r + 1
                        && word_bit(lanes@[t as int], b as nat)) by {
                        lemma_set_bit(prior, r as u8, t);
                    }
                }
            }
            r = r + 1;
        }
        out[at + b] = byte;
        b = b + 1;
    }
}

/// Transposes one element from each of eight blocks into 128 bytes starting at
/// `out[at]`: bit `r` of byte `b` is coefficient `b` of `lanes[r]`.
pub fn transpose_8_f128s_to_128_bytes(lanes: &[F128; 8], out: &mut [u8], at: usize)
    requires
        at + 128 <= old(out)@.len(),
    ensures
        final(out)@.len() == old(out)@.len(),
        forall|i: int|
            0 <= i < old(out)@.len() && !(at <= i < at + 128) ==> #[trigger] final(out)@[i] == old(
                out,
            )@[i],
        forall|b: int, r: nat|
            0 <= b < 128 && r < 8 ==> #[trigger] byte_bit(final(out)@[at + b], r) == fbit(
                lanes@[r as int],
                b as nat,
            ),
{
    let lo: [u64; 8] = [
        lanes[0].lo,
        lanes[1].lo,
        lanes[2].lo,
        lanes[3].lo,
        lanes[4].lo,
        lanes[5].lo,
        lanes[6].lo,
        lanes[7].lo,
    ];
    let hi: [u64; 8] = [
        lanes[0].hi,
        lanes[1].hi,
        lanes[2].hi,
        lanes[3].hi,
        lanes[4].hi,
        lanes[5].hi,
        lanes[6].hi,
        lanes[7].hi,
    ];
    let len: usize = out.len();
    assert(at + 64 <= len);
    transpose_8_u64s_to_64_bytes(&lo, out, at);
    let ghost mid = out@;
    transpose_8_u64s_to_64_bytes(&hi, out, at + 64);
    proof {
        assert forall|b: int, r: nat| 0 <= b < 128 && r < 8 implies #[trigger] byte_bit(
            out@[at + b],
            r,
        ) == fbit(lanes@[r as int], b as nat) by {
            if b < 64 {
                assert(out@[at + b] == mid[at + b]);
                assert(byte_bit(mid[at + b], r) == word_bit(lo@[r as int], b as nat));
            } else {
                assert(out@[at + b] == out@[(at + 64) + (b - 64)]);
                assert(byte_bit(out@[(at + 64) + (b - 64)], r) == word_bit(
                    hi@[r as int],
                    (b - 64) as nat,
                ));
            }
        }
    }
}

/// `p` and `q` are `a` and `b` with their off-diagonal `w`-byte fields exchanged.
spec fn swapped_by(a: u64, b: u64, p: u64, q: u64, w: nat) -> bool {
    forall|j: nat|
        #![trigger word_byte(p, j)]
        #![trigger word_byte(q, j)]
        j < 8 ==> if (j / w) % 2 == 0 {
            word_byte(p, j) == word_byte(a, j) && word_byte(q, j) == word_byte(a, (j + w) as nat)
        } else {
            word_byte(p, j) == word_byte(b, (j - w) as nat) && word_byte(q, j) == word_byte(b, j)
        }
}

proof fn lemma_swap_bytes_1(a: u64, b: u64, t: u64)
    requires
        t == ((a >> 8u64) ^ b) & 0x00FF_00FF_00FF_00FFu64,
    ensures
        swapped_by(a, b, a ^ (t << 8u64), b ^ t, 1),
{
    assert({
        &&& ((a ^ (t << 8u64)) >> 0u64) as u8 == (a >> 0u64) as u8
        &&& ((b ^ t) >> 0u64) as u8 == (a >> 8u64) as u8
        &&& ((a ^ (t << 8u64)) >> 8u64) as u8 == (b >> 0u64) as u8
        &&& ((b ^ t) >> 8u64) as u8 == (b >> 8u64) as u8
        &&& ((a ^ (t << 8u64)) >> 16u64) as u8 == (a >> 16u64) as u8
        &&& ((b ^ t) >> 16u64) as u8 == (a >> 24u64) as u8
        &&& ((a ^ (t << 8u64)) >> 24u64) as u8 == (b >> 16u64) as u8
        &&& ((b ^ t) >> 24u64) as u8 == (b >> 24u64) as u8
        &&& ((a ^ (t << 8u64)) >> 32u64) as u8 == (a >> 32u64) as u8
        &&& ((b ^ t) >> 32u64) as u8 == (a >> 40u64) as u8
        &&& ((a ^ (t << 8u64)) >> 40u64) as u8 == (b >> 32u64) as u8
        &&& ((b ^ t) >> 40u64) as u8 == (b >> 40u64) as u8
        &&& ((a ^ (t << 8u64)) >> 48u64) as u8 == (a >> 48u64) as u8
        &&& ((b ^ t) >> 48u64) as u8 == (a >> 56u64) as u8
        &&& ((a ^ (t << 8u64)) >> 56u64) as u8 == (b >> 48u64) as u8
        &&& ((b ^ t) >> 56u64) as u8 == (b >> 56u64) as u8
    }) by (bit_vector)
        requires
            t == ((a >> 8u64) ^ b) & 0x00FF_00FF_00FF_00FFu64,
    ;
}

proof fn lemma_swap_bytes_2(a: u64, b: u64, t: u64)
    requires
        t == ((a >> 16u64) ^ b) & 0x0000_FFFF_0000_FFFFu64,
    ensures
        swapped_by(a, b, a ^ (t << 16u64), b ^ t, 2),
{
    assert({
        &&& ((a ^ (t << 16u64)) >> 0u64) as u8 == (a >> 0u64) as u8
        &&& ((b ^ t) >> 0u64) as u8 == (a >> 16u64) as u8
        &&& ((a ^ (t << 16u64)) >> 8u64) as u8 == (a >> 8u64) as u8
        &&& ((b ^ t) >> 8u64) as u8 == (a >> 24u64) as u8
        &&& ((a ^ (t << 16u64)) >> 16u64) as u8 == (b >> 0u64) as u8
        &&& ((b ^ t) >> 16u64) as u8 == (b >> 16u64) as u8
        &&& ((a ^ (t << 16u64)) >> 24u64) as u8 == (b >> 8u64) as u8
        &&& ((b ^ t) >> 24u64) as u8 == (b >> 24u64) as u8
        &&& ((a ^ (t << 16u64)) >> 32u64) as u8 == (a >> 32u64) as u8
        &&& ((b ^ t) >> 32u64) as u8 == (a >> 48u64) as u8
        &&& ((a ^ (t << 16u64)) >> 40u64) as u8 == (a >> 40u64) as u8
        &&& ((b ^ t) >> 40u64) as u8 == (a >> 56u64) as u8
        &&& ((a ^ (t << 16u64)) >> 48u64) as u8 == (b >> 32u64) as u8
        &&& ((b ^ t) >> 48u64) as u8 == (b >> 48u64) as u8
        &&& ((a ^ (t << 16u64)) >> 56u64) as u8 == (b >> 40u64) as u8
        &&& ((b ^ t) >> 56u64) as u8 == (b >> 56u64) as u8
    }) by (bit_vector)
        requires
            t == ((a >> 16u64) ^ b) & 0x0000_FFFF_0000_FFFFu64,
    ;
}

proof fn lemma_swap_bytes_4(a: u64, b: u64, t: u64)
    requires
        t == ((a >> 32u64) ^ b) & 0x0000_0000_FFFF_FFFFu64,
    ensures
        swapped_by(a, b, a ^ (t << 32u64), b ^ t, 4),
{
    assert({
        &&& ((a ^ (t << 32u64)) >> 0u64) as u8 == (a >> 0u64) as u8
        &&& ((b ^ t) >> 0u64) as u8 == (a >> 32u64) as u8
        &&& ((a ^ (t << 32u64)) >> 8u64) as u8 == (a >> 8u64) as u8
        &&& ((b ^ t) >> 8u64) as u8 == (a >> 40u64) as u8
        &&& ((a ^ (t << 32u64)) >> 16u64) as u8 == (a >> 16u64) as u8
        &&& ((b ^ t) >> 16u64) as u8 == (a >> 48u64) as u8
        &&& ((a ^ (t << 32u64)) >> 24u64) as u8 == (a >> 24u64) as u8
        &&& ((b ^ t) >> 24u64) as u8 == (a >> 56u64) as u8
        &&& ((a ^ (t << 32u64)) >> 32u64) as u8 == (b >> 0u64) as u8
        &&& ((b ^ t) >> 32u64) as u8 == (b >> 32u64) as u8
        &&& ((a ^ (t << 32u64)) >> 40u64) as u8 == (b >> 8u64) as u8
        &&& ((b ^ t) >> 40u64) as u8 == (b >> 40u64) as u8
        &&& ((a ^ (t << 32u64)) >> 48u64) as u8 == (b >> 16u64) as u8
        &&& ((b ^ t) >> 48u64) as u8 == (b >> 48u64) as u8
        &&& ((a ^ (t << 32u64)) >> 56u64) as u8 == (b >> 24u64) as u8
        &&& ((b ^ t) >> 56u64) as u8 == (b >> 56u64) as u8
    }) by (bit_vector)
        requires
            t == ((a >> 32u64) ^ b) & 0x0000_0000_FFFF_FFFFu64,
    ;
}

/// Exchanges the off-diagonal 8-bit fields of a pair of rows.
fn swap_fields_8(a: u64, b: u64) -> (r: (u64, u64))
    ensures
        swapped_by(a, b, r.0, r.1, 1),
{
    let t: u64 = ((a >> 8u64) ^ b) & 0x00FF_00FF_00FF_00FF;
    proof {
        lemma_swap_bytes_1(a, b, t);
    }
    (a ^ (t << 8u64), b ^ t)
}

/// Exchanges the off-diagonal 16-bit fields of a pair of rows.
fn swap_fields_16(a: u64, b: u64) -> (r: (u64, u64))
    ensures
        swapped_by(a, b, r.0, r.1, 2),
{
    let t: u64 = ((a >> 16u64) ^ b) & 0x0000_FFFF_0000_FFFF;
    proof {
        lemma_swap_bytes_2(a, b, t);
    }
    (a ^ (t << 16u64), b ^ t)
}

/// Exchanges the off-diagonal 32-bit fields of a pair of rows.
fn swap_fields_32(a: u64, b: u64) -> (r: (u64, u64))
    ensures
        swapped_by(a, b, r.0, r.1, 4),
{
    let t: u64 = ((a >> 32u64) ^ b) & 0x0000_0000_FFFF_FFFF;
    proof {
        lemma_swap_bytes_4(a, b, t);
    }
    (a ^ (t << 32u64), b ^ t)
}

/// Transposes an 8 x 8 byte matrix held in eight words: byte `r` of output `c`
/// is byte `c` of input `r`.
pub fn transpose_8x8_bytes(rows: [u64; 8]) -> (cols: [u64; 8])
    ensures
        forall|c: int, r: int|
            0 <= c < 8 && 0 <= r < 8 ==> #[trigger] word_byte(cols@[c], r as nat) == word_byte(
                rows@[r],
                c as nat,
            ),
{
    let (a0, a1) = swap_fields_8(rows[0], rows[1]);
    let (a2, a3) = swap_fields_8(rows[2], rows[3]);
    let (a4, a5) = swap_fields_8(rows[4], rows[5]);
    let (a6, a7) = swap_fields_8(rows[6], rows[7]);
    let (b0, b2) = swap_fields_16(a0, a2);
    let (b1, b3) = swap_fields_16(a1, a3);
    let (b4, b6) = swap_fields_16(a4, a6);
    let (b5, b7) = swap_fields_16(a5, a7);
    let (c0, c4) = swap_fields_32(b0, b4);
    let (c1, c5) = swap_fields_32(b1, b5);
    let (c2, c6) = swap_fields_32(b2, b6);
    let (c3, c7) = swap_fields_32(b3, b7);
    [c0, c1, c2, c3, c4, c5, c6, c7]
}

} // verus!

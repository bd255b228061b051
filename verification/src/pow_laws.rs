//! What a difficulty is, bit by bit, and which nonce a search settles on.

use crate::challenger::{Challenger, FsChallenger, FsView};
use crate::hash::{blake3_hash, sha256, HashKind};
use crate::pow::{is_first_hit, leading_zero_bits, pow_hash, pow_hit, scan_end};
use vstd::bytes::spec_u64_to_le_bytes;
use vstd::prelude::*;

verus! {

/// Bit `i` of a byte string, the most significant bit of each byte first.
pub open spec fn string_bit(h: Seq<u8>, i: int) -> bool {
    (h[i / 8] >> ((7 - i % 8) as u8)) & 1 == 1
}

/// The top bits of a byte, one at a time.
proof fn lemma_top_bit(x: u8)
    ensures
        (x >> 7) & 1 == 0 <==> x < 128,
        x < 128 ==> ((x >> 6) & 1 == 0 <==> x < 64),
        x < 64 ==> ((x >> 5) & 1 == 0 <==> x < 32),
        x < 32 ==> ((x >> 4) & 1 == 0 <==> x < 16),
        x < 16 ==> ((x >> 3) & 1 == 0 <==> x < 8),
        x < 8 ==> ((x >> 2) & 1 == 0 <==> x < 4),
        x < 4 ==> ((x >> 1) & 1 == 0 <==> x < 2),
        x < 2 ==> ((x >> 0) & 1 == 0 <==> x < 1),
        forall|j: u8| #[trigger] ((x >> j) & 1) == 0 || (x >> j) & 1 == 1,
{
    assert(((x >> 7) & 1 == 0 <==> x < 128) && (x < 128 ==> ((x >> 6) & 1 == 0 <==> x < 64)) && (x
        < 64 ==> ((x >> 5) & 1 == 0 <==> x < 32)) && (x < 32 ==> ((x >> 4) & 1 == 0 <==> x < 16))
        && (x < 16 ==> ((x >> 3) & 1 == 0 <==> x < 8)) && (x < 8 ==> ((x >> 2) & 1 == 0 <==> x < 4))
        && (x < 4 ==> ((x >> 1) & 1 == 0 <==> x < 2)) && (x < 2 ==> ((x >> 0) & 1 == 0 <==> x < 1)))
        by (bit_vector);
    assert(forall|j: u8| #[trigger] ((x >> j) & 1) == 0 || (x >> j) & 1 == 1) by (bit_vector);
}

/// One more bit of difficulty asks for exactly one more zero bit.
pub proof fn lemma_one_more_zero_bit(h: Seq<u8>, n: nat)
    requires
        n < 8 * h.len(),
    ensures
        leading_zero_bits(h, n + 1) <==> leading_zero_bits(h, n) && !string_bit(h, n as int),
{
    let (q, r) = (n / 8, n % 8);
    let x = h[q as int];
    lemma_top_bit(x);
    vstd::arithmetic::power2::lemma2_to64();
    if r == 7 {
        assert((n + 1) / 8 == q + 1 && (n + 1) % 8 == 0);
        if leading_zero_bits(h, n) && !string_bit(h, n as int) {
            assert forall|i: int| 0 <= i < h.len() && i < (n + 1) / 8 implies #[trigger] h[i] == 0 by {
                if i == q {
                    assert(x < 1);
                }
            }
        }
    } else {
        assert((n + 1) / 8 == q && (n + 1) % 8 == r + 1);
    }
}

/// A difficulty of `bits` is met exactly where the first `bits` bits are zero.
pub proof fn lemma_zero_bits_one_by_one(h: Seq<u8>, bits: nat)
    requires
        bits <= 8 * h.len(),
    ensures
        leading_zero_bits(h, bits) <==> forall|i: int| 0 <= i < bits ==> !#[trigger] string_bit(h, i),
    decreases bits,
{
    if bits > 0 {
        let n = (bits - 1) as nat;
        lemma_zero_bits_one_by_one(h, n);
        lemma_one_more_zero_bit(h, n);
    }
}

/// The strings that a nonce is tried on tell digests and nonces apart, under either hash.
pub proof fn lemma_pow_input(kind: HashKind, digest: Seq<u8>, nonce: u64, other: u64)
    ensures
        pow_hash(kind, digest, nonce) == match kind {
            HashKind::Sha256 => sha256(digest + spec_u64_to_le_bytes(nonce)),
            HashKind::Blake3 => blake3_hash(
                digest + spec_u64_to_le_bytes(nonce) + Seq::new(24, |i: int| 0u8),
            ),
        },
        digest + spec_u64_to_le_bytes(nonce) == digest + spec_u64_to_le_bytes(other) ==> nonce
            == other,
{
    vstd::bytes::lemma_auto_spec_u64_to_from_le_bytes();
    let (a, b) = (spec_u64_to_le_bytes(nonce), spec_u64_to_le_bytes(other));
    assert(a =~= (digest + a).skip(digest.len() as int));
    assert(b =~= (digest + b).skip(digest.len() as int));
    assert(vstd::bytes::spec_u64_from_le_bytes(a) == nonce);
    assert(vstd::bytes::spec_u64_from_le_bytes(b) == other);
}

/// A search finds the smallest nonce of its range whose hash starts with `bits` zero bits:
/// what it finds has them, every smaller nonce of the range has a one among them, and where
/// it finds nothing every nonce of the range has.
pub proof fn lemma_search_finds_smallest(
    kind: HashKind,
    digest: Seq<u8>,
    lo: int,
    hi: int,
    bits: u32,
    found: Option<u64>,
    n: u64,
)
    requires
        is_first_hit(kind, digest, lo, hi, bits, found),
        bits <= 8 * pow_hash(kind, digest, n).len(),
    ensures
        found == Some(n) ==> lo <= n < hi && forall|i: int|
            0 <= i < bits ==> !#[trigger] string_bit(pow_hash(kind, digest, n), i),
        lo <= n < hi && (found matches Some(m) ==> n < m) ==> exists|i: int|
            0 <= i < bits && #[trigger] string_bit(pow_hash(kind, digest, n), i),
{
    lemma_zero_bits_one_by_one(pow_hash(kind, digest, n), bits as nat);
    if lo <= n < hi && (found matches Some(m) ==> n < m) {
        assert(!pow_hit(kind, digest, n, bits));
    }
}

/// A scan of `len` nonces from `start` ends behind the last of them, or at the largest
/// nonce.
pub proof fn lemma_scan_range(start: u64, len: u64)
    ensures
        start + len <= u64::MAX ==> scan_end(start, len) == start + len,
        start + len > u64::MAX ==> scan_end(start, len) == u64::MAX,
{
}

/// What proof of work is about: a nonce passes a difficulty of `bits` exactly where the
/// hash of the transcript's digest and the nonce starts with `bits` zero bits, and grinding
/// settles on the smallest such nonce.
pub proof fn lemma_work_is_zero_bits(s: FsView, bits: u32, nonce: u64, ground: u64)
    requires
        bits > 0,
        bits <= 8 * pow_hash(s.kind, s.digest(), nonce).len(),
    ensures
        FsChallenger::pow_ok(s, nonce, bits) <==> forall|i: int|
            0 <= i < bits ==> !#[trigger] string_bit(pow_hash(s.kind, s.digest(), nonce), i),
        FsChallenger::is_ground(s, bits, ground) && FsChallenger::pow_ok(s, nonce, bits) && nonce
            < u64::MAX ==> ground <= nonce,
        FsChallenger::is_ground(s, bits, ground) ==> FsChallenger::pow_ok(s, ground, bits)
            && FsChallenger::can_grind(s, bits),
        FsChallenger::pow_ok(s, nonce, bits) && nonce < u64::MAX ==> FsChallenger::can_grind(
            s,
            bits,
        ),
{
    lemma_zero_bits_one_by_one(pow_hash(s.kind, s.digest(), nonce), bits as nat);
    if FsChallenger::is_ground(s, bits, ground) && FsChallenger::pow_ok(s, nonce, bits) && nonce
        < ground {
        assert(!pow_hit(s.kind, s.digest(), nonce, bits));
    }
}

} // verus!

//! Proof-of-work grinding against a transcript digest.
//!
//! The pre-image is the 32-byte digest followed by the nonce in little-endian
//! order. SHA-256 hashes those 40 bytes as they stand; BLAKE3 hashes them padded
//! with zeros to one whole 64-byte block, which can be hashed many at a time.

use crate::hash::{blake3_hash, blake3_hash_many, blake3_of, sha256, sha256_of, HashKind};
use crate::par::par_find_first;
use vstd::arithmetic::power2::pow2;
use vstd::bytes::{spec_u64_to_le_bytes, u64_to_le_bytes};
use vstd::prelude::*;

verus! {

/// Nonces hashed together in the BLAKE3 search.
pub const BLAKE3_POW_BATCH: usize = 32;

/// Expected hashes below which a search stays on one thread.
pub const PARALLEL_GRIND_MIN_HASHES: u64 = 8192;

/// Nonces that one task of a search covers.
pub const GRIND_CHUNK: u64 = 1024;

/// Whether `h` starts with `bits` zero bits, the most significant bit of a byte
/// first. Whole bytes past the end of `h` count as zero, a part of one does not.
pub open spec fn leading_zero_bits(h: Seq<u8>, bits: nat) -> bool {
    &&& forall|i: int| 0 <= i < h.len() && i < bits / 8 ==> #[trigger] h[i] == 0
    &&& bits % 8 > 0 ==> bits / 8 < h.len() && h[(bits / 8) as int] < pow2((8 - bits % 8) as nat)
}

/// The 40 bytes that a nonce is tried on.
pub open spec fn pow_bytes(digest: Seq<u8>, nonce: u64) -> Seq<u8> {
    digest + spec_u64_to_le_bytes(nonce)
}

/// The hash that decides whether a nonce is accepted.
pub open spec fn pow_hash(kind: HashKind, digest: Seq<u8>, nonce: u64) -> Seq<u8> {
    match kind {
        HashKind::Sha256 => sha256(pow_bytes(digest, nonce)),
        HashKind::Blake3 => blake3_hash(
            pow_bytes(digest, nonce) + Seq::new(24, |i: int| 0u8),
        ),
    }
}

/// Whether a nonce meets the difficulty.
pub open spec fn pow_hit(kind: HashKind, digest: Seq<u8>, nonce: u64, bits: u32) -> bool {
    leading_zero_bits(pow_hash(kind, digest, nonce), bits as nat)
}

/// No nonce in `lo..hi` meets the difficulty.
pub open spec fn no_hit(kind: HashKind, digest: Seq<u8>, lo: int, hi: int, bits: u32) -> bool {
    forall|n: u64| lo <= n < hi ==> !#[trigger] pow_hit(kind, digest, n, bits)
}

/// `found` is the smallest nonce in `lo..hi` that meets the difficulty, or `None`
/// where there is none.
pub open spec fn is_first_hit(
    kind: HashKind,
    digest: Seq<u8>,
    lo: int,
    hi: int,
    bits: u32,
    found: Option<u64>,
) -> bool {
    match found {
        Some(n) => lo <= n < hi && pow_hit(kind, digest, n, bits) && no_hit(
            kind,
            digest,
            lo,
            n as int,
            bits,
        ),
        None => no_hit(kind, digest, lo, hi, bits),
    }
}

/// `start + len`, at most the largest nonce.
pub open spec fn scan_end(start: u64, len: u64) -> int {
    if start + len > u64::MAX {
        u64::MAX as int
    } else {
        start + len
    }
}

/// Whether some nonce below the largest meets the difficulty.
pub open spec fn has_hit(kind: HashKind, digest: Seq<u8>, bits: u32) -> bool {
    !no_hit(kind, digest, 0, u64::MAX as int, bits)
}

/// The hashes that finding `nonce` takes: one for every nonce up to it, in whole batches
/// under BLAKE3. The batch that the range ends in is cut short.
pub open spec fn hashes_up_to(kind: HashKind, nonce: u64) -> int {
    let n: int = match kind {
        HashKind::Sha256 => nonce + 1,
        HashKind::Blake3 => (nonce / (BLAKE3_POW_BATCH as u64) + 1) * BLAKE3_POW_BATCH,
    };
    if n < u64::MAX {
        n
    } else {
        u64::MAX as int
    }
}

/// Counts the hashes that finding `nonce` takes.
pub fn count_hashes_up_to(kind: HashKind, nonce: u64) -> (n: u64)
    ensures
        n == hashes_up_to(kind, nonce),
{
    match kind {
        HashKind::Sha256 => nonce.saturating_add(1),
        HashKind::Blake3 => {
            let batch: u64 = BLAKE3_POW_BATCH as u64;
            (nonce - nonce % batch).saturating_add(batch)
        },
    }
}

/// Whether `h` has at least `bits` leading zero bits.
pub fn has_leading_zero_bits(h: &[u8], bits: u32) -> (r: bool)
    ensures
        r == leading_zero_bits(h@, bits as nat),
{
    let full_bytes: usize = (bits / 8) as usize;
    let extra: u32 = bits % 8;
    let len: usize = h.len();
    let mut i: usize = 0;
    while i < full_bytes && i < len
        invariant
            len == h@.len(),
            full_bytes == bits / 8,
            i <= full_bytes,
            i <= len,
            forall|j: int| 0 <= j < i ==> #[trigger] h@[j] == 0,
        decreases len - i,
    {
        if h[i] != 0 {
            return false;
        }
        i = i + 1;
    }
    if extra > 0 {
        if full_bytes >= len {
            return false;
        }
        let shift: u8 = (8 - extra) as u8;
        proof {
            vstd::bits::lemma_u8_shr_is_div(h@[full_bytes as int], shift);
            vstd::arithmetic::power2::lemma_pow2_pos(shift as nat);
            let b: int = h@[full_bytes as int] as int;
            let p: int = pow2(shift as nat) as int;
            assert((b / p == 0) == (b < p)) by (nonlinear_arith)
                requires
                    b >= 0,
                    p > 0,
            ;
        }
        if (h[full_bytes] >> shift) != 0 {
            return false;
        }
    }
    true
}

/// The zero-padded 64-byte block that BLAKE3 hashes for a nonce.
pub fn blake3_pow_preimage(state_digest: &[u8; 32], pow_counter: u64) -> (pre: [u8; 64])
    ensures
        pre@ == pow_bytes(state_digest@, pow_counter) + Seq::new(24, |i: int| 0u8),
{
    let mut pre: [u8; 64] = [0u8; 64];
    let nonce: Vec<u8> = u64_to_le_bytes(pow_counter);
    let mut i: usize = 0;
    proof {
        vstd::array::axiom_spec_array_fill_for_copy_type::<u8, 64>(0u8);
    }
    while i < 40
        invariant
            i <= 40,
            pre@.len() == 64,
            nonce@ == spec_u64_to_le_bytes(pow_counter),
            nonce@.len() == 8,
            state_digest@.len() == 32,
            forall|j: int| 0 <= j < i ==> pre@[j] == pow_bytes(state_digest@, pow_counter)[j],
            forall|j: int| i <= j < 64 ==> pre@[j] == 0,
        decreases 40 - i,
    {
        if i < 32 {
            pre[i] = state_digest[i];
        } else {
            pre[i] = nonce[i - 32];
        }
        i = i + 1;
    }
    proof {
        assert(pre@ =~= pow_bytes(state_digest@, pow_counter) + Seq::new(24, |i: int| 0u8));
    }
    pre
}

/// Whether a nonce meets the difficulty under the transcript's own hash.
pub fn pow_has_leading_zero_bits(
    state_digest: &[u8; 32],
    pow_counter: u64,
    bits: u32,
    kind: HashKind,
) -> (r: bool)
    ensures
        r == pow_hit(kind, state_digest@, pow_counter, bits),
{
    match kind {
        HashKind::Sha256 => {
            let mut pre: Vec<u8> = Vec::with_capacity(40);
            let nonce: Vec<u8> = u64_to_le_bytes(pow_counter);
            pre.extend_from_slice(state_digest.as_slice());
            pre.extend_from_slice(nonce.as_slice());
            proof {
                assert(pre@ =~= pow_bytes(state_digest@, pow_counter));
            }
            let h: [u8; 32] = sha256_of(pre.as_slice());
            has_leading_zero_bits(h.as_slice(), bits)
        },
        HashKind::Blake3 => {
            let pre: [u8; 64] = blake3_pow_preimage(state_digest, pow_counter);
            let h: [u8; 32] = blake3_of(pre.as_slice());
            has_leading_zero_bits(h.as_slice(), bits)
        },
    }
}

/// The smallest nonce in `start .. start + len` that meets the difficulty under
/// BLAKE3, hashing [`BLAKE3_POW_BATCH`] blocks at a time.
pub fn blake3_pow_scan_many(state_digest: &[u8; 32], start: u64, len: u64, bits: u32) -> (r: Option<
    u64,
>)
    ensures
        is_first_hit(
            HashKind::Blake3,
            state_digest@,
            start as int,
            scan_end(start, len),
            bits,
            r,
        ),
{
    let end: u64 = start.saturating_add(len);
    let mut base: u64 = start;
    while base < end
        invariant
            start <= base <= end,
            end == scan_end(start, len),
            no_hit(HashKind::Blake3, state_digest@, start as int, base as int, bits),
        decreases end - base,
    {
        let left: u64 = end - base;
        let n: usize = if left < BLAKE3_POW_BATCH as u64 {
            left as usize
        } else {
            BLAKE3_POW_BATCH
        };
        let mut blocks: Vec<[u8; 64]> = Vec::with_capacity(n);
        let mut i: usize = 0;
        while i < n
            invariant
                i <= n,
                base + n <= end,
                blocks@.len() == i,
                forall|j: int|
                    0 <= j < i ==> (#[trigger] blocks@[j])@ == pow_bytes(
                        state_digest@,
                        (base + j) as u64,
                    ) + Seq::new(24, |i: int| 0u8),
            decreases n - i,
        {
            let block: [u8; 64] = blake3_pow_preimage(state_digest, base + i as u64);
            blocks.push(block);
            i = i + 1;
        }
        let digests: Vec<[u8; 32]> = blake3_hash_many(&blocks);
        i = 0;
        while i < n
            invariant
                i <= n,
                start <= base,
                base + n <= end,
                end == scan_end(start, len),
                digests@.len() == n,
                forall|j: int|
                    0 <= j < n ==> (#[trigger] digests@[j])@ == pow_hash(
                        HashKind::Blake3,
                        state_digest@,
                        (base + j) as u64,
                    ),
                no_hit(HashKind::Blake3, state_digest@, start as int, base + i, bits),
            decreases n - i,
        {
            if has_leading_zero_bits(digests[i].as_slice(), bits) {
                return Some(base + i as u64);
            }
            i = i + 1;
        }
        base = base + n as u64;
    }
    None
}

/// The smallest nonce in `start .. start + len` that meets the difficulty under
/// BLAKE3.
pub fn blake3_pow_scan(state_digest: &[u8; 32], start: u64, len: u64, bits: u32) -> (r: Option<u64>)
    ensures
        is_first_hit(
            HashKind::Blake3,
            state_digest@,
            start as int,
            scan_end(start, len),
            bits,
            r,
        ),
{
    blake3_pow_scan_many(state_digest, start, len, bits)
}

/// The smallest nonce in `start .. start + len` that meets the difficulty: batched
/// under BLAKE3, one by one under SHA-256.
pub fn pow_scan(
    state_digest: &[u8; 32],
    start: u64,
    len: u64,
    bits: u32,
    kind: HashKind,
) -> (r: Option<u64>)
    ensures
        is_first_hit(kind, state_digest@, start as int, scan_end(start, len), bits, r),
{
    match kind {
        HashKind::Blake3 => blake3_pow_scan(state_digest, start, len, bits),
        HashKind::Sha256 => {
            let end: u64 = start.saturating_add(len);
            let mut n: u64 = start;
            while n < end
                invariant
                    kind == HashKind::Sha256,
                    start <= n <= end,
                    end == scan_end(start, len),
                    no_hit(HashKind::Sha256, state_digest@, start as int, n as int, bits),
                decreases end - n,
            {
                if pow_has_leading_zero_bits(state_digest, n, bits, kind) {
                    return Some(n);
                }
                n = n + 1;
            }
            None
        },
    }
}

/// How many nonces one pass of the search takes on: one task's worth for a small
/// search, about twice the expected number of tries for a large one.
pub fn grind_tasks(bits: u32) -> (tasks: usize)
    ensures
        1 <= tasks <= 32768,
        bits < 13 ==> tasks == 1,
        13 <= bits <= 24 ==> tasks * GRIND_CHUNK == pow2((bits + 1) as nat),
        bits > 24 ==> tasks == 32768,
{
    proof {
        vstd::arithmetic::power2::lemma2_to64();
        vstd::arithmetic::power2::lemma2_to64_rest();
    }
    if bits < 13 {
        1
    } else {
        let mut e: u32 = 13;
        let mut tasks: usize = 16;
        proof {
            assert(pow2(14) == 16384);
        }
        while e < bits && e < 24
            invariant
                13 <= e <= 24,
                e <= bits,
                tasks <= 32768,
                tasks >= 16,
                tasks * GRIND_CHUNK == pow2((e + 1) as nat),
                pow2(25) == 33554432,
            decreases 24 - e,
        {
            proof {
                vstd::arithmetic::power2::lemma_pow2_unfold((e + 2) as nat);
                if e + 2 < 25 {
                    vstd::arithmetic::power2::lemma_pow2_strictly_increases((e + 2) as nat, 25);
                }
            }
            tasks = 2 * tasks;
            e = e + 1;
        }
        tasks
    }
}

/// The smallest nonce below the largest that meets the difficulty, or `None` where
/// no nonce does. Small searches run block by block on this thread; large ones hand
/// the tasks of a block to the pool and take the first in nonce order, so the
/// answer is the same either way.
pub fn find_nonce(state_digest: &[u8; 32], bits: u32, kind: HashKind) -> (r: Option<u64>)
    ensures
        is_first_hit(kind, state_digest@, 0, u64::MAX as int, bits, r),
{
    let tasks: usize = grind_tasks(bits);
    let block: u64 = tasks as u64 * GRIND_CHUNK;
    let mut start: u64 = 0;
    while start < u64::MAX
        invariant
            1 <= tasks <= 32768,
            block == tasks * GRIND_CHUNK,
            no_hit(kind, state_digest@, 0, start as int, bits),
        decreases u64::MAX - start,
    {
        let found: Option<u64> = if tasks == 1 {
            pow_scan(state_digest, start, GRIND_CHUNK, bits, kind)
        } else {
            scan_block(state_digest, start, tasks, bits, kind)
        };
        if found.is_some() {
            return found;
        }
        start = start.saturating_add(block);
    }
    None
}

/// One block of a large search: `tasks` chunks scanned by the pool.
pub fn scan_block(
    state_digest: &[u8; 32],
    start: u64,
    tasks: usize,
    bits: u32,
    kind: HashKind,
) -> (r: Option<u64>)
    requires
        tasks <= 32768,
    ensures
        is_first_hit(
            kind,
            state_digest@,
            start as int,
            scan_end(start, (tasks * GRIND_CHUNK) as u64),
            bits,
            r,
        ),
{
    let scan = |c: usize| -> (r: Option<u64>)
        requires
            tasks > c,
            tasks <= 32768,
        ensures
            is_first_hit(
                kind,
                state_digest@,
                chunk_start(start, c as int),
                chunk_start(start, c + 1),
                bits,
                r,
            ),
        {
            let from: u64 = start.saturating_add(c as u64 * GRIND_CHUNK);
            pow_scan(state_digest, from, GRIND_CHUNK, bits, kind)
        };
    let found: Option<u64> = par_find_first(tasks, scan);
    proof {
        let d = state_digest@;
        if found is Some {
            let i = choose|i: usize|
                i < tasks && #[trigger] call_ensures(scan, (i,), found) && forall|j: usize|
                    j < i ==> #[trigger] call_ensures(scan, (j,), None);
            assert forall|j: usize| j < i implies #[trigger] chunk_misses(
                kind,
                d,
                start,
                j as nat,
                bits,
            ) by {
                assert(call_ensures(scan, (j,), None::<u64>));
            }
            lemma_chunks_miss(kind, d, start, i as nat, bits);
        } else {
            assert forall|j: usize| j < tasks implies #[trigger] chunk_misses(
                kind,
                d,
                start,
                j as nat,
                bits,
            ) by {
                assert(call_ensures(scan, (j,), None::<u64>));
            }
            lemma_chunks_miss(kind, d, start, tasks as nat, bits);
        }
    }
    found
}

/// Where chunk `c` of a block starts.
pub open spec fn chunk_start(start: u64, c: int) -> int {
    if start + c * GRIND_CHUNK > u64::MAX {
        u64::MAX as int
    } else {
        start + c * GRIND_CHUNK
    }
}

/// Chunk `c` of a block holds no nonce that meets the difficulty.
spec fn chunk_misses(kind: HashKind, d: Seq<u8>, start: u64, c: nat, bits: u32) -> bool {
    no_hit(kind, d, chunk_start(start, c as int), chunk_start(start, c as int + 1), bits)
}

/// Chunks that miss one by one miss together.
proof fn lemma_chunks_miss(kind: HashKind, d: Seq<u8>, start: u64, n: nat, bits: u32)
    requires
        n <= 32768,
        forall|j: usize| j < n ==> #[trigger] chunk_misses(kind, d, start, j as nat, bits),
    ensures
        no_hit(kind, d, start as int, chunk_start(start, n as int), bits),
    decreases n,
{
    if n > 0 {
        lemma_chunks_miss(kind, d, start, (n - 1) as nat, bits);
        let j: usize = (n - 1) as usize;
        assert(chunk_misses(kind, d, start, j as nat, bits));
    }
}

/// The first hit is unique: a search returns the same nonce however it is cut up.
pub proof fn lemma_first_hit_unique(
    kind: HashKind,
    digest: Seq<u8>,
    lo: int,
    hi: int,
    bits: u32,
    a: Option<u64>,
    b: Option<u64>,
)
    requires
        is_first_hit(kind, digest, lo, hi, bits, a),
        is_first_hit(kind, digest, lo, hi, bits, b),
    ensures
        a == b,
{
    if let Some(x) = a {
        if let Some(y) = b {
            if x < y {
                assert(pow_hit(kind, digest, x, bits));
            } else if y < x {
                assert(pow_hit(kind, digest, y, bits));
            }
        }
    }
}

} // verus!

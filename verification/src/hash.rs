//! The two transcript hashes, from the `sha2` and `blake3` crates.

use blake3::platform::Platform;
use sha2::Digest;
use vstd::prelude::*;

verus! {

/// Which hash backs a transcript.
#[derive(Clone, Copy, Debug, PartialEq, Eq, Structural)]
pub enum HashKind {
    Sha256,
    Blake3,
}

/// `sha2::Sha256`, the streaming SHA-256 hasher.
#[verifier::external_type_specification]
#[verifier::external_body]
pub struct ExSha256(sha2::Sha256);

/// `blake3::Hasher`, the streaming BLAKE3 hasher.
#[verifier::external_type_specification]
#[verifier::external_body]
pub struct ExBlake3Hasher(blake3::Hasher);

/// The bytes that a SHA-256 hasher has taken in.
pub uninterp spec fn sha256_taken(h: sha2::Sha256) -> Seq<u8>;

/// The SHA-256 digest of a byte string.
pub uninterp spec fn sha256(bytes: Seq<u8>) -> Seq<u8>;

/// The bytes that a BLAKE3 hasher has taken in.
pub uninterp spec fn blake3_taken(h: blake3::Hasher) -> Seq<u8>;

/// The BLAKE3 hash of a byte string.
pub uninterp spec fn blake3_hash(bytes: Seq<u8>) -> Seq<u8>;

/// Byte `i` of the extended BLAKE3 output of a byte string.
pub uninterp spec fn blake3_stream(bytes: Seq<u8>, i: int) -> u8;

/// `sha2::Sha256::new`: a hasher that has taken in nothing.
#[verifier::external_body]
pub(crate) fn sha256_new() -> (h: sha2::Sha256)
    ensures
        sha256_taken(h) == Seq::<u8>::empty(),
{
    sha2::Sha256::new()
}

/// `sha2::Sha256::update`: the hasher takes in `bytes` after what it took before.
#[verifier::external_body]
pub(crate) fn sha256_update(h: &mut sha2::Sha256, bytes: &[u8])
    ensures
        sha256_taken(*final(h)) == sha256_taken(*old(h)) + bytes@,
{
    h.update(bytes);
}

/// `sha2::Sha256::clone`: a hasher that has taken in the same bytes.
#[verifier::external_body]
pub(crate) fn sha256_clone(h: &sha2::Sha256) -> (r: sha2::Sha256)
    ensures
        sha256_taken(r) == sha256_taken(*h),
{
    h.clone()
}

/// `sha2::Sha256::finalize`: the digest of what the hasher took in. SHA-256 is defined
/// for messages of less than 2^64 bits, and the crate counts those bits in a `u64`; no
/// transcript comes near that length.
#[verifier::external_body]
pub(crate) fn sha256_finalize(h: sha2::Sha256) -> (r: [u8; 32])
    ensures
        r@ == sha256(sha256_taken(h)),
{
    h.finalize().into()
}

/// `blake3::Hasher::new`: a hasher that has taken in nothing.
#[verifier::external_body]
pub(crate) fn blake3_new() -> (h: blake3::Hasher)
    ensures
        blake3_taken(h) == Seq::<u8>::empty(),
{
    blake3::Hasher::new()
}

/// `blake3::Hasher::update`: the hasher takes in `bytes` after what it took
/// before.
#[verifier::external_body]
pub(crate) fn blake3_update(h: &mut blake3::Hasher, bytes: &[u8])
    ensures
        blake3_taken(*final(h)) == blake3_taken(*old(h)) + bytes@,
{
    h.update(bytes);
}

/// `blake3::Hasher::clone`: a hasher that has taken in the same bytes.
#[verifier::external_body]
pub(crate) fn blake3_clone(h: &blake3::Hasher) -> (r: blake3::Hasher)
    ensures
        blake3_taken(r) == blake3_taken(*h),
{
    h.clone()
}

/// `blake3::Hasher::finalize`: the hash of what the hasher took in.
#[verifier::external_body]
pub(crate) fn blake3_finalize(h: &blake3::Hasher) -> (r: [u8; 32])
    ensures
        r@ == blake3_hash(blake3_taken(*h)),
{
    *h.finalize().as_bytes()
}

/// `blake3::Hasher::finalize_xof` and `OutputReader::fill` from the start of the
/// output: the buffer holds the first bytes of the extended output, however long
/// it is.
#[verifier::external_body]
pub(crate) fn blake3_fill(h: &blake3::Hasher, out: &mut [u8])
    ensures
        final(out)@.len() == old(out)@.len(),
        forall|i: int|
            0 <= i < old(out)@.len() ==> #[trigger] final(out)@[i] == blake3_stream(
                blake3_taken(*h),
                i,
            ),
{
    h.finalize_xof().fill(out)
}

/// `blake3::platform::Platform::hash_many` over whole 64-byte messages, with the
/// initial chaining value, counter 0 and the flags of a one-block root chunk:
/// digest `i` is the BLAKE3 hash of message `i`.
#[verifier::external_body]
pub(crate) fn blake3_hash_many(messages: &Vec<[u8; 64]>) -> (out: Vec<[u8; 32]>)
    ensures
        out@.len() == messages@.len(),
        forall|i: int|
            0 <= i < out@.len() ==> (#[trigger] out@[i])@ == blake3_hash(messages@[i]@),
{
    let iv: [u32; 8] = [
        0x6A09E667, 0xBB67AE85, 0x3C6EF372, 0xA54FF53A, 0x510E527F, 0x9B05688C, 0x1F83D9AB, 0x5BE0CD19,
    ];
    let inputs: Vec<&[u8; 64]> = messages.iter().collect();
    let mut out: Vec<[u8; 32]> = vec![[0u8; 32]; inputs.len()];
    let no = blake3::IncrementCounter::No;
    Platform::detect().hash_many(&inputs, &iv, 0, no, 0, 1, 2 | 8, out.as_flattened_mut());
    out
}

/// The SHA-256 digest of `bytes`.
pub fn sha256_of(bytes: &[u8]) -> (r: [u8; 32])
    ensures
        r@ == sha256(bytes@),
{
    let mut h: sha2::Sha256 = sha256_new();
    sha256_update(&mut h, bytes);
    proof {
        assert(Seq::<u8>::empty() + bytes@ =~= bytes@);
    }
    sha256_finalize(h)
}

/// The BLAKE3 hash of `bytes`.
pub fn blake3_of(bytes: &[u8]) -> (r: [u8; 32])
    ensures
        r@ == blake3_hash(bytes@),
{
    let mut h: blake3::Hasher = blake3_new();
    blake3_update(&mut h, bytes);
    proof {
        assert(Seq::<u8>::empty() + bytes@ =~= bytes@);
    }
    blake3_finalize(&h)
}

} // verus!

//! What a Fiat-Shamir transcript absorbs and squeezes, byte by byte, and what follows from
//! it: transcripts that differ anywhere stay different, and no squeezed block is read from
//! the same hash input twice.

use crate::challenger::{Challenger, FsChallenger, FsView};
use crate::field::F128;
use crate::hash::{blake3_hash, blake3_stream, sha256, HashKind};
use crate::transcript::{domain_bytes, lemma_op_prefix_free, Op};
use vstd::bytes::{lemma_auto_spec_u64_to_from_le_bytes, spec_u64_from_le_bytes, spec_u64_to_le_bytes};
use vstd::prelude::*;

verus! {

/// The transcript `s` with `b` taken in on top.
pub open spec fn taken(s: FsView, b: Seq<u8>) -> FsView {
    FsView {
        kind: s.kind,
        bytes: s.bytes + b,
        count: ((s.count + b.len()) % 0x1_0000_0000_0000_0000) as u64,
    }
}

/// The sixteen bytes of a field element: the low word and then the high one, both little
/// endian.
pub open spec fn element_bytes(v: F128) -> Seq<u8> {
    spec_u64_to_le_bytes(v.lo) + spec_u64_to_le_bytes(v.hi)
}

/// The bytes of field elements, one element after the other.
pub open spec fn elements_bytes(vs: Seq<F128>) -> Seq<u8>
    decreases vs.len(),
{
    if vs.len() == 0 {
        Seq::empty()
    } else {
        elements_bytes(vs.drop_last()) + element_bytes(vs.last())
    }
}

/// A length as the transcript holds it.
pub open spec fn length_bytes(n: nat) -> Seq<u8> {
    spec_u64_to_le_bytes(n as u64)
}

/// The element that stands at byte `at`.
pub open spec fn is_element_at(v: F128, b: Seq<u8>, at: int) -> bool {
    b.subrange(at, at + 16) == element_bytes(v)
}

proof fn lemma_elements_bytes(vs: Seq<F128>)
    ensures
        elements_bytes(vs) == crate::transcript::slice_bytes(vs),
    decreases vs.len(),
{
    if vs.len() > 0 {
        let n = vs.len() - 1;
        lemma_elements_bytes(vs.drop_last());
        crate::transcript::lemma_f128_bytes(vs.last());
        let a = crate::transcript::slice_bytes(vs);
        let b = elements_bytes(vs);
        assert(a.len() == b.len());
        assert forall|i: int| 0 <= i < a.len() implies a[i] == b[i] by {
            if i < 16 * n {
                assert(i / 16 < n);
                assert(vs.drop_last()[i / 16] == vs[i / 16]);
            } else {
                assert(i / 16 == n && i % 16 == i - 16 * n);
            }
        }
        assert(a =~= b);
    } else {
        assert(elements_bytes(vs) =~= crate::transcript::slice_bytes(vs));
    }
}

/// What each observation takes in: a tag, a kind where scalars and slices have to be told
/// apart, the length of whatever has no fixed one, and the whole of what was observed.
pub proof fn lemma_observed_bytes(
    s: FsView,
    label: Seq<u8>,
    v: F128,
    vs: Seq<F128>,
    bytes: Seq<u8>,
    nonce: u64,
)
    ensures
        FsChallenger::after_label(s, label) == taken(
            s,
            seq![2u8] + length_bytes(label.len()) + label,
        ),
        FsChallenger::after_f128(s, v) == taken(s, seq![3u8, 1u8] + element_bytes(v)),
        FsChallenger::after_f128_slice(s, vs) == taken(
            s,
            seq![3u8, 2u8] + length_bytes(vs.len()) + elements_bytes(vs),
        ),
        FsChallenger::after_bytes(s, bytes) == taken(
            s,
            seq![5u8] + length_bytes(bytes.len()) + bytes,
        ),
        FsChallenger::after_pow(s, nonce) == taken(
            s,
            seq![5u8] + length_bytes(8) + spec_u64_to_le_bytes(nonce),
        ),
        domain_bytes(bytes) == seq![1u8] + length_bytes(bytes.len()) + bytes,
{
    lemma_elements_bytes(vs);
    lemma_auto_spec_u64_to_from_le_bytes();
}

/// Two different observations of one transcript leave different transcripts behind,
/// whichever of the kinds they are of.
pub proof fn lemma_observations_bind(s: FsView, a: Op, b: Op)
    requires
        a.wf(),
        b.wf(),
        a is Label || a is Scalar || a is Slice || a is Bytes,
        b is Label || b is Scalar || b is Slice || b is Bytes,
        observed(s, a).bytes == observed(s, b).bytes,
    ensures
        a == b,
{
    let (x, y) = (a.encode(), b.encode());
    assert(x =~= (s.bytes + x).skip(s.bytes.len() as int));
    assert(y =~= (s.bytes + y).skip(s.bytes.len() as int));
    lemma_op_prefix_free(a, Seq::empty(), b, Seq::empty());
}

/// The transcript behind an observation.
pub open spec fn observed(s: FsView, a: Op) -> FsView {
    match a {
        Op::Label(l) => FsChallenger::after_label(s, l),
        Op::Scalar(v) => FsChallenger::after_f128(s, v),
        Op::Slice(vs) => FsChallenger::after_f128_slice(s, vs),
        Op::Bytes(b) => FsChallenger::after_bytes(s, b),
        _ => s,
    }
}

/// The input of the hash that block `c` of a SHA-256 squeeze is the digest of.
pub open spec fn block_input(bytes: Seq<u8>, c: u64) -> Seq<u8> {
    bytes + spec_u64_to_le_bytes(c)
}

/// Hash inputs of different blocks, or of different transcripts, are different.
pub proof fn lemma_block_inputs_differ(a: Seq<u8>, c: u64, b: Seq<u8>, d: u64)
    requires
        block_input(a, c) == block_input(b, d),
    ensures
        a == b,
        c == d,
{
    lemma_auto_spec_u64_to_from_le_bytes();
    let (x, y) = (block_input(a, c), block_input(b, d));
    assert(x.len() == a.len() + 8 && y.len() == b.len() + 8);
    assert(a =~= x.take(a.len() as int));
    assert(b =~= y.take(a.len() as int));
    assert(spec_u64_to_le_bytes(c) =~= x.skip(a.len() as int));
    assert(spec_u64_to_le_bytes(d) =~= y.skip(a.len() as int));
    assert(spec_u64_from_le_bytes(spec_u64_to_le_bytes(c)) == c);
    assert(spec_u64_from_le_bytes(spec_u64_to_le_bytes(d)) == d);
}

/// What a squeeze reads: under SHA-256 byte `i` is byte `i % 32` of the digest of all that
/// was absorbed and the number of the block, `i / 32`; under BLAKE3 it is byte `i` of the
/// extended output.
pub proof fn lemma_squeezed_bytes(s: FsView, n: nat, i: int)
    requires
        0 <= i < n,
        i / 32 <= u64::MAX,
    ensures
        s.squeeze(n).len() == n,
        s.kind == HashKind::Sha256 ==> s.squeeze(n)[i] == sha256(
            block_input(s.bytes, (i / 32) as u64),
        )[i % 32],
        s.kind == HashKind::Blake3 ==> s.squeeze(n)[i] == blake3_stream(s.bytes, i),
        s.digest() == match s.kind {
            HashKind::Sha256 => sha256(s.bytes),
            HashKind::Blake3 => blake3_hash(s.bytes),
        },
{
}

/// No two blocks of a SHA-256 squeeze are read from one hash input: bytes that lie in
/// different blocks come from digests of different strings.
pub proof fn lemma_blocks_do_not_repeat(s: FsView, n: nat, i: int, j: int)
    requires
        s.kind == HashKind::Sha256,
        0 <= i < n,
        0 <= j < n,
        i / 32 != j / 32,
        i / 32 <= u64::MAX,
        j / 32 <= u64::MAX,
    ensures
        exists|a: Seq<u8>, b: Seq<u8>|
            a != b && s.squeeze(n)[i] == #[trigger] sha256(a)[i % 32] && s.squeeze(n)[j]
                == #[trigger] sha256(b)[j % 32] && s.bytes.len() < a.len() && s.bytes.len()
                < b.len(),
{
    let (a, b) = (block_input(s.bytes, (i / 32) as u64), block_input(s.bytes, (j / 32) as u64));
    lemma_squeezed_bytes(s, n, i);
    lemma_squeezed_bytes(s, n, j);
    lemma_auto_spec_u64_to_from_le_bytes();
    if a == b {
        lemma_block_inputs_differ(s.bytes, (i / 32) as u64, s.bytes, (j / 32) as u64);
    }
    assert(s.squeeze(n)[i] == sha256(a)[i % 32] && s.squeeze(n)[j] == sha256(b)[j % 32]);
}

proof fn lemma_element_read(b: Seq<u8>, at: int)
    requires
        0 <= at,
        at + 16 <= b.len(),
    ensures
        is_element_at(crate::transcript::f128_at(b, at), b, at),
{
    lemma_auto_spec_u64_to_from_le_bytes();
    let (x, y) = (b.subrange(at, at + 8), b.subrange(at + 8, at + 16));
    assert(x.len() == 8 && y.len() == 8);
    assert(spec_u64_to_le_bytes(spec_u64_from_le_bytes(x)) == x);
    assert(spec_u64_to_le_bytes(spec_u64_from_le_bytes(y)) == y);
    assert(b.subrange(at, at + 16) =~= x + y);
}

/// What a sample draws and leaves behind: the tag, and the length of a sample of many, go
/// in; the challenges are the elements whose bytes are then squeezed, one after the other;
/// and those bytes go in as well.
pub proof fn lemma_sampled_bytes(s: FsView, n: nat)
    ensures
        ({
            let t = taken(s, seq![4u8, 1u8]);
            &&& is_element_at(FsChallenger::challenge(s), t.squeeze(16), 0)
            &&& FsChallenger::after_sample(s) == taken(t, t.squeeze(16))
        }),
        ({
            let t = taken(s, seq![4u8, 2u8] + length_bytes(n));
            &&& FsChallenger::challenges(s, n).len() == n
            &&& forall|i: int|
                0 <= i < n ==> is_element_at(
                    #[trigger] FsChallenger::challenges(s, n)[i],
                    t.squeeze(16 * n),
                    16 * i,
                )
            &&& FsChallenger::after_sample_vec(s, n) == taken(t, t.squeeze(16 * n))
        }),
{
    let t = taken(s, seq![4u8, 1u8]);
    assert(t == s.sampling());
    lemma_element_read(t.squeeze(16), 0);
    crate::challenger::lemma_absorb_parts(s, seq![4u8, 1u8], t.squeeze(16));
    let u = taken(s, seq![4u8, 2u8] + length_bytes(n));
    assert(u == s.sampling_vec(n));
    let b = u.squeeze(16 * n);
    assert(b.len() == 16 * n);
    assert(b.len() / 16 == n);
    assert forall|i: int| 0 <= i < n implies is_element_at(
        #[trigger] FsChallenger::challenges(s, n)[i],
        b,
        16 * i,
    ) by {
        lemma_element_read(b, 16 * i);
    }
    crate::challenger::lemma_absorb_parts(s, seq![4u8, 2u8] + length_bytes(n), b);
}

/// Sampling binds: transcripts of different contents stay different, and each sample moves
/// the transcript on.
pub proof fn lemma_sampling_binds(s: FsView, t: FsView, n: nat)
    requires
        s.bytes.len() == t.bytes.len(),
        s.bytes != t.bytes,
    ensures
        FsChallenger::after_sample(s).bytes != FsChallenger::after_sample(t).bytes,
        FsChallenger::after_sample_vec(s, n).bytes != FsChallenger::after_sample_vec(t, n).bytes,
        FsChallenger::after_sample(s).bytes.len() == s.bytes.len() + 18,
        FsChallenger::after_sample_vec(s, n).bytes.len() == s.bytes.len() + 10 + 16 * n,
{
    lemma_auto_spec_u64_to_from_le_bytes();
    let k = s.bytes.len() as int;
    assert(FsChallenger::after_sample(s).bytes.take(k) =~= s.bytes);
    assert(FsChallenger::after_sample(t).bytes.take(k) =~= t.bytes);
    assert(FsChallenger::after_sample_vec(s, n).bytes.take(k) =~= s.bytes);
    assert(FsChallenger::after_sample_vec(t, n).bytes.take(k) =~= t.bytes);
}

} // verus!

//! Byte encoding of transcript operations.
//!
//! Every operation starts with a tag byte, and with a kind byte where scalars and
//! slices have to be told apart. Whatever has no fixed length carries its length.

use crate::field::F128;
use vstd::bytes::{lemma_auto_spec_u64_to_from_le_bytes, spec_u64_from_le_bytes, spec_u64_to_le_bytes};
use vstd::prelude::*;

verus! {

pub const OP_DOMAIN: u8 = 1;

pub const OP_LABEL: u8 = 2;

pub const OP_OBSERVE: u8 = 3;

pub const OP_SQUEEZE: u8 = 4;

pub const OP_BYTES: u8 = 5;

pub const KIND_SCALAR: u8 = 1;

pub const KIND_SLICE: u8 = 2;

/// A length as eight little-endian bytes.
pub open spec fn len_bytes(n: nat) -> Seq<u8> {
    spec_u64_to_le_bytes(n as u64)
}

/// A field element as sixteen little-endian bytes.
pub open spec fn f128_bytes(v: F128) -> Seq<u8> {
    spec_u64_to_le_bytes(v.lo) + spec_u64_to_le_bytes(v.hi)
}

/// The field element that sixteen bytes stand for, from byte `at` on.
pub open spec fn f128_at(b: Seq<u8>, at: int) -> F128 {
    F128 {
        lo: spec_u64_from_le_bytes(b.subrange(at, at + 8)),
        hi: spec_u64_from_le_bytes(b.subrange(at + 8, at + 16)),
    }
}

/// Field elements one after the other.
pub open spec fn slice_bytes(vs: Seq<F128>) -> Seq<u8> {
    Seq::new(16 * vs.len(), |i: int| f128_bytes(vs[i / 16])[i % 16])
}

/// One transcript operation, with the bytes that a squeeze produced and fed back.
pub enum Op {
    Label(Seq<u8>),
    Scalar(F128),
    Slice(Seq<F128>),
    Bytes(Seq<u8>),
    Squeeze(Seq<u8>),
    SqueezeVec(Seq<u8>),
}

impl Op {
    /// Lengths fit their encoding, and squeezes hold whole field elements.
    pub open spec fn wf(self) -> bool {
        match self {
            Op::Label(b) => b.len() <= u64::MAX,
            Op::Scalar(v) => true,
            Op::Slice(vs) => vs.len() <= u64::MAX,
            Op::Bytes(b) => b.len() <= u64::MAX,
            Op::Squeeze(b) => b.len() == 16,
            Op::SqueezeVec(b) => b.len() % 16 == 0 && b.len() / 16 <= u64::MAX,
        }
    }

    /// The bytes that the operation absorbs.
    pub open spec fn encode(self) -> Seq<u8> {
        match self {
            Op::Label(b) => seq![OP_LABEL] + len_bytes(b.len()) + b,
            Op::Scalar(v) => seq![OP_OBSERVE, KIND_SCALAR] + f128_bytes(v),
            Op::Slice(vs) => seq![OP_OBSERVE, KIND_SLICE] + len_bytes(vs.len()) + slice_bytes(vs),
            Op::Bytes(b) => seq![OP_BYTES] + len_bytes(b.len()) + b,
            Op::Squeeze(b) => seq![OP_SQUEEZE, KIND_SCALAR] + b,
            Op::SqueezeVec(b) => seq![OP_SQUEEZE, KIND_SLICE] + len_bytes(b.len() / 16) + b,
        }
    }
}

/// The bytes that a run of operations absorbs.
pub open spec fn encode_all(ops: Seq<Op>) -> Seq<u8>
    decreases ops.len(),
{
    if ops.len() == 0 {
        Seq::empty()
    } else {
        ops[0].encode() + encode_all(ops.drop_first())
    }
}

/// The bytes that a fresh transcript absorbs for its domain.
pub open spec fn domain_bytes(domain: Seq<u8>) -> Seq<u8> {
    seq![OP_DOMAIN] + len_bytes(domain.len()) + domain
}

/// Equal concatenations whose first parts have the same length have equal parts.
proof fn lemma_same_cut(a: Seq<u8>, s: Seq<u8>, b: Seq<u8>, t: Seq<u8>)
    requires
        a + s == b + t,
        a.len() == b.len(),
    ensures
        a == b,
        s == t,
{
    assert forall|i: int| 0 <= i < a.len() implies a[i] == b[i] by {
        assert((a + s)[i] == a[i]);
        assert((b + t)[i] == b[i]);
    }
    assert(a =~= b);
    assert((a + s).len() == a.len() + s.len());
    assert((b + t).len() == b.len() + t.len());
    assert forall|i: int| 0 <= i < s.len() implies s[i] == t[i] by {
        assert((a + s)[a.len() + i] == s[i]);
        assert((b + t)[b.len() + i] == t[i]);
    }
    assert(s =~= t);
}

/// Lengths are read back from their bytes.
pub proof fn lemma_len_bytes(n: nat, m: nat)
    requires
        n <= u64::MAX,
        m <= u64::MAX,
    ensures
        len_bytes(n).len() == 8,
        len_bytes(n) == len_bytes(m) ==> n == m,
{
    lemma_auto_spec_u64_to_from_le_bytes();
    assert(spec_u64_from_le_bytes(len_bytes(n)) == n as u64);
    assert(spec_u64_from_le_bytes(len_bytes(m)) == m as u64);
}

/// A field element is read back from its bytes.
pub proof fn lemma_f128_bytes(v: F128)
    ensures
        f128_bytes(v).len() == 16,
        f128_at(f128_bytes(v), 0) == v,
{
    lemma_auto_spec_u64_to_from_le_bytes();
    assert(f128_bytes(v).subrange(0, 8) =~= spec_u64_to_le_bytes(v.lo));
    assert(f128_bytes(v).subrange(8, 16) =~= spec_u64_to_le_bytes(v.hi));
}

/// Field elements are read back from their bytes.
pub proof fn lemma_slice_bytes(a: Seq<F128>, b: Seq<F128>)
    requires
        slice_bytes(a) == slice_bytes(b),
    ensures
        a == b,
{
    assert(slice_bytes(a).len() == 16 * a.len());
    assert(slice_bytes(b).len() == 16 * b.len());
    assert forall|k: int| 0 <= k < a.len() implies a[k] == b[k] by {
        lemma_f128_bytes(a[k]);
        lemma_f128_bytes(b[k]);
        assert forall|j: int| 0 <= j < 16 implies f128_bytes(a[k])[j] == f128_bytes(b[k])[j] by {
            assert((16 * k + j) / 16 == k && (16 * k + j) % 16 == j);
            assert(slice_bytes(a)[16 * k + j] == f128_bytes(a[k])[j]);
            assert(slice_bytes(b)[16 * k + j] == f128_bytes(b[k])[j]);
        }
        assert(f128_bytes(a[k]) =~= f128_bytes(b[k]));
    }
    assert(a =~= b);
}

/// A tagged and length-prefixed string determines itself and what follows.
proof fn lemma_prefixed(tag: Seq<u8>, n: nat, a: Seq<u8>, s: Seq<u8>, m: nat, b: Seq<u8>, t: Seq<u8>)
    requires
        n <= u64::MAX,
        m <= u64::MAX,
        n == m ==> a.len() == b.len(),
        (tag + len_bytes(n) + a) + s == (tag + len_bytes(m) + b) + t,
    ensures
        n == m,
        a == b,
        s == t,
{
    lemma_len_bytes(n, m);
    lemma_len_bytes(m, n);
    assert((tag + len_bytes(n) + a) + s =~= (tag + len_bytes(n)) + (a + s));
    assert((tag + len_bytes(m) + b) + t =~= (tag + len_bytes(m)) + (b + t));
    lemma_same_cut(tag + len_bytes(n), a + s, tag + len_bytes(m), b + t);
    lemma_same_cut(tag, len_bytes(n), tag, len_bytes(m));
    lemma_same_cut(a, s, b, t);
}

/// No operation's bytes are the start of another's: the first operation of a
/// transcript, and what follows it, can be read off the bytes.
pub proof fn lemma_op_prefix_free(x: Op, s: Seq<u8>, y: Op, t: Seq<u8>)
    requires
        x.wf(),
        y.wf(),
        x.encode() + s == y.encode() + t,
    ensures
        x == y,
        s == t,
{
    let l = x.encode() + s;
    let r = y.encode() + t;
    assert(l[0] == r[0] && l[1] == r[1]);
    match x {
        Op::Label(a) => {
            lemma_len_bytes(a.len(), 0);
            match y {
                Op::Label(b) => {
                    lemma_prefixed(seq![OP_LABEL], a.len(), a, s, b.len(), b, t);
                },
                _ => {},
            }
        },
        Op::Bytes(a) => {
            lemma_len_bytes(a.len(), 0);
            match y {
                Op::Bytes(b) => {
                    lemma_prefixed(seq![OP_BYTES], a.len(), a, s, b.len(), b, t);
                },
                _ => {},
            }
        },
        Op::Scalar(a) => {
            match y {
                Op::Scalar(b) => {
                    lemma_f128_bytes(a);
                    lemma_f128_bytes(b);
                    lemma_same_cut(x.encode(), s, y.encode(), t);
                    lemma_same_cut(
                        seq![OP_OBSERVE, KIND_SCALAR],
                        f128_bytes(a),
                        seq![OP_OBSERVE, KIND_SCALAR],
                        f128_bytes(b),
                    );
                },
                _ => {},
            }
        },
        Op::Slice(a) => {
            match y {
                Op::Slice(b) => {
                    lemma_prefixed(
                        seq![OP_OBSERVE, KIND_SLICE],
                        a.len(),
                        slice_bytes(a),
                        s,
                        b.len(),
                        slice_bytes(b),
                        t,
                    );
                    lemma_slice_bytes(a, b);
                },
                _ => {},
            }
        },
        Op::Squeeze(a) => {
            match y {
                Op::Squeeze(b) => {
                    lemma_same_cut(x.encode(), s, y.encode(), t);
                    lemma_same_cut(
                        seq![OP_SQUEEZE, KIND_SCALAR],
                        a,
                        seq![OP_SQUEEZE, KIND_SCALAR],
                        b,
                    );
                },
                _ => {},
            }
        },
        Op::SqueezeVec(a) => {
            match y {
                Op::SqueezeVec(b) => {
                    lemma_prefixed(
                        seq![OP_SQUEEZE, KIND_SLICE],
                        a.len() / 16,
                        a,
                        s,
                        b.len() / 16,
                        b,
                        t,
                    );
                },
                _ => {},
            }
        },
    }
}

/// Two runs of operations that absorb the same bytes are the same run.
pub proof fn lemma_encode_injective(a: Seq<Op>, b: Seq<Op>)
    requires
        forall|i: int| 0 <= i < a.len() ==> (#[trigger] a[i]).wf(),
        forall|i: int| 0 <= i < b.len() ==> (#[trigger] b[i]).wf(),
        encode_all(a) == encode_all(b),
    ensures
        a == b,
    decreases a.len(),
{
    if a.len() == 0 {
        if b.len() > 0 {
            assert(encode_all(b)[0] == b[0].encode()[0]);
            assert(encode_all(b).len() > 0);
        }
        assert(a =~= b);
    } else if b.len() == 0 {
        assert(a[0].encode().len() > 0);
        assert(encode_all(a).len() > 0);
    } else {
        lemma_op_prefix_free(
            a[0],
            encode_all(a.drop_first()),
            b[0],
            encode_all(b.drop_first()),
        );
        assert(forall|i: int|
            0 <= i < a.drop_first().len() ==> a.drop_first()[i] == #[trigger] a[i + 1]);
        assert(forall|i: int|
            0 <= i < b.drop_first().len() ==> b.drop_first()[i] == #[trigger] b[i + 1]);
        assert forall|i: int| 0 <= i < a.drop_first().len() implies (
        #[trigger] a.drop_first()[i]).wf() by {
            assert(a[i + 1].wf());
        }
        assert forall|i: int| 0 <= i < b.drop_first().len() implies (
        #[trigger] b.drop_first()[i]).wf() by {
            assert(b[i + 1].wf());
        }
        lemma_encode_injective(a.drop_first(), b.drop_first());
        assert(a =~= seq![a[0]] + a.drop_first());
        assert(b =~= seq![b[0]] + b.drop_first());
    }
}

/// Two transcripts that absorbed the same bytes had the same domain and the same
/// operations. So a slice of one is not a scalar, two scalars are not a slice of
/// two, and a domain that starts another does not pass for it.
pub proof fn lemma_transcript_injective(d: Seq<u8>, a: Seq<Op>, e: Seq<u8>, b: Seq<Op>)
    requires
        d.len() <= u64::MAX,
        e.len() <= u64::MAX,
        forall|i: int| 0 <= i < a.len() ==> (#[trigger] a[i]).wf(),
        forall|i: int| 0 <= i < b.len() ==> (#[trigger] b[i]).wf(),
        domain_bytes(d) + encode_all(a) == domain_bytes(e) + encode_all(b),
    ensures
        d == e,
        a == b,
{
    lemma_prefixed(seq![OP_DOMAIN], d.len(), d, encode_all(a), e.len(), e, encode_all(b));
    lemma_encode_injective(a, b);
}

/// Appending an operation to a run appends its bytes.
pub proof fn lemma_encode_push(ops: Seq<Op>, op: Op)
    ensures
        encode_all(ops.push(op)) == encode_all(ops) + op.encode(),
    decreases ops.len(),
{
    if ops.len() == 0 {
        assert(ops.push(op).drop_first() =~= Seq::<Op>::empty());
        assert(encode_all(ops.push(op).drop_first()) =~= Seq::<u8>::empty());
        assert(encode_all(ops.push(op)) =~= op.encode());
    } else {
        assert(ops.push(op).drop_first() =~= ops.drop_first().push(op));
        lemma_encode_push(ops.drop_first(), op);
    }
}

} // verus!

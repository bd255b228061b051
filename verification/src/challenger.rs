//! Challenge sources: a Fiat-Shamir transcript and a seeded pseudo-random stream.

use crate::field::F128;
use crate::fs_count::FsCount;
use crate::hash::{
    blake3_clone, blake3_fill, blake3_finalize, blake3_hash, blake3_new, blake3_stream,
    blake3_taken, blake3_update, sha256, sha256_clone, sha256_finalize, sha256_new, sha256_taken,
    sha256_update, HashKind,
};
use crate::pow::{
    count_hashes_up_to, find_nonce, has_hit, hashes_up_to, is_first_hit,
    pow_has_leading_zero_bits, pow_hit,
};
use crate::transcript::{
    domain_bytes, f128_at, f128_bytes, len_bytes, slice_bytes, Op, KIND_SCALAR, KIND_SLICE, OP_BYTES, OP_DOMAIN, OP_LABEL, OP_OBSERVE, OP_SQUEEZE,
};
use vstd::bytes::{spec_u64_to_le_bytes, u64_from_le_bytes, u64_to_le_bytes};
use vstd::prelude::*;
use vstd::slice::slice_subrange;

verus! {

/// A source of challenges that prover and verifier drive in step.
///
/// The state is a mathematical value, and every operation is a function of it: two
/// challengers in the same state that see the same operations draw the same
/// challenges and end in the same state.
pub trait Challenger: Send + Sized {
    /// What the challenges depend on.
    type S;

    spec fn state(&self) -> Self::S;

    spec fn after_label(s: Self::S, label: Seq<u8>) -> Self::S;

    spec fn after_f128(s: Self::S, value: F128) -> Self::S;

    spec fn after_f128_slice(s: Self::S, values: Seq<F128>) -> Self::S;

    spec fn after_bytes(s: Self::S, bytes: Seq<u8>) -> Self::S;

    /// The challenge that the next sample draws.
    spec fn challenge(s: Self::S) -> F128;

    spec fn after_sample(s: Self::S) -> Self::S;

    /// The challenges that the next sample of `n` draws.
    spec fn challenges(s: Self::S, n: nat) -> Seq<F128>;

    spec fn after_sample_vec(s: Self::S, n: nat) -> Self::S;

    /// Whether some nonce meets a difficulty of `bits`.
    spec fn can_grind(s: Self::S, bits: u32) -> bool;

    /// Whether `nonce` is the one that grinding settles on.
    spec fn is_ground(s: Self::S, bits: u32, nonce: u64) -> bool;

    /// Whether the verifier accepts `nonce`.
    spec fn pow_ok(s: Self::S, nonce: u64, bits: u32) -> bool;

    spec fn after_pow(s: Self::S, nonce: u64) -> Self::S;

    /// The verifier accepts the nonce that an honest prover grinds.
    proof fn lemma_ground_ok(s: Self::S, bits: u32, nonce: u64)
        requires
            Self::is_ground(s, bits, nonce),
        ensures
            Self::pow_ok(s, nonce, bits),
    ;

    /// Absorb a domain-separation label.
    fn observe_label(&mut self, label: &[u8])
        ensures
            final(self).state() == Self::after_label(old(self).state(), label@),
    ;

    /// Absorb one field element.
    fn observe_f128(&mut self, value: F128)
        ensures
            final(self).state() == Self::after_f128(old(self).state(), value),
    ;

    /// Absorb a slice of field elements.
    fn observe_f128_slice(&mut self, values: &[F128])
        ensures
            final(self).state() == Self::after_f128_slice(old(self).state(), values@),
    ;

    /// Absorb bytes.
    fn observe_bytes(&mut self, bytes: &[u8])
        ensures
            final(self).state() == Self::after_bytes(old(self).state(), bytes@),
    ;

    /// Draw one challenge.
    fn sample_f128(&mut self) -> (r: F128)
        ensures
            r == Self::challenge(old(self).state()),
            final(self).state() == Self::after_sample(old(self).state()),
    ;

    /// Draw `n` challenges.
    fn sample_f128_vec(&mut self, n: usize) -> (r: Vec<F128>)
        requires
            16 * n <= usize::MAX,
        ensures
            r@ == Self::challenges(old(self).state(), n as nat),
            final(self).state() == Self::after_sample_vec(old(self).state(), n as nat),
    ;

    /// Search for a nonce of difficulty `bits` against the current state, and absorb
    /// it.
    fn grind_pow(&mut self, bits: u32) -> (nonce: u64)
        requires
            Self::can_grind(old(self).state(), bits),
        ensures
            Self::is_ground(old(self).state(), bits, nonce),
            final(self).state() == Self::after_pow(old(self).state(), nonce),
    ;

    /// Check a nonce of difficulty `bits` against the current state, and absorb it
    /// whether or not it passes.
    fn verify_pow(&mut self, pow_counter: u64, bits: u32) -> (ok: bool)
        ensures
            ok == Self::pow_ok(old(self).state(), pow_counter, bits),
            final(self).state() == Self::after_pow(old(self).state(), pow_counter),
    ;
}

/// One step of SplitMix64: the next state.
pub open spec fn splitmix_next(state: u64) -> u64 {
    state.wrapping_add(0x9E3779B97F4A7C15)
}

/// The output that SplitMix64 derives from a state.
pub open spec fn splitmix_mix(z: u64) -> u64 {
    let a = (z ^ (z >> 30)).wrapping_mul(0xBF58476D1CE4E5B9);
    let b = (a ^ (a >> 27)).wrapping_mul(0x94D049BB133111EB);
    b ^ (b >> 31)
}

/// Advance a SplitMix64 state and return the output.
pub fn splitmix64(state: &mut u64) -> (r: u64)
    ensures
        *final(state) == splitmix_next(*old(state)),
        r == splitmix_mix(splitmix_next(*old(state))),
{
    *state = (*state).wrapping_add(0x9E3779B97F4A7C15);
    let mut z: u64 = *state;
    z = (z ^ (z >> 30)).wrapping_mul(0xBF58476D1CE4E5B9);
    z = (z ^ (z >> 27)).wrapping_mul(0x94D049BB133111EB);
    z ^ (z >> 31)
}

/// A seeded pseudo-random source that ignores what it observes.
///
/// Its challenges do not bind to the prover's messages, so it is for isolating a
/// measurement or a mutation, never for a real proof.
#[derive(Clone, Debug)]
pub struct RandomChallenger {
    state: u64,
}

impl RandomChallenger {
    /// A source that starts from `seed`.
    pub fn new(seed: u64) -> (r: Self)
        ensures
            r.state() == seed,
    {
        RandomChallenger { state: seed }
    }
}

/// The `n` challenges that single samples draw one after the other.
pub open spec fn random_challenges(s: u64, n: nat) -> Seq<F128>
    decreases n,
{
    if n == 0 {
        Seq::empty()
    } else {
        let before = random_after(s, (n - 1) as nat);
        random_challenges(s, (n - 1) as nat).push(RandomChallenger::challenge(before))
    }
}

/// The state after `n` single samples.
pub open spec fn random_after(s: u64, n: nat) -> u64
    decreases n,
{
    if n == 0 {
        s
    } else {
        RandomChallenger::after_sample(random_after(s, (n - 1) as nat))
    }
}

impl Challenger for RandomChallenger {
    type S = u64;

    closed spec fn state(&self) -> u64 {
        self.state
    }

    open spec fn after_label(s: u64, label: Seq<u8>) -> u64 {
        s
    }

    open spec fn after_f128(s: u64, value: F128) -> u64 {
        s
    }

    open spec fn after_f128_slice(s: u64, values: Seq<F128>) -> u64 {
        s
    }

    open spec fn after_bytes(s: u64, bytes: Seq<u8>) -> u64 {
        s
    }

    open spec fn challenge(s: u64) -> F128 {
        F128 {
            lo: splitmix_mix(splitmix_next(s)),
            hi: splitmix_mix(splitmix_next(splitmix_next(s))),
        }
    }

    open spec fn after_sample(s: u64) -> u64 {
        splitmix_next(splitmix_next(s))
    }

    open spec fn challenges(s: u64, n: nat) -> Seq<F128> {
        random_challenges(s, n)
    }

    open spec fn after_sample_vec(s: u64, n: nat) -> u64 {
        random_after(s, n)
    }

    open spec fn can_grind(s: u64, bits: u32) -> bool {
        true
    }

    open spec fn is_ground(s: u64, bits: u32, nonce: u64) -> bool {
        nonce == 0
    }

    open spec fn pow_ok(s: u64, nonce: u64, bits: u32) -> bool {
        true
    }

    open spec fn after_pow(s: u64, nonce: u64) -> u64 {
        s
    }

    proof fn lemma_ground_ok(s: u64, bits: u32, nonce: u64) {
    }

    fn observe_label(&mut self, label: &[u8]) {
    }

    fn observe_f128(&mut self, value: F128) {
    }

    fn observe_f128_slice(&mut self, values: &[F128]) {
    }

    fn observe_bytes(&mut self, bytes: &[u8]) {
    }

    fn sample_f128(&mut self) -> (r: F128) {
        let lo: u64 = splitmix64(&mut self.state);
        let hi: u64 = splitmix64(&mut self.state);
        F128 { lo, hi }
    }

    fn sample_f128_vec(&mut self, n: usize) -> (r: Vec<F128>) {
        let mut out: Vec<F128> = Vec::with_capacity(n);
        let mut i: usize = 0;
        while i < n
            invariant
                i <= n,
                out@ == random_challenges(old(self).state(), i as nat),
                self.state() == random_after(old(self).state(), i as nat),
            decreases n - i,
        {
            let c: F128 = self.sample_f128();
            out.push(c);
            i = i + 1;
        }
        out
    }

    fn grind_pow(&mut self, bits: u32) -> (nonce: u64) {
        0
    }

    fn verify_pow(&mut self, pow_counter: u64, bits: u32) -> (ok: bool) {
        true
    }
}

/// The running hasher of a transcript.
enum FsState {
    Sha256(sha2::Sha256),
    Blake3(Box<blake3::Hasher>),
}

/// A Fiat-Shamir transcript over SHA-256 or BLAKE3.
///
/// Sampling squeezes bytes out of the running hash and absorbs them again, so that
/// every later challenge depends on every earlier one. It counts its squeezes and its
/// proof-of-work hashes; the challenges do not depend on the counters.
pub struct FsChallenger {
    state: FsState,
    n_absorbed: u64,
    count: FsCount,
}

/// The hashes that a search counts: none without a difficulty, those up to the nonce that
/// was found, or those of the whole range where none was.
pub open spec fn search_hashes(kind: HashKind, bits: u32, found: Option<u64>) -> int {
    if bits == 0 {
        0
    } else {
        match found {
            Some(nonce) => hashes_up_to(kind, nonce),
            None => u64::MAX as int,
        }
    }
}

/// What a transcript's challenges depend on: its hash and all that it absorbed, with
/// the running byte count, which wraps.
#[verifier::ext_equal]
pub struct FsView {
    pub kind: HashKind,
    pub bytes: Seq<u8>,
    pub count: u64,
}

impl FsView {
    /// The view after absorbing `b`.
    pub open spec fn absorb(self, b: Seq<u8>) -> FsView {
        FsView {
            kind: self.kind,
            bytes: self.bytes + b,
            count: ((self.count + b.len()) % 0x1_0000_0000_0000_0000) as u64,
        }
    }

    /// The first `n` bytes that the view squeezes out: SHA-256 of what was absorbed
    /// and a block counter, or the BLAKE3 output stream.
    pub open spec fn squeeze(self, n: nat) -> Seq<u8> {
        Seq::new(
            n,
            |i: int|
                match self.kind {
                    HashKind::Sha256 => sha256(
                        self.bytes + spec_u64_to_le_bytes((i / 32) as u64),
                    )[i % 32],
                    HashKind::Blake3 => blake3_stream(self.bytes, i),
                },
        )
    }

    /// The digest that proof of work is ground against.
    pub open spec fn digest(self) -> Seq<u8> {
        match self.kind {
            HashKind::Sha256 => sha256(self.bytes),
            HashKind::Blake3 => blake3_hash(self.bytes),
        }
    }

    /// The view before a single sample squeezes.
    pub open spec fn sampling(self) -> FsView {
        self.absorb(seq![OP_SQUEEZE, KIND_SCALAR])
    }

    /// The view before a sample of `n` squeezes.
    pub open spec fn sampling_vec(self, n: nat) -> FsView {
        self.absorb(seq![OP_SQUEEZE, KIND_SLICE] + len_bytes(n))
    }
}

/// Absorbing in two parts is absorbing the whole.
pub proof fn lemma_absorb_parts(v: FsView, a: Seq<u8>, b: Seq<u8>)
    ensures
        v.absorb(a).absorb(b) == v.absorb(a + b),
{
    assert(v.bytes + a + b =~= v.bytes + (a + b));
}

/// The byte count is the number of bytes absorbed, up to wrapping.
pub proof fn lemma_count_follows_bytes(v: FsView, b: Seq<u8>)
    requires
        v.count == v.bytes.len() % 0x1_0000_0000_0000_0000,
    ensures
        v.absorb(b).count == v.absorb(b).bytes.len() % 0x1_0000_0000_0000_0000,
{
}

impl FsState {
    spec fn kind(&self) -> HashKind {
        match self {
            FsState::Sha256(_) => HashKind::Sha256,
            FsState::Blake3(_) => HashKind::Blake3,
        }
    }

    spec fn bytes(&self) -> Seq<u8> {
        match self {
            FsState::Sha256(h) => sha256_taken(*h),
            FsState::Blake3(h) => blake3_taken(**h),
        }
    }
}

impl FsChallenger {
    /// The squeezes and the proof-of-work hashes so far.
    pub closed spec fn counted(&self) -> FsCount {
        self.count
    }

    /// A transcript over SHA-256 for `domain`.
    pub fn new(domain: &[u8]) -> (r: Self)
        ensures
            r.state() == (FsView {
                kind: HashKind::Sha256,
                bytes: Seq::empty(),
                count: 0,
            }).absorb(domain_bytes(domain@)),
            r.counted() == (FsCount { squeezes: 0, pow_sha256: 0 }),
    {
        Self::with_hash(domain, HashKind::Sha256)
    }

    /// A transcript over the given hash for `domain`.
    pub fn with_hash(domain: &[u8], kind: HashKind) -> (r: Self)
        ensures
            r.state() == (FsView { kind, bytes: Seq::empty(), count: 0 }).absorb(
                domain_bytes(domain@),
            ),
            r.counted() == (FsCount { squeezes: 0, pow_sha256: 0 }),
    {
        let state: FsState = match kind {
            HashKind::Sha256 => FsState::Sha256(sha256_new()),
            HashKind::Blake3 => FsState::Blake3(Box::new(blake3_new())),
        };
        let mut c: FsChallenger = FsChallenger { state, n_absorbed: 0, count: FsCount::new() };
        let ghost v = c.state();
        c.absorb_op(&[OP_DOMAIN], domain.len(), domain);
        proof {
            assert(v.bytes =~= Seq::<u8>::empty());
            assert([OP_DOMAIN]@ =~= seq![OP_DOMAIN]);
        }
        c
    }

    /// Which hash backs this transcript.
    pub fn hash_kind(&self) -> (r: HashKind)
        ensures
            r == self.state().kind,
    {
        match &self.state {
            FsState::Sha256(_) => HashKind::Sha256,
            FsState::Blake3(_) => HashKind::Blake3,
        }
    }

    /// How many bytes were absorbed so far.
    pub fn absorbed_bytes(&self) -> (r: u64)
        ensures
            r == self.state().count,
    {
        self.n_absorbed
    }

    /// The squeezes and the proof-of-work hashes since the last such call. Each sample,
    /// single or not, and each digest of the state that proof of work is ground or
    /// checked against is one squeeze.
    pub fn take_count(&mut self) -> (c: FsCount)
        ensures
            c == old(self).counted(),
            final(self).counted() == (FsCount { squeezes: 0, pow_sha256: 0 }),
            final(self).state() == old(self).state(),
    {
        let c: FsCount = self.count;
        self.count = FsCount::new();
        c
    }

    /// Absorb bytes into the running hash.
    fn absorb(&mut self, bytes: &[u8])
        ensures
            final(self).state() == old(self).state().absorb(bytes@),
            final(self).counted() == old(self).counted(),
    {
        let len: usize = bytes.len();
        match &mut self.state {
            FsState::Sha256(h) => {
                sha256_update(h, bytes);
            },
            FsState::Blake3(h) => {
                blake3_update(&mut **h, bytes);
            },
        }
        self.n_absorbed = self.n_absorbed.wrapping_add(len as u64);
    }

    /// Absorb a tag, a length and a body.
    fn absorb_op(&mut self, tag: &[u8], n: usize, body: &[u8])
        ensures
            final(self).state() == old(self).state().absorb(tag@ + len_bytes(n as nat) + body@),
            final(self).counted() == old(self).counted(),
    {
        let ghost v = self.state();
        self.absorb(tag);
        let len: Vec<u8> = u64_to_le_bytes(n as u64);
        self.absorb(len.as_slice());
        self.absorb(body);
        proof {
            lemma_absorb_parts(v, tag@, len@);
            lemma_absorb_parts(v, tag@ + len@, body@);
        }
    }

    /// Absorb the sixteen bytes of a field element.
    fn absorb_f128(&mut self, v: F128)
        ensures
            final(self).state() == old(self).state().absorb(f128_bytes(v)),
            final(self).counted() == old(self).counted(),
    {
        let ghost s = self.state();
        let lo: Vec<u8> = u64_to_le_bytes(v.lo);
        let hi: Vec<u8> = u64_to_le_bytes(v.hi);
        self.absorb(lo.as_slice());
        self.absorb(hi.as_slice());
        proof {
            lemma_absorb_parts(s, lo@, hi@);
        }
    }

    /// Fill `out` with bytes squeezed from the current state, which stays as it is.
    pub fn squeeze_into(&self, out: &mut Vec<u8>)
        ensures
            final(out)@ == self.state().squeeze(old(out)@.len()),
    {
        let n: usize = out.len();
        let ghost v = self.state();
        match &self.state {
            FsState::Sha256(hasher) => {
                let mut off: usize = 0;
                let mut ctr: u64 = 0;
                while off < n
                    invariant
                        n == out@.len(),
                        off <= n,
                        off == n || off == 32 * ctr,
                        v.kind == HashKind::Sha256,
                        v.bytes == sha256_taken(*hasher),
                        forall|i: int| 0 <= i < off ==> #[trigger] out@[i] == v.squeeze(n as nat)[i],
                    decreases n - off,
                {
                    let mut h: sha2::Sha256 = sha256_clone(hasher);
                    let ctr_bytes: Vec<u8> = u64_to_le_bytes(ctr);
                    sha256_update(&mut h, ctr_bytes.as_slice());
                    let block: [u8; 32] = sha256_finalize(h);
                    let left: usize = n - off;
                    let take: usize = if left < 32 {
                        left
                    } else {
                        32
                    };
                    let mut j: usize = 0;
                    while j < take
                        invariant
                            j <= take <= 32,
                            n == out@.len(),
                            off + take <= n,
                            off == 32 * ctr,
                            v.kind == HashKind::Sha256,
                            block@ == sha256(v.bytes + spec_u64_to_le_bytes(ctr)),
                            forall|i: int|
                                0 <= i < off + j ==> #[trigger] out@[i] == v.squeeze(n as nat)[i],
                        decreases take - j,
                    {
                        out.set(off + j, block[j]);
                        proof {
                            assert((off + j) / 32 == ctr && (off + j) % 32 == j as int);
                        }
                        j = j + 1;
                    }
                    off = off + take;
                    ctr = ctr.wrapping_add(1);
                }
                proof {
                    assert(out@ =~= v.squeeze(n as nat));
                }
            },
            FsState::Blake3(hasher) => {
                blake3_fill(&**hasher, out.as_mut_slice());
                proof {
                    assert(out@ =~= v.squeeze(n as nat));
                }
            },
        }
    }

    /// The 32-byte digest of the current state, which stays as it is. It counts as a
    /// squeeze.
    pub fn state_digest(&mut self) -> (r: [u8; 32])
        ensures
            r@ == old(self).state().digest(),
            final(self).state() == old(self).state(),
            final(self).counted() == old(self).counted().plus(1, 0),
    {
        self.count.note_squeeze();
        match &self.state {
            FsState::Sha256(h) => sha256_finalize(sha256_clone(h)),
            FsState::Blake3(h) => blake3_finalize(&**h),
        }
    }

    /// Searches for a nonce without absorbing it. Counted are the hashes up to the nonce;
    /// what other workers had tried past it depends on the pool.
    fn search_pow(&mut self, bits: u32) -> (r: Option<u64>)
        ensures
            match r {
                Some(nonce) => Self::is_ground(old(self).state(), bits, nonce),
                None => !Self::can_grind(old(self).state(), bits),
            },
            final(self).state() == old(self).state(),
            final(self).counted() == old(self).counted().plus(
                1,
                search_hashes(old(self).state().kind, bits, r),
            ),
    {
        let ghost before = self.counted();
        let digest: [u8; 32] = self.state_digest();
        if bits == 0 {
            return Some(0);
        }
        let kind: HashKind = self.hash_kind();
        let found: Option<u64> = find_nonce(&digest, bits, kind);
        let hashes: u64 = match found {
            Some(nonce) => count_hashes_up_to(kind, nonce),
            None => u64::MAX,
        };
        self.count.note_pow(hashes);
        proof {
            crate::fs_count::lemma_counts_add(before, 1, 0, 0, hashes as int);
        }
        found
    }

    /// Grind where a nonce exists; say so, and leave the transcript as it is, where
    /// none does.
    pub fn try_grind_pow(&mut self, bits: u32) -> (r: Option<u64>)
        ensures
            match r {
                Some(nonce) => Self::is_ground(old(self).state(), bits, nonce)
                    && final(self).state() == Self::after_pow(old(self).state(), nonce),
                None => !Self::can_grind(old(self).state(), bits) && final(self).state() == old(
                    self,
                ).state(),
            },
            final(self).counted() == old(self).counted().plus(
                1,
                search_hashes(old(self).state().kind, bits, r),
            ),
    {
        let found: Option<u64> = self.search_pow(bits);
        if let Some(nonce) = found {
            let bytes: Vec<u8> = u64_to_le_bytes(nonce);
            self.observe_bytes(bytes.as_slice());
        }
        found
    }
}

impl Clone for FsChallenger {
    /// A transcript in the same state that has counted nothing yet.
    fn clone(&self) -> (r: Self)
        ensures
            r.state() == self.state(),
            r.counted() == (FsCount { squeezes: 0, pow_sha256: 0 }),
    {
        let state: FsState = match &self.state {
            FsState::Sha256(h) => FsState::Sha256(sha256_clone(h)),
            FsState::Blake3(h) => FsState::Blake3(Box::new(blake3_clone(&**h))),
        };
        FsChallenger { state, n_absorbed: self.n_absorbed, count: FsCount::new() }
    }
}

impl Challenger for FsChallenger {
    type S = FsView;

    closed spec fn state(&self) -> FsView {
        FsView { kind: self.state.kind(), bytes: self.state.bytes(), count: self.n_absorbed }
    }

    open spec fn after_label(s: FsView, label: Seq<u8>) -> FsView {
        s.absorb(Op::Label(label).encode())
    }

    open spec fn after_f128(s: FsView, value: F128) -> FsView {
        s.absorb(Op::Scalar(value).encode())
    }

    open spec fn after_f128_slice(s: FsView, values: Seq<F128>) -> FsView {
        s.absorb(Op::Slice(values).encode())
    }

    open spec fn after_bytes(s: FsView, bytes: Seq<u8>) -> FsView {
        s.absorb(Op::Bytes(bytes).encode())
    }

    open spec fn challenge(s: FsView) -> F128 {
        f128_at(s.sampling().squeeze(16), 0)
    }

    open spec fn after_sample(s: FsView) -> FsView {
        s.absorb(Op::Squeeze(s.sampling().squeeze(16)).encode())
    }

    open spec fn challenges(s: FsView, n: nat) -> Seq<F128> {
        Seq::new(n, |i: int| f128_at(s.sampling_vec(n).squeeze(16 * n), 16 * i))
    }

    open spec fn after_sample_vec(s: FsView, n: nat) -> FsView {
        s.absorb(Op::SqueezeVec(s.sampling_vec(n).squeeze(16 * n)).encode())
    }

    open spec fn can_grind(s: FsView, bits: u32) -> bool {
        bits == 0 || has_hit(s.kind, s.digest(), bits)
    }

    open spec fn is_ground(s: FsView, bits: u32, nonce: u64) -> bool {
        if bits == 0 {
            nonce == 0
        } else {
            is_first_hit(s.kind, s.digest(), 0, u64::MAX as int, bits, Some(nonce))
        }
    }

    open spec fn pow_ok(s: FsView, nonce: u64, bits: u32) -> bool {
        if bits == 0 {
            nonce == 0
        } else {
            pow_hit(s.kind, s.digest(), nonce, bits)
        }
    }

    open spec fn after_pow(s: FsView, nonce: u64) -> FsView {
        s.absorb(Op::Bytes(spec_u64_to_le_bytes(nonce)).encode())
    }

    proof fn lemma_ground_ok(s: FsView, bits: u32, nonce: u64) {
    }

    fn observe_label(&mut self, label: &[u8])
        ensures
            final(self).counted() == old(self).counted(),
    {
        self.absorb_op(&[OP_LABEL], label.len(), label);
        proof {
            assert([OP_LABEL]@ =~= seq![OP_LABEL]);
        }
    }

    fn observe_f128(&mut self, value: F128)
        ensures
            final(self).counted() == old(self).counted(),
    {
        let ghost v = self.state();
        self.absorb(&[OP_OBSERVE, KIND_SCALAR]);
        self.absorb_f128(value);
        proof {
            assert([OP_OBSERVE, KIND_SCALAR]@ =~= seq![OP_OBSERVE, KIND_SCALAR]);
            lemma_absorb_parts(v, seq![OP_OBSERVE, KIND_SCALAR], f128_bytes(value));
        }
    }

    fn observe_f128_slice(&mut self, values: &[F128])
        ensures
            final(self).counted() == old(self).counted(),
    {
        let ghost v = self.state();
        let n: usize = values.len();
        let ghost head = seq![OP_OBSERVE, KIND_SLICE] + len_bytes(n as nat);
        self.absorb_op(&[OP_OBSERVE, KIND_SLICE], n, &[]);
        proof {
            assert([OP_OBSERVE, KIND_SLICE]@ =~= seq![OP_OBSERVE, KIND_SLICE]);
            assert(head + slice_bytes(values@.take(0)) =~= head + Seq::<u8>::empty());
        }
        let mut i: usize = 0;
        while i < n
            invariant
                i <= n,
                n == values@.len(),
                self.state() == v.absorb(head + slice_bytes(values@.take(i as int))),
                self.counted() == old(self).counted(),
            decreases n - i,
        {
            self.absorb_f128(values[i]);
            proof {
                lemma_absorb_parts(
                    v,
                    head + slice_bytes(values@.take(i as int)),
                    f128_bytes(values@[i as int]),
                );
                lemma_slice_push(values@, i as int);
                assert(head + slice_bytes(values@.take(i as int)) + f128_bytes(values@[i as int])
                    =~= head + slice_bytes(values@.take(i + 1)));
            }
            i = i + 1;
        }
        proof {
            assert(values@.take(n as int) =~= values@);
        }
    }

    fn observe_bytes(&mut self, bytes: &[u8])
        ensures
            final(self).counted() == old(self).counted(),
    {
        self.absorb_op(&[OP_BYTES], bytes.len(), bytes);
        proof {
            assert([OP_BYTES]@ =~= seq![OP_BYTES]);
        }
    }

    fn sample_f128(&mut self) -> (r: F128)
        ensures
            final(self).counted() == old(self).counted().plus(1, 0),
    {
        self.count.note_squeeze();
        let ghost v = self.state();
        self.absorb(&[OP_SQUEEZE, KIND_SCALAR]);
        let mut buf: Vec<u8> = vec![0u8; 16];
        self.squeeze_into(&mut buf);
        self.absorb(buf.as_slice());
        proof {
            assert([OP_SQUEEZE, KIND_SCALAR]@ =~= seq![OP_SQUEEZE, KIND_SCALAR]);
            lemma_absorb_parts(v, seq![OP_SQUEEZE, KIND_SCALAR], buf@);
        }
        f128_from(buf.as_slice(), 0)
    }

    fn sample_f128_vec(&mut self, n: usize) -> (r: Vec<F128>)
        ensures
            final(self).counted() == old(self).counted().plus(1, 0),
    {
        self.count.note_squeeze();
        let ghost v = self.state();
        self.absorb_op(&[OP_SQUEEZE, KIND_SLICE], n, &[]);
        proof {
            assert([OP_SQUEEZE, KIND_SLICE]@ =~= seq![OP_SQUEEZE, KIND_SLICE]);
            assert(seq![OP_SQUEEZE, KIND_SLICE] + len_bytes(n as nat) + Seq::<u8>::empty()
                =~= seq![OP_SQUEEZE, KIND_SLICE] + len_bytes(n as nat));
        }
        let mut buf: Vec<u8> = vec![0u8; 16 * n];
        self.squeeze_into(&mut buf);
        self.absorb(buf.as_slice());
        proof {
            lemma_absorb_parts(v, seq![OP_SQUEEZE, KIND_SLICE] + len_bytes(n as nat), buf@);
        }
        let mut out: Vec<F128> = Vec::with_capacity(n);
        let mut i: usize = 0;
        while i < n
            invariant
                i <= n,
                buf@.len() == 16 * n,
                16 * n <= usize::MAX,
                out@.len() == i,
                forall|j: int| 0 <= j < i ==> #[trigger] out@[j] == f128_at(buf@, 16 * j),
            decreases n - i,
        {
            out.push(f128_from(buf.as_slice(), 16 * i));
            i = i + 1;
        }
        proof {
            assert(out@ =~= Self::challenges(v, n as nat));
        }
        out
    }

    fn grind_pow(&mut self, bits: u32) -> (nonce: u64)
        ensures
            final(self).counted() == old(self).counted().plus(
                1,
                search_hashes(old(self).state().kind, bits, Some(nonce)),
            ),
    {
        let nonce: u64 = match self.search_pow(bits) {
            Some(n) => n,
            None => 0,
        };
        let bytes: Vec<u8> = u64_to_le_bytes(nonce);
        self.observe_bytes(bytes.as_slice());
        nonce
    }

    fn verify_pow(&mut self, pow_counter: u64, bits: u32) -> (ok: bool)
        ensures
            final(self).counted() == old(self).counted().plus(
                1,
                if bits == 0 {
                    0
                } else {
                    1
                },
            ),
    {
        let ghost before = self.counted();
        let digest: [u8; 32] = self.state_digest();
        let ok: bool = if bits == 0 {
            pow_counter == 0
        } else {
            let kind: HashKind = self.hash_kind();
            self.count.note_pow(1);
            proof {
                crate::fs_count::lemma_counts_add(before, 1, 0, 0, 1);
            }
            pow_has_leading_zero_bits(&digest, pow_counter, bits, kind)
        };
        let bytes: Vec<u8> = u64_to_le_bytes(pow_counter);
        self.observe_bytes(bytes.as_slice());
        ok
    }
}

/// The field element at byte `at`.
fn f128_from(b: &[u8], at: usize) -> (r: F128)
    requires
        at + 16 <= b@.len(),
    ensures
        r == f128_at(b@, at as int),
{
    let len: usize = b.len();
    let lo: u64 = u64_from_le_bytes(slice_subrange(b, at, at + 8));
    let hi: u64 = u64_from_le_bytes(slice_subrange(b, at + 8, at + 16));
    F128 { lo, hi }
}

/// One more element appends its sixteen bytes.
proof fn lemma_slice_push(vs: Seq<F128>, i: int)
    requires
        0 <= i < vs.len(),
    ensures
        slice_bytes(vs.take(i + 1)) == slice_bytes(vs.take(i)) + f128_bytes(vs[i]),
{
    crate::transcript::lemma_f128_bytes(vs[i]);
    assert forall|j: int| 0 <= j < 16 * (i + 1) implies slice_bytes(vs.take(i + 1))[j] == (
    slice_bytes(vs.take(i)) + f128_bytes(vs[i]))[j] by {
        if j >= 16 * i {
            assert(j / 16 == i && j % 16 == j - 16 * i);
        } else {
            assert(j / 16 < i);
        }
    }
    assert(slice_bytes(vs.take(i + 1)) =~= slice_bytes(vs.take(i)) + f128_bytes(vs[i]));
}

/// A transcript binds to its nonce: two nonces leave different states behind.
pub proof fn lemma_nonce_binds(s: FsView, a: u64, b: u64)
    requires
        FsChallenger::after_pow(s, a) == FsChallenger::after_pow(s, b),
    ensures
        a == b,
{
    let x = Op::Bytes(spec_u64_to_le_bytes(a));
    let y = Op::Bytes(spec_u64_to_le_bytes(b));
    vstd::bytes::lemma_auto_spec_u64_to_from_le_bytes();
    assert(x.encode() =~= (s.bytes + x.encode()).skip(s.bytes.len() as int));
    assert(y.encode() =~= (s.bytes + y.encode()).skip(s.bytes.len() as int));
    crate::transcript::lemma_op_prefix_free(x, Seq::empty(), y, Seq::empty());
}

/// Grinding and checking stay in step: from the same state the verifier accepts the
/// prover's nonce, and both then stand where [`Challenger::after_pow`] says.
pub proof fn lemma_pow_lockstep<C: Challenger>(s: C::S, bits: u32, nonce: u64)
    requires
        C::is_ground(s, bits, nonce),
    ensures
        C::pow_ok(s, nonce, bits),
{
    C::lemma_ground_ok(s, bits, nonce);
}

/// A longer squeeze starts with the shorter one.
pub proof fn lemma_squeeze_prefix(v: FsView, n: nat, m: nat)
    requires
        n <= m,
    ensures
        v.squeeze(m).take(n as int) == v.squeeze(n),
{
    assert(v.squeeze(m).take(n as int) =~= v.squeeze(n));
}

/// Without a difficulty the only nonce that passes is zero.
pub proof fn lemma_zero_bits_canonical(s: FsView, nonce: u64)
    ensures
        FsChallenger::pow_ok(s, nonce, 0) <==> nonce == 0,
{
}

/// Drawing challenges together from the pseudo-random source is drawing them one by
/// one: the same values come in the same order, and both ways end in the same state.
pub proof fn lemma_random_vec_is_singles(s: u64, n: nat)
    ensures
        RandomChallenger::challenges(s, n).len() == n,
        forall|i: int|
            0 <= i < n ==> #[trigger] RandomChallenger::challenges(s, n)[i]
                == RandomChallenger::challenge(random_after(s, i as nat)),
        RandomChallenger::after_sample_vec(s, 0) == s,
        n > 0 ==> RandomChallenger::after_sample_vec(s, n) == RandomChallenger::after_sample(
            RandomChallenger::after_sample_vec(s, (n - 1) as nat),
        ),
    decreases n,
{
    lemma_random_len(s, n);
    if n > 0 {
        let m = (n - 1) as nat;
        lemma_random_len(s, m);
        lemma_random_vec_is_singles(s, m);
        assert forall|i: int| 0 <= i < n implies #[trigger] RandomChallenger::challenges(s, n)[i]
            == RandomChallenger::challenge(random_after(s, i as nat)) by {
            if i < m {
                assert(RandomChallenger::challenges(s, n)[i] == RandomChallenger::challenges(
                    s,
                    m,
                )[i]);
            }
        }
    }
}

proof fn lemma_random_len(s: u64, n: nat)
    ensures
        random_challenges(s, n).len() == n,
    decreases n,
{
    if n > 0 {
        lemma_random_len(s, (n - 1) as nat);
    }
}

} // verus!

use flock_core::challenger::{splitmix64, Challenger, FsChallenger, RandomChallenger};
use flock_core::field::F128;
use flock_core::fs_count::{reset, snapshot, FsCount};
use flock_core::hash::{blake3_of, sha256_of, HashKind};
use flock_core::pow::{
    blake3_pow_preimage, blake3_pow_scan, blake3_pow_scan_many, count_hashes_up_to, find_nonce,
    grind_tasks, has_leading_zero_bits, pow_has_leading_zero_bits, pow_scan, scan_block,
};
use sha2::Digest;

/// Every property of a transcript holds under both hashes.
const KINDS: [HashKind; 2] = [HashKind::Sha256, HashKind::Blake3];

#[test]
fn fs_challenger_pow_roundtrip() {
    for kind in KINDS {
        for bits in [0u32, 5, 10, 14] {
            let mut prover = FsChallenger::with_hash(b"pow-test", kind);
            prover.observe_label(b"flock-pow-test");
            prover.observe_bytes(b"some root data");
            let nonce = prover.grind_pow(bits);

            let mut verifier = FsChallenger::with_hash(b"pow-test", kind);
            verifier.observe_label(b"flock-pow-test");
            verifier.observe_bytes(b"some root data");
            assert!(
                verifier.verify_pow(nonce, bits),
                "verify failed at bits={bits}"
            );

            for _ in 0..4 {
                assert_eq!(prover.sample_f128(), verifier.sample_f128());
            }
        }
    }
}

#[test]
fn fs_challenger_pow_rejects_wrong_nonce() {
    for kind in KINDS {
        let mut prover = FsChallenger::with_hash(b"pow-test", kind);
        prover.observe_bytes(b"root");
        let nonce = prover.grind_pow(10);
        let bad_nonce = nonce.wrapping_add(1);

        let mut verifier = FsChallenger::with_hash(b"pow-test", kind);
        verifier.observe_bytes(b"root");
        assert!(
            !verifier.verify_pow(bad_nonce, 10),
            "should reject wrong nonce"
        );
    }
}

#[test]
fn fs_challenger_pow_zero_bits_requires_canonical_nonce() {
    for kind in KINDS {
        let mk = || {
            let mut ch = FsChallenger::with_hash(b"pow-test", kind);
            ch.observe_bytes(b"root");
            ch
        };
        assert_eq!(mk().grind_pow(0), 0, "honest zero-bit grind is the 0 nonce");
        assert!(mk().verify_pow(0, 0), "canonical 0 nonce must verify");
        for bad in [1u64, 42, u64::MAX] {
            assert!(
                !mk().verify_pow(bad, 0),
                "non-zero nonce {bad} must be rejected at zero-bit grinding"
            );
        }
    }
}

#[test]
fn fs_challenger_new_defaults_to_sha256() {
    assert_eq!(FsChallenger::new(b"d").hash_kind(), HashKind::Sha256);
    for kind in KINDS {
        assert_eq!(FsChallenger::with_hash(b"d", kind).hash_kind(), kind);
    }
    let mut a = FsChallenger::new(b"d");
    let mut b = FsChallenger::with_hash(b"d", HashKind::Sha256);
    assert_eq!(a.sample_f128_vec(4), b.sample_f128_vec(4));
}

#[test]
fn fs_challenger_hashes_diverge() {
    let script = |ch: &mut FsChallenger| {
        ch.observe_label(b"phase");
        ch.observe_bytes(b"root");
        ch.observe_f128(F128::one());
        ch.sample_f128_vec(4)
    };
    let mut sha = FsChallenger::with_hash(b"d", HashKind::Sha256);
    let mut blake = FsChallenger::with_hash(b"d", HashKind::Blake3);
    assert_ne!(script(&mut sha), script(&mut blake));
}

#[test]
fn fs_challenger_pow_rejects_the_other_hash() {
    for kind in KINDS {
        let other = match kind {
            HashKind::Sha256 => HashKind::Blake3,
            HashKind::Blake3 => HashKind::Sha256,
        };
        let mut prover = FsChallenger::with_hash(b"pow-test", kind);
        prover.observe_bytes(b"root");
        let nonce = prover.grind_pow(10);

        let mut wrong = FsChallenger::with_hash(b"pow-test", other);
        wrong.observe_bytes(b"root");
        assert!(
            !wrong.verify_pow(nonce, 10),
            "{kind:?} nonce must not satisfy a {other:?} PoW"
        );
    }
}

#[test]
fn fs_challenger_long_squeeze_is_prefix_stable() {
    for kind in KINDS {
        let mut a = FsChallenger::with_hash(b"d", kind);
        let mut b = FsChallenger::with_hash(b"d", kind);
        assert_eq!(a.sample_f128_vec(8), b.sample_f128_vec(8), "{kind:?}");

        let vals = FsChallenger::with_hash(b"d", kind).sample_f128_vec(16);
        let unique: std::collections::HashSet<_> = vals.iter().collect();
        assert_eq!(unique.len(), vals.len(), "{kind:?}: squeeze stream repeats");
    }
}

#[test]
fn longer_squeezes_start_with_shorter_ones() {
    for kind in KINDS {
        let ch = FsChallenger::with_hash(b"d", kind);
        let mut long = vec![0u8; 100];
        ch.squeeze_into(&mut long);
        for n in [0usize, 1, 31, 32, 33, 64, 99] {
            let mut short = vec![0xffu8; n];
            ch.squeeze_into(&mut short);
            assert_eq!(short[..], long[..n], "{kind:?} n={n}");
        }
    }
}

#[test]
fn blake3_batched_pow_matches_scalar() {
    let state = [0x5Au8; 32];
    for len in [1u64, 5, 31, 32, 33, 100] {
        for start in [0u64, 7, 1_000_000] {
            assert_eq!(
                blake3_pow_scan(&state, start, len, 0),
                Some(start),
                "start={start} len={len}"
            );
            let want = (start..start + len)
                .find(|&n| pow_has_leading_zero_bits(&state, n, 6, HashKind::Blake3));
            assert_eq!(
                blake3_pow_scan(&state, start, len, 6),
                want,
                "start={start} len={len}"
            );
        }
    }
}

fn some_digests() -> [[u8; 32]; 3] {
    [
        [0x5Au8; 32],
        [0u8; 32],
        std::array::from_fn(|i| (i as u8).wrapping_mul(37).wrapping_add(11)),
    ]
}

fn check_scans(starts: &[u64]) {
    let digests = some_digests();
    let lens = [1u64, 3, 7, 8, 9, 15, 16, 17, 24, 25, 31, 32, 33, 100];
    for state in &digests {
        for &len in &lens {
            for &start in starts {
                for bits in [1u32, 6, 8, 13, 32] {
                    let want = (start..start + len)
                        .find(|&n| pow_has_leading_zero_bits(state, n, bits, HashKind::Blake3));
                    assert_eq!(
                        blake3_pow_scan(state, start, len, bits),
                        want,
                        "scan vs scalar: start={start} len={len} bits={bits}"
                    );
                    assert_eq!(
                        blake3_pow_scan_many(state, start, len, bits),
                        want,
                        "hash_many vs scalar: start={start} len={len} bits={bits}"
                    );
                }
            }
        }
    }
    let state = digests[2];
    for nonce in [0u64, 1, 255, 1 << 33] {
        let h = blake3::hash(&blake3_pow_preimage(&state, nonce));
        let w0 = u32::from_le_bytes(h.as_bytes()[..4].try_into().unwrap()).swap_bytes();
        let lz = w0.leading_zeros().min(32);
        if lz >= 1 {
            assert_eq!(blake3_pow_scan(&state, nonce, 1, lz), Some(nonce));
        }
        if lz < 32 {
            assert_eq!(blake3_pow_scan(&state, nonce, 1, lz + 1), None);
        }
    }
}

#[test]
fn blake3_neon_pow_scan_matches_scalar() {
    check_scans(&[0u64, 5, 8, (1u64 << 32) - 4, u64::from(u32::MAX), 1 << 40]);
}

#[test]
fn blake3_avx512_pow_scan_matches_scalar() {
    check_scans(&[
        0u64,
        5,
        8,
        (1u64 << 32) - 4,
        (1u64 << 32) - 20,
        u64::from(u32::MAX),
        1 << 40,
    ]);
    for state in &some_digests() {
        let base = 1u64 << 20;
        for off in 0..32u64 {
            let nonce = base + off;
            let h = blake3::hash(&blake3_pow_preimage(state, nonce));
            let w0 = u32::from_le_bytes(h.as_bytes()[..4].try_into().unwrap()).swap_bytes();
            let lz = w0.leading_zeros().min(32);
            if lz == 0 {
                continue;
            }
            let want = (base..base + 32)
                .find(|&n| pow_has_leading_zero_bits(state, n, lz, HashKind::Blake3));
            assert_eq!(
                blake3_pow_scan(state, base, 32, lz),
                want,
                "off={off} lz={lz}"
            );
        }
    }
}

#[test]
fn fs_challenger_grind_returns_smallest_nonce() {
    for kind in KINDS {
        for bits in [4u32, 14] {
            let mut ch = FsChallenger::with_hash(b"grind-min", kind);
            ch.observe_bytes(b"root");
            let digest_probe = {
                let mut probe = FsChallenger::with_hash(b"grind-min", kind);
                probe.observe_bytes(b"root");
                probe.state_digest()
            };
            let nonce = ch.grind_pow(bits);
            for n in 0..nonce {
                assert!(
                    !pow_has_leading_zero_bits(&digest_probe, n, bits, kind),
                    "{kind:?} bits={bits}: nonce {n} < {nonce} also satisfies the PoW"
                );
            }
            assert!(
                pow_has_leading_zero_bits(&digest_probe, nonce, bits, kind),
                "{kind:?} bits={bits}: returned nonce {nonce} does not satisfy the PoW"
            );
        }
    }
}

#[test]
fn random_challenger_pow_is_noop() {
    let mut ch = RandomChallenger::new(0);
    assert_eq!(ch.grind_pow(16), 0);
    assert!(ch.verify_pow(0, 16));
}

#[test]
fn random_challenger_is_deterministic_per_seed() {
    let mut c1 = RandomChallenger::new(42);
    let mut c2 = RandomChallenger::new(42);
    for _ in 0..16 {
        assert_eq!(c1.sample_f128(), c2.sample_f128());
    }
}

#[test]
fn random_challenger_observe_is_noop() {
    let mut c1 = RandomChallenger::new(7);
    let mut c2 = RandomChallenger::new(7);
    c2.observe_f128(F128 {
        lo: 0xDEADBEEF,
        hi: 0xCAFEBABE,
    });
    c2.observe_f128_slice(&[F128::one(), F128::zero()]);
    c2.observe_label(b"ignored");
    c2.observe_bytes(b"also ignored");
    for _ in 0..8 {
        assert_eq!(c1.sample_f128(), c2.sample_f128());
    }
}

#[test]
fn sample_f128_vec_matches_individual_samples() {
    let mut c1 = RandomChallenger::new(99);
    let mut c2 = RandomChallenger::new(99);
    let batch = c1.sample_f128_vec(5);
    let individual: Vec<F128> = (0..5).map(|_| c2.sample_f128()).collect();
    assert_eq!(batch, individual);
}

#[test]
fn fs_challenger_identical_scripts_produce_identical_output() {
    for kind in KINDS {
        let mut c1 = FsChallenger::with_hash(b"flock-test", kind);
        let mut c2 = FsChallenger::with_hash(b"flock-test", kind);
        let msg = F128 {
            lo: 0x1234,
            hi: 0x5678,
        };
        c1.observe_f128(msg);
        c2.observe_f128(msg);
        let r1 = c1.sample_f128_vec(8);
        let r2 = c2.sample_f128_vec(8);
        assert_eq!(r1, r2);
    }
}

#[test]
fn fs_challenger_different_domains_diverge() {
    for kind in KINDS {
        let mut c1 = FsChallenger::with_hash(b"flock-a", kind);
        let mut c2 = FsChallenger::with_hash(b"flock-b", kind);
        assert_ne!(c1.sample_f128(), c2.sample_f128());
    }
}

#[test]
fn fs_challenger_different_observations_diverge() {
    for kind in KINDS {
        let mut c1 = FsChallenger::with_hash(b"flock", kind);
        let mut c2 = FsChallenger::with_hash(b"flock", kind);
        c1.observe_f128(F128::one());
        c2.observe_f128(F128::zero());
        assert_ne!(c1.sample_f128(), c2.sample_f128());
    }
}

#[test]
fn fs_challenger_label_changes_output() {
    for kind in KINDS {
        let mut c1 = FsChallenger::with_hash(b"flock", kind);
        let mut c2 = FsChallenger::with_hash(b"flock", kind);
        c1.observe_label(b"phase-A");
        assert_ne!(c1.sample_f128(), c2.sample_f128());
    }
}

#[test]
fn fs_challenger_scalar_vs_slice_dont_collide() {
    for kind in KINDS {
        let v = F128 { lo: 0xAB, hi: 0xCD };
        let mut c1 = FsChallenger::with_hash(b"flock", kind);
        let mut c2 = FsChallenger::with_hash(b"flock", kind);
        c1.observe_f128(v);
        c2.observe_f128_slice(&[v]);
        assert_ne!(c1.sample_f128(), c2.sample_f128());
    }
}

#[test]
fn fs_challenger_two_scalars_dont_collide_with_one_slice_of_two() {
    for kind in KINDS {
        let a = F128 { lo: 1, hi: 2 };
        let b = F128 { lo: 3, hi: 4 };
        let mut c1 = FsChallenger::with_hash(b"flock", kind);
        let mut c2 = FsChallenger::with_hash(b"flock", kind);
        c1.observe_f128(a);
        c1.observe_f128(b);
        c2.observe_f128_slice(&[a, b]);
        assert_ne!(c1.sample_f128(), c2.sample_f128());
    }
}

#[test]
fn fs_challenger_sample_one_vs_sample_vec_one_differ() {
    for kind in KINDS {
        let mut c1 = FsChallenger::with_hash(b"flock", kind);
        let mut c2 = FsChallenger::with_hash(b"flock", kind);
        assert_ne!(c1.sample_f128(), c2.sample_f128_vec(1)[0]);
    }
}

#[test]
fn fs_challenger_sample_advances_state() {
    for kind in KINDS {
        let mut c1 = FsChallenger::with_hash(b"flock", kind);
        let mut c2 = FsChallenger::with_hash(b"flock", kind);
        let _ = c1.sample_f128();
        c1.observe_f128(F128::one());
        c2.observe_f128(F128::one());
        assert_ne!(c1.sample_f128(), c2.sample_f128());
    }
}

/// The bytes that a scripted transcript absorbs, written out.
fn scripted_bytes() -> Vec<u8> {
    let mut t = vec![1u8];
    t.extend_from_slice(&3u64.to_le_bytes());
    t.extend_from_slice(b"dom");
    t.push(2);
    t.extend_from_slice(&2u64.to_le_bytes());
    t.extend_from_slice(b"lb");
    t.extend_from_slice(&[3, 1]);
    t.extend_from_slice(&7u64.to_le_bytes());
    t.extend_from_slice(&9u64.to_le_bytes());
    t.extend_from_slice(&[3, 2]);
    t.extend_from_slice(&2u64.to_le_bytes());
    for v in [1u64, 2, 3, 4] {
        t.extend_from_slice(&v.to_le_bytes());
    }
    t.push(5);
    t.extend_from_slice(&4u64.to_le_bytes());
    t.extend_from_slice(b"root");
    t
}

fn scripted(kind: HashKind) -> FsChallenger {
    let mut ch = FsChallenger::with_hash(b"dom", kind);
    ch.observe_label(b"lb");
    ch.observe_f128(F128 { lo: 7, hi: 9 });
    ch.observe_f128_slice(&[F128 { lo: 1, hi: 2 }, F128 { lo: 3, hi: 4 }]);
    ch.observe_bytes(b"root");
    ch
}

fn to_f128(b: &[u8]) -> F128 {
    F128 {
        lo: u64::from_le_bytes(b[..8].try_into().unwrap()),
        hi: u64::from_le_bytes(b[8..16].try_into().unwrap()),
    }
}

#[test]
fn sha256_transcript_is_the_documented_byte_stream() {
    let mut ch = scripted(HashKind::Sha256);
    let mut t = scripted_bytes();
    assert_eq!(ch.absorbed_bytes(), t.len() as u64);
    let digest: [u8; 32] = sha2::Sha256::digest(&t).into();
    assert_eq!(ch.state_digest(), digest);

    t.extend_from_slice(&[4, 1]);
    let mut first = t.clone();
    first.extend_from_slice(&0u64.to_le_bytes());
    let block: [u8; 32] = sha2::Sha256::digest(&first).into();
    assert_eq!(ch.sample_f128(), to_f128(&block[..16]));
    t.extend_from_slice(&block[..16]);

    t.extend_from_slice(&[4, 2]);
    t.extend_from_slice(&3u64.to_le_bytes());
    let mut stream = Vec::new();
    for ctr in 0..2u64 {
        let mut pre = t.clone();
        pre.extend_from_slice(&ctr.to_le_bytes());
        let b: [u8; 32] = sha2::Sha256::digest(&pre).into();
        stream.extend_from_slice(&b);
    }
    let want: Vec<F128> = (0..3).map(|i| to_f128(&stream[16 * i..])).collect();
    assert_eq!(ch.sample_f128_vec(3), want);
    t.extend_from_slice(&stream[..48]);
    assert_eq!(ch.absorbed_bytes(), t.len() as u64);
}

#[test]
fn blake3_transcript_is_the_documented_byte_stream() {
    let mut ch = scripted(HashKind::Blake3);
    let mut t = scripted_bytes();
    assert_eq!(ch.state_digest(), *blake3::hash(&t).as_bytes());
    t.extend_from_slice(&[4, 1]);
    let mut h = blake3::Hasher::new();
    h.update(&t);
    let mut out = [0u8; 16];
    h.finalize_xof().fill(&mut out);
    assert_eq!(ch.sample_f128(), to_f128(&out));
    t.extend_from_slice(&out);
    t.extend_from_slice(&[4, 2]);
    t.extend_from_slice(&5u64.to_le_bytes());
    let mut h = blake3::Hasher::new();
    h.update(&t);
    let mut long = [0u8; 80];
    h.finalize_xof().fill(&mut long);
    let want: Vec<F128> = (0..5).map(|i| to_f128(&long[16 * i..])).collect();
    assert_eq!(ch.sample_f128_vec(5), want);
}

#[test]
fn a_cloned_transcript_goes_on_alike() {
    for kind in KINDS {
        let mut a = scripted(kind);
        let mut b = a.clone();
        assert_eq!(a.absorbed_bytes(), b.absorbed_bytes());
        assert_eq!(a.sample_f128(), b.sample_f128());
        a.observe_bytes(b"x");
        assert_ne!(a.sample_f128(), b.sample_f128());
    }
}

#[test]
fn hashes_have_their_published_values() {
    let abc = sha256_of(b"abc");
    assert_eq!(
        abc[..8],
        [0xba, 0x78, 0x16, 0xbf, 0x8f, 0x01, 0xcf, 0xea]
    );
    let empty = blake3_of(b"");
    assert_eq!(
        empty[..8],
        [0xaf, 0x13, 0x49, 0xb9, 0xf5, 0xf9, 0xa1, 0xa6]
    );
}

#[test]
fn leading_zero_bits_are_counted_from_the_top() {
    assert!(has_leading_zero_bits(&[0xff], 0));
    assert!(has_leading_zero_bits(&[0x0f, 0xff], 4));
    assert!(!has_leading_zero_bits(&[0x0f, 0xff], 5));
    assert!(has_leading_zero_bits(&[0, 0x01], 15));
    assert!(!has_leading_zero_bits(&[0, 0x01], 16));
    assert!(has_leading_zero_bits(&[0, 0], 16));
    assert!(!has_leading_zero_bits(&[1; 32], 300));
    assert!(has_leading_zero_bits(&[0; 32], 264));
}

#[test]
fn pow_preimages_are_digest_nonce_and_padding() {
    let digest = [7u8; 32];
    let pre = blake3_pow_preimage(&digest, 0x0102_0304_0506_0708);
    assert_eq!(pre[..32], digest);
    assert_eq!(pre[32..40], [8, 7, 6, 5, 4, 3, 2, 1]);
    assert_eq!(pre[40..], [0u8; 24]);
    for kind in KINDS {
        let h: [u8; 32] = match kind {
            HashKind::Sha256 => sha2::Sha256::digest(&pre[..40]).into(),
            HashKind::Blake3 => *blake3::hash(&pre).as_bytes(),
        };
        for bits in 0..12u32 {
            assert_eq!(
                pow_has_leading_zero_bits(&digest, 0x0102_0304_0506_0708, bits, kind),
                has_leading_zero_bits(&h, bits)
            );
        }
    }
}

#[test]
fn searches_agree_however_they_are_cut() {
    let digest = [0x21u8; 32];
    for kind in KINDS {
        let all = find_nonce(&digest, 9, kind);
        assert_eq!(all, pow_scan(&digest, 0, 1 << 16, 9, kind));
        assert_eq!(all, scan_block(&digest, 0, 16, 9, kind));
        let n = all.unwrap();
        assert_eq!(pow_scan(&digest, 0, n, 9, kind), None);
        assert_eq!(pow_scan(&digest, n, 1, 9, kind), Some(n));
        assert_eq!(pow_scan(&digest, u64::MAX - 1, 10, 0, kind), Some(u64::MAX - 1));
        assert_eq!(pow_scan(&digest, u64::MAX, 10, 0, kind), None);
    }
    assert_eq!(grind_tasks(1), 1);
    assert_eq!(grind_tasks(12), 1);
    assert_eq!(grind_tasks(13), 16);
    assert_eq!(grind_tasks(24), 32768);
    assert_eq!(grind_tasks(40), 32768);
}

#[test]
fn trying_to_grind_finds_what_grinding_finds() {
    for kind in KINDS {
        for bits in [0u32, 6] {
            let mut a = scripted(kind);
            let mut b = scripted(kind);
            assert_eq!(a.try_grind_pow(bits), Some(b.grind_pow(bits)));
            assert_eq!(a.sample_f128(), b.sample_f128());
        }
    }
}

#[test]
fn another_nonce_leaves_another_transcript() {
    for kind in KINDS {
        let mut a = scripted(kind);
        let mut b = scripted(kind);
        a.verify_pow(0, 0);
        assert!(!b.verify_pow(1, 0));
        assert_ne!(a.sample_f128(), b.sample_f128());
    }
}

#[test]
fn splitmix_has_its_published_values() {
    let mut s = 0u64;
    assert_eq!(splitmix64(&mut s), 0xE220A8397B1DCDAF);
    assert_eq!(splitmix64(&mut s), 0x6E789E6AA1B965F4);
    let mut c = RandomChallenger::new(0);
    assert_eq!(
        c.sample_f128(),
        F128 {
            lo: 0xE220A8397B1DCDAF,
            hi: 0x6E789E6AA1B965F4
        }
    );
}

#[test]
fn counters_count_and_reset() {
    let mut c = FsCount::new();
    c.note_squeeze();
    c.note_squeeze();
    c.note_pow(40);
    assert_eq!(snapshot(&c), (2, 40));
    c.gather(FsCount { squeezes: u64::MAX, pow_sha256: 2 });
    assert_eq!(snapshot(&c), (1, 42));
    reset(&mut c);
    assert_eq!(snapshot(&c), (0, 0));
}

#[test]
fn a_transcript_counts_its_squeezes_and_hashes() {
    for kind in KINDS {
        let mut ch = FsChallenger::with_hash(b"count", kind);
        ch.observe_label(b"a");
        ch.observe_bytes(b"b");
        ch.observe_f128_slice(&[F128::one(); 3]);
        assert_eq!(snapshot(&ch.take_count()), (0, 0));
        ch.sample_f128();
        ch.sample_f128_vec(40);
        ch.state_digest();
        assert_eq!(snapshot(&ch.take_count()), (3, 0));
        assert_eq!(snapshot(&ch.clone().take_count()), (0, 0));
        let mut twin = ch.clone();
        for bits in [0u32, 5, 14] {
            let nonce = ch.grind_pow(bits);
            let tried = match (bits, kind) {
                (0, _) => 0,
                (_, HashKind::Sha256) => nonce + 1,
                (_, HashKind::Blake3) => (nonce / 32 + 1) * 32,
            };
            assert_eq!(snapshot(&ch.take_count()), (1, tried));
            assert!(twin.verify_pow(nonce, bits));
            assert_eq!(snapshot(&twin.take_count()), (1, u64::from(bits > 0)));
        }
        let nonce = ch.try_grind_pow(6);
        assert_eq!(nonce, Some(twin.grind_pow(6)));
        assert_eq!(ch.take_count(), twin.take_count());
        assert_eq!(ch.sample_f128(), twin.sample_f128());
    }
    assert_eq!(count_hashes_up_to(HashKind::Sha256, 0), 1);
    assert_eq!(count_hashes_up_to(HashKind::Blake3, 31), 32);
    assert_eq!(count_hashes_up_to(HashKind::Blake3, 32), 64);
    assert_eq!(count_hashes_up_to(HashKind::Blake3, u64::MAX - 1), u64::MAX);
}

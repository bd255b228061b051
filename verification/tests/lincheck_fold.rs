use flock_core::bits::transpose_8_f128s_to_128_bytes;
use flock_core::block_major::{
    fold_block_major_chunk_neon_x2, fold_block_major_chunk_x86_avx512, FoldOptions, OuterWeights,
    BLOCK_MAJOR_FACTORED_EQ_LO_LOG, BLOCK_MAJOR_FACTORED_EQ_N_LOG,
};
use flock_core::dispatch::{
    fold_block_major_one_shot, fold_block_major_one_shot_bind_top, partial_fold_packed_z_best,
    partial_fold_packed_z_block_major, partial_fold_packed_z_block_major_factorized_padded,
    partial_fold_packed_z_block_major_factorized_padded_with_top_bind,
    partial_fold_packed_z_block_major_padded, partial_fold_packed_z_block_major_padded_with_tables,
    partial_fold_packed_z_x86_gfni_padded, FoldArch,
};
use flock_core::eq::build_eq_table;
use flock_core::f128_slice::mix;
use flock_core::field::F128;
use flock_core::fold::task_len;
use flock_core::gather::{
    gather_transpose_group4, gather_transpose_stripe, gather_transpose_tile,
    gather_transpose_vpermt2b_indices, lincheck_gt_fuse_disabled_value,
};
use flock_core::last_rho::{
    kick_last_rho_z_fold, prepare_last_rho_z_fold, take_last_rho_job, wait_last_rho_z_fold,
    LastRhoZFoldGuard,
};
use flock_core::stripe::{
    n_log_ok_for_tile, pack_z_lincheck, pack_z_lincheck_from_packed, partial_fold_packed_z,
    partial_fold_packed_z_fast, partial_fold_packed_z_fast_padded,
    partial_fold_packed_z_neon_iblock_padded, partial_fold_packed_z_neon_oblock_padded,
    partial_fold_packed_z_neon_single, partial_fold_packed_z_neon_single_padded,
    partial_fold_packed_z_x86_tiled_padded, workers_for, workers_on,
};
use flock_core::sumcheck::{sumcheck_chunk, sumcheck_chunk_on};
use flock_core::tables::{build_nibble_tables, build_sum_table, fold_mats_from_basis};

struct Rng(u64);
impl Rng {
    fn new(seed: u64) -> Self {
        Self(seed)
    }
    fn next_u64(&mut self) -> u64 {
        self.0 = self.0.wrapping_add(0x9E3779B97F4A7C15);
        let mut z = self.0;
        z = (z ^ (z >> 30)).wrapping_mul(0xBF58476D1CE4E5B9);
        z = (z ^ (z >> 27)).wrapping_mul(0x94D049BB133111EB);
        z ^ (z >> 31)
    }
    fn f128(&mut self) -> F128 {
        F128 {
            lo: self.next_u64(),
            hi: self.next_u64(),
        }
    }
    fn f128_vec(&mut self, n: usize) -> Vec<F128> {
        (0..n).map(|_| self.f128()).collect()
    }
    fn bits(&mut self, n: usize) -> Vec<bool> {
        (0..n).map(|_| self.next_u64() & 1 == 1).collect()
    }
}

fn mle_eval_bool(f: &[bool], point: &[F128]) -> F128 {
    let d = point.len();
    assert_eq!(f.len(), 1 << d);
    let eq = build_eq_table(point);
    let mut acc = F128::zero();
    for (i, &b) in f.iter().enumerate() {
        if b {
            acc = acc + eq[i];
        }
    }
    acc
}

#[test]
fn eq_table_matches_direct_formula() {
    for &d in &[1usize, 2, 3, 5, 8] {
        let mut rng = Rng::new(11 + d as u64);
        let point = rng.f128_vec(d);
        let table = build_eq_table(&point);
        assert_eq!(table.len(), 1 << d);
        for i in 0..(1 << d) {
            let mut expected = F128::one();
            for j in 0..d {
                let bit = ((i >> j) & 1) as u64;
                let factor = if bit == 0 {
                    F128::one() + point[j]
                } else {
                    point[j]
                };
                expected = expected * factor;
            }
            assert_eq!(table[i], expected, "mismatch at d={d}, i={i}");
        }
    }
}

#[test]
fn partial_fold_matches_direct() {
    for &(m, k_log) in &[(10usize, 3), (12, 4), (14, 5), (16, 8)] {
        let mut rng = Rng::new(33 + m as u64);
        let z = rng.bits(1 << m);
        let z_packed = pack_z_lincheck(&z, m, k_log);
        let n_log = m - k_log;
        let outer_point = rng.f128_vec(n_log);
        let eq_outer = build_eq_table(&outer_point);

        let got = partial_fold_packed_z(&z_packed, m, k_log, &eq_outer);

        let k = 1usize << k_log;
        assert_eq!(got.len(), k);
        for i_inner in 0..k {
            let mut acc = F128::zero();
            for i_outer in 0..(1usize << n_log) {
                let i = i_inner + i_outer * k;
                if z[i] {
                    acc = acc + eq_outer[i_outer];
                }
            }
            assert_eq!(got[i_inner], acc, "mismatch at m={m}, i_inner={i_inner}");
        }
    }
}

#[test]
fn partial_fold_fast_matches_serial() {
    for &(m, k_log) in &[(10usize, 3), (12, 4), (14, 5), (16, 8), (18, 10)] {
        let mut rng = Rng::new(800 + m as u64);
        let z = rng.bits(1 << m);
        let z_packed = pack_z_lincheck(&z, m, k_log);
        let n_log = m - k_log;
        let p = rng.f128_vec(n_log);
        let eq = build_eq_table(&p);

        let serial = partial_fold_packed_z(&z_packed, m, k_log, &eq);
        let fast = partial_fold_packed_z_fast(&z_packed, m, k_log, &eq);
        assert_eq!(serial, fast, "at m={m}, k_log={k_log}");
    }
}

#[test]
fn block_major_nibble_kernel_matches_scalar_tables() {
    let mut rng = Rng::new(0x51B_B1E5);
    for chunk_bits in (1..=128).chain([8, 16, 120, 121, 127, 128]) {
        let eq8s: Vec<[F128; 8]> = (0..8)
            .map(|_| std::array::from_fn(|_| rng.f128()))
            .collect();
        let mut tables = vec![F128::zero(); 8 * 256];
        let mut nib = vec![[0u64; 64]; 8];
        for t in 0..8 {
            build_sum_table(&eq8s[t], &mut tables, t * 256);
            build_nibble_tables(&eq8s[t], &mut nib[t]);
        }
        let transposed: Vec<u8> = (0..8 * 128)
            .map(|_| (rng.f128().lo & 0xFF) as u8)
            .collect();
        let base: Vec<F128> = (0..chunk_bits).map(|_| rng.f128()).collect();
        let mut want = base.clone();
        for b in 0..chunk_bits {
            let mut acc = want[b];
            for t in 0..8 {
                acc = acc + tables[t * 256 + transposed[t * 128 + b] as usize];
            }
            want[b] = acc;
        }
        let mut got = base.clone();
        got.push(F128 {
            lo: 0xDEAD_BEEF,
            hi: 0xFEED_FACE,
        });
        fold_block_major_chunk_x86_avx512(&transposed, &nib, &mut got, 0, chunk_bits);
        assert_eq!(
            got.pop(),
            Some(F128 {
                lo: 0xDEAD_BEEF,
                hi: 0xFEED_FACE
            })
        );
        assert_eq!(got, want, "chunk_bits={chunk_bits}");
    }
}

#[test]
fn partial_fold_block_major_matches_stripe() {
    let cases: &[(usize, usize, usize)] = &[
        (10, 7, 1 << 7),
        (13, 8, 233),
        (16, 10, 997),
        (16, 8, 241),
        (18, 12, 3_801),
        (20, 14, 15_409),
    ];
    for &(m, k_log, useful_bits) in cases {
        let mut rng = Rng::new(0xD1EC_7F01 + (m * 31 + k_log) as u64);
        let k = 1usize << k_log;
        let n_outer = 1usize << (m - k_log);
        let mut z = rng.bits(1usize << m);
        for outer in 0..n_outer {
            z[outer * k + useful_bits..(outer + 1) * k].fill(false);
        }

        let z_block_major: Vec<F128> = z
            .chunks_exact(128)
            .map(|bits| {
                let mut packed = F128::zero();
                for (b, &set) in bits.iter().enumerate() {
                    if set {
                        if b < 64 {
                            packed.lo |= 1u64 << b;
                        } else {
                            packed.hi |= 1u64 << (b - 64);
                        }
                    }
                }
                packed
            })
            .collect();
        let z_stripe = pack_z_lincheck(&z, m, k_log);
        let eq_outer = build_eq_table(&rng.f128_vec(m - k_log));

        let want = partial_fold_packed_z_best(
            &z_stripe,
            m,
            k_log,
            useful_bits,
            &eq_outer,
            FoldArch::X86 { gfni: true },
        );
        let got = partial_fold_packed_z_block_major_padded(
            &z_block_major,
            m,
            k_log,
            useful_bits,
            &eq_outer,
        );
        assert_eq!(want, got, "m={m} k_log={k_log} useful={useful_bits}");
        // Every kernel selection gives the same vector.
        for opts in [
            FoldOptions {
                gfni: true,
                nibble: false,
                dynamic: true,
                fuse: true,
            },
            FoldOptions {
                gfni: true,
                nibble: false,
                dynamic: false,
                fuse: false,
            },
            FoldOptions {
                gfni: false,
                nibble: true,
                dynamic: false,
                fuse: true,
            },
            FoldOptions::portable(),
        ] {
            let got_on = partial_fold_packed_z_block_major_padded_with_tables(
                &z_block_major,
                m,
                k_log,
                useful_bits,
                &OuterWeights::Full(&eq_outer),
                None,
                opts,
            );
            assert_eq!(
                want, got_on,
                "other arm m={m} k_log={k_log} useful={useful_bits}"
            );
        }
    }
}

const OUT_STRIDE: usize = 160;
const POISON: u8 = 0xD3;

fn permute2(a: &[u8; 64], indices: &[u8; 64], b: &[u8; 64]) -> [u8; 64] {
    std::array::from_fn(|i| {
        let index = indices[i];
        let table = if index & 0x40 == 0 { a } else { b };
        table[(index & 0x3f) as usize]
    })
}

fn direct(a: &[u8; 64], b: &[u8; 64], high: bool) -> [u8; 64] {
    std::array::from_fn(|i| {
        let row = 7 - i % 8;
        let offset = 16 * (row % 4) + usize::from(high) * 8 + i / 8;
        if row < 4 { a[offset] } else { b[offset] }
    })
}

#[test]
fn gather_transpose_vpermt2b_selector_oracle() {


    let lo = gather_transpose_vpermt2b_indices(false);
    let hi = gather_transpose_vpermt2b_indices(true);
    assert_eq!(lo[3], 64, "first byte selected from the second table");
    assert_eq!(hi[56], 127, "largest legal 512-bit VPERMT2B index");
    for (high, indices) in [(false, &lo), (true, &hi)] {
        assert!(indices.iter().all(|&index| index & 0x80 == 0));
        assert_eq!(
            indices.iter().filter(|&&index| index & 0x40 != 0).count(),
            32
        );
        for (i, &index) in indices.iter().enumerate() {
            let row = 7 - i % 8;
            let want_table = if row < 4 { 0 } else { 0x40 };
            let want_offset = 16 * (row % 4) + usize::from(high) * 8 + i / 8;
            assert_eq!(index & 0x40, want_table, "half={high} i={i} row={row}");
            assert_eq!(
                index & 0x3f,
                want_offset as u8,
                "half={high} i={i} row={row}"
            );
        }
    }
    let a_poison = [0xA5; 64];
    let b_poison = [0x5A; 64];
    for (high, indices) in [(false, &lo), (true, &hi)] {
        let want = direct(&a_poison, &b_poison, high);
        assert_eq!(permute2(&a_poison, indices, &b_poison), want);
        let mut broken = *indices;
        for (i, index) in broken.iter_mut().enumerate() {
            if 7 - i % 8 >= 4 {
                *index += 64;
            }
        }
        assert_ne!(permute2(&a_poison, &broken, &b_poison), want);
    }

    let mut rng = Rng::new(0x5650_4552_4D54_3242);
    for _ in 0..64 {
        let a: [u8; 64] = std::array::from_fn(|_| rng.next_u64() as u8);
        let b: [u8; 64] = std::array::from_fn(|_| rng.next_u64() as u8);
        assert_eq!(permute2(&a, &lo, &b), direct(&a, &b, false));
        assert_eq!(permute2(&a, &hi, &b), direct(&a, &b, true));
    }
    let a4: [[u8; 64]; 4] =
        std::array::from_fn(|_| std::array::from_fn(|_| rng.next_u64() as u8));
    let b4: [[u8; 64]; 4] =
        std::array::from_fn(|_| std::array::from_fn(|_| rng.next_u64() as u8));
    let mut got = [POISON; 4 * OUT_STRIDE];
    let mut want = [POISON; 4 * OUT_STRIDE];
    for column in 0..4 {
        let base = column * OUT_STRIDE;
        got[base..base + 64].copy_from_slice(&permute2(&a4[column], &lo, &b4[column]));
        got[base + 64..base + 128].copy_from_slice(&permute2(&a4[column], &hi, &b4[column]));
        want[base..base + 64].copy_from_slice(&direct(&a4[column], &b4[column], false));
        want[base + 64..base + 128].copy_from_slice(&direct(&a4[column], &b4[column], true));
    }
    assert_eq!(got, want);
    for column in 0..4 {
        let gap = &got[column * OUT_STRIDE + 128..(column + 1) * OUT_STRIDE];
        assert!(gap.iter().all(|&byte| byte == POISON));
    }
}

#[test]
fn lincheck_gt_fuse_kill_switch_parser() {
    assert!(lincheck_gt_fuse_disabled_value(Some(b"1")));
    for value in [
        None,
        Some(b"".as_slice()),
        Some(b"0".as_slice()),
        Some(b"01".as_slice()),
        Some(b"true".as_slice()),
    ] {
        assert!(!lincheck_gt_fuse_disabled_value(value));
    }
}

#[test]
fn gather_transpose_stripe_matches_scalar() {
    let mut rng = Rng::new(0x6A77_37B1);
    for stride in [1usize, 2, 17, 128] {
        let z: Vec<F128> = (0..8 * stride).map(|_| rng.f128()).collect();
        let mut want = [0u8; 128];
        let lanes: [F128; 8] = std::array::from_fn(|r| z[r * stride]);
        transpose_8_f128s_to_128_bytes(&lanes, &mut want, 0);
        for fuse in [false, true] {
            let mut got = [0xA5u8; 128];
            gather_transpose_stripe(&z, stride, 0, 0, fuse, &mut got, 0);
            assert_eq!(want, got, "stride {stride} fuse={fuse}");
        }
    }
    for stride in [4usize, 17, 128] {
        let z: Vec<F128> = (0..8 * stride + 4).map(|_| rng.f128()).collect();
        for q in [0usize, stride.saturating_sub(4).min(3)] {
            let mut want = [0u8; 4 * 1024];
            for c in 0..4 {
                let lanes: [F128; 8] = std::array::from_fn(|r| z[r * stride + q + c]);
                transpose_8_f128s_to_128_bytes(&lanes, &mut want, c * 1024);
            }
            for fuse in [false, true] {
                let mut got = [0x5Au8; 4 * 1024];
                for c in 0..4 {
                    gather_transpose_stripe(&z, stride, 0, q + c, fuse, &mut got, c * 1024);
                }
                for c in 0..4 {
                    assert_eq!(
                        want[c * 1024..c * 1024 + 128],
                        got[c * 1024..c * 1024 + 128],
                        "stride {stride} q {q} col {c} fuse={fuse}"
                    );
                    assert!(got[c * 1024 + 128..(c + 1) * 1024]
                        .iter()
                        .all(|&byte| byte == 0x5A));
                }
            }
        }
    }
}

#[test]
fn fold_mats_from_basis_matches_sum_table() {
    let mut rng = Rng::new(0xFA57_3AB1);
    for _ in 0..8 {
        let eq8: [F128; 8] = std::array::from_fn(|_| rng.f128());
        let mut mats = [0u64; 16];
        fold_mats_from_basis(&eq8, &mut mats, 0);
        let mut table = vec![F128::zero(); 256];
        build_sum_table(&eq8, &mut table, 0);
        for v in 0..256usize {
            let mut lo = 0u64;
            let mut hi = 0u64;
            for (byte_k, &m) in mats.iter().enumerate() {
                let mut out_byte = 0u8;
                for i in 0..8 {
                    let row = ((m >> (8 * (7 - i))) & 0xff) as u8;
                    let parity = ((row & v as u8).count_ones() & 1) as u8;
                    out_byte |= parity << i;
                }
                if byte_k < 8 {
                    lo |= (out_byte as u64) << (8 * byte_k);
                } else {
                    hi |= (out_byte as u64) << (8 * (byte_k - 8));
                }
            }
            assert_eq!(
                F128 { lo, hi },
                table[v],
                "affine(mats, {v}) must equal table[{v}]"
            );
        }
    }
}

#[test]
fn partial_fold_block_major_factorized_matches_materialized() {
    let cases: &[(usize, usize, usize, usize)] = &[
        (10, 7, 1, 1),
        (13, 7, 127, 2),
        (16, 8, 233, 4),
        (18, 10, 997, 4),
        (25, 7, 121, 9),
    ];

    for &(m, k_log, useful_bits, lo_log) in cases {
        let mut rng =
            Rng::new(0xFAC7_0E00 + (m * 31 + k_log * 7 + useful_bits + lo_log) as u64);
        let n_log = m - k_log;
        let n_outer = 1usize << n_log;
        let chunks_per_block = (1usize << k_log) / 128;
        let z_block_major = rng.f128_vec(n_outer * chunks_per_block);
        let point = rng.f128_vec(n_log);

        let eq_outer = build_eq_table(&point);
        let (point_lo, point_hi) = point.split_at(lo_log);
        let eq_lo = build_eq_table(point_lo);
        let eq_hi = build_eq_table(point_hi);
        let lo_mask = eq_lo.len() - 1;
        for (outer, &dense) in eq_outer.iter().enumerate() {
            assert_eq!(
                dense,
                eq_lo[outer & lo_mask] * eq_hi[outer >> lo_log],
                "factor mismatch at m={m}, outer={outer}",
            );
        }

        let want = partial_fold_packed_z_block_major_padded(
            &z_block_major,
            m,
            k_log,
            useful_bits,
            &eq_outer,
        );
        let got = partial_fold_packed_z_block_major_factorized_padded(
            &z_block_major,
            m,
            k_log,
            useful_bits,
            &eq_lo,
            &eq_hi,
        );
        assert_eq!(
            want, got,
            "m={m} k_log={k_log} useful={useful_bits} lo_log={lo_log}",
        );
    }
}

#[test]
fn last_rho_kick_then_wait_matches_oneshot_fold() {
    let cases: &[(usize, usize, usize)] = &[
        (16, 8, 241),
        (18, 10, 997),
        (25, 7, 121), // n_log=18 factorized dispatch
    ];
    for &(m, k_log, useful_bits) in cases {
        let mut rng = Rng::new(0x1A57_0D00 + (m * 31 + k_log * 7 + useful_bits) as u64);
        let n_log = m - k_log;
        let n_outer = 1usize << n_log;
        let chunks_per_block = (1usize << k_log) / 128;
        let z_block_major = rng.f128_vec(n_outer * chunks_per_block);
        let z_before = z_block_major.clone();
        let inner_rest_len = k_log - 6;
        let x_inner_rest = rng.f128_vec(inner_rest_len);
        let x_outer = rng.f128_vec(n_log);
        let mut mlv = x_inner_rest;
        mlv.extend_from_slice(&x_outer);

        let want = if n_log == BLOCK_MAJOR_FACTORED_EQ_N_LOG {
            let (outer_lo, outer_hi) = x_outer.split_at(BLOCK_MAJOR_FACTORED_EQ_LO_LOG);
            partial_fold_packed_z_block_major_factorized_padded(
                &z_block_major,
                m,
                k_log,
                useful_bits,
                &build_eq_table(outer_lo),
                &build_eq_table(outer_hi),
            )
        } else {
            partial_fold_packed_z_block_major_padded(
                &z_block_major,
                m,
                k_log,
                useful_bits,
                &build_eq_table(&x_outer),
            )
        };

        let mut guard =
            prepare_last_rho_z_fold(&z_block_major, m, k_log, useful_bits, inner_rest_len);
        kick_last_rho_z_fold(&mut guard, &mlv);
        let got = wait_last_rho_z_fold(&mut guard).expect("kick at complete mlv must run");
        assert_eq!(
            want, got,
            "m={m} k_log={k_log} useful={useful_bits} early fold differs"
        );
        assert_eq!(
            z_block_major, z_before,
            "m={m} kick must not mutate z"
        );
        kick_last_rho_z_fold(&mut guard, &mlv);
        assert!(
            wait_last_rho_z_fold(&mut guard).is_none(),
            "kick after wait must be a no-op"
        );
    }
}

#[test]
fn last_rho_kick_incomplete_mlv_is_noop() {
    let (m, k_log, useful_bits) = (16usize, 8usize, 241usize);
    let mut rng = Rng::new(0xBAD2_2700);
    let n_log = m - k_log;
    let n_outer = 1usize << n_log;
    let chunks_per_block = (1usize << k_log) / 128;
    let z_block_major = rng.f128_vec(n_outer * chunks_per_block);
    let z_before = z_block_major.clone();
    let inner_rest_len = k_log - 6;
    let short_mlv = rng.f128_vec(inner_rest_len + n_log - 1);

    let mut guard = prepare_last_rho_z_fold(&z_block_major, m, k_log, useful_bits, inner_rest_len);
    kick_last_rho_z_fold(&mut guard, &short_mlv);
    assert!(
        wait_last_rho_z_fold(&mut guard).is_none(),
        "incomplete mlv must not start the leftover fold"
    );
    assert_eq!(z_block_major, z_before, "no-op kick must not mutate z");
}

#[test]
fn partial_fold_dispatch_handles_small_k() {
    let (m, k_log) = (8usize, 2usize);
    let mut rng = Rng::new(1234);
    let z = rng.bits(1 << m);
    let z_packed = pack_z_lincheck(&z, m, k_log);
    let eq = build_eq_table(&rng.f128_vec(m - k_log));

    let serial = partial_fold_packed_z(&z_packed, m, k_log, &eq);
    for arch in [
        FoldArch::X86 { gfni: true },
        FoldArch::Aarch64 {
            force_iblock: false,
        },
        FoldArch::Portable,
    ] {
        let best = partial_fold_packed_z_best(&z_packed, m, k_log, 1 << k_log, &eq, arch);
        assert_eq!(serial, best);
    }
}

#[test]
fn partial_fold_neon_single_matches_serial() {
    for &(m, k_log) in &[(14usize, 4), (14, 5), (16, 5), (16, 8), (18, 10)] {
        if !n_log_ok_for_tile(m, k_log, 8) {
            continue;
        }
        let mut rng = Rng::new(7000 + m as u64);
        let z = rng.bits(1 << m);
        let z_packed = pack_z_lincheck(&z, m, k_log);
        let n_log = m - k_log;
        let p = rng.f128_vec(n_log);
        let eq = build_eq_table(&p);

        let serial = partial_fold_packed_z(&z_packed, m, k_log, &eq);
        let neon = partial_fold_packed_z_neon_single(&z_packed, m, k_log, &eq);
        assert_eq!(serial, neon, "at m={m}, k_log={k_log}");
        let iblock =
            partial_fold_packed_z_neon_iblock_padded(&z_packed, m, k_log, 1usize << k_log, &eq);
        assert_eq!(serial, iblock, "iblock at m={m}, k_log={k_log}");
    }
}

#[test]
fn partial_fold_oblock_matches_iblock() {
    let cases: &[(usize, usize, usize)] = &[
        (14, 4, 1 << 4),   // dense, small k
        (16, 8, 1 << 8),   // dense
        (18, 10, 1 << 10), // dense
        (20, 10, 597),     // padded, non-byte-aligned
        (22, 14, 15_409),  // padded, non-byte-aligned (k=16384)
    ];
    for &(m, k_log, useful_bits) in cases {
        assert!(
            n_log_ok_for_tile(m, k_log, 8),
            "case must be tile-eligible"
        );
        let k = 1usize << k_log;
        let n_log = m - k_log;
        let n_blocks = 1usize << n_log;
        let mut rng = Rng::new(7200 + (m * 31 + k_log) as u64);
        let mut z = rng.bits(1 << m);
        for blk in 0..n_blocks {
            for j in useful_bits..k {
                z[blk * k + j] = false;
            }
        }
        let z_packed = pack_z_lincheck(&z, m, k_log);
        let eq = build_eq_table(&rng.f128_vec(n_log));
        let want =
            partial_fold_packed_z_neon_iblock_padded(&z_packed, m, k_log, useful_bits, &eq);
        let got =
            partial_fold_packed_z_neon_oblock_padded(&z_packed, m, k_log, useful_bits, &eq);
        assert_eq!(want, got, "m={m} k_log={k_log} useful={useful_bits}");
    }
}

#[test]
fn partial_fold_x86_gfni_matches_tiled() {
    for &(m, k_log, useful_bits) in &[
        (16usize, 8usize, 256usize),
        (18, 10, 1000),
        (20, 14, 15_409),
    ] {
        if !n_log_ok_for_tile(m, k_log, 8) {
            continue;
        }
        let mut rng = Rng::new(9200 + m as u64);
        let block_size = 1usize << k_log;
        let mut z = rng.bits(1 << m);
        for blk in 0..(1usize << (m - k_log)) {
            for j in useful_bits..block_size {
                z[blk * block_size + j] = false;
            }
        }
        let z_packed = pack_z_lincheck(&z, m, k_log);
        let p = rng.f128_vec(m - k_log);
        let eq = build_eq_table(&p);
        let tiled =
            partial_fold_packed_z_x86_tiled_padded(&z_packed, m, k_log, useful_bits, &eq);
        let gfni = partial_fold_packed_z_x86_gfni_padded(
            &z_packed,
            m,
            k_log,
            useful_bits,
            &eq,
        );
        assert_eq!(tiled, gfni, "at m={m}, k_log={k_log}, useful={useful_bits}");
    }
}

#[test]
fn partial_fold_x86_tiled_matches_serial() {
    for &(m, k_log) in &[(14usize, 4), (14, 5), (16, 5), (16, 8), (18, 10)] {
        if !n_log_ok_for_tile(m, k_log, 8) {
            continue;
        }
        let mut rng = Rng::new(7100 + m as u64);
        let z = rng.bits(1 << m);
        let z_packed = pack_z_lincheck(&z, m, k_log);
        let n_log = m - k_log;
        let p = rng.f128_vec(n_log);
        let eq = build_eq_table(&p);
        let k = 1usize << k_log;
        let serial = partial_fold_packed_z(&z_packed, m, k_log, &eq);
        let tiled = partial_fold_packed_z_x86_tiled_padded(&z_packed, m, k_log, k, &eq);
        assert_eq!(serial, tiled, "at m={m}, k_log={k_log}");
    }
}

#[test]
fn partial_fold_padded_matches_dense() {
    let cases: &[(usize, usize, usize)] = &[
        (17, 14, 15_409),
        (18, 15, 31_401),
        (19, 16, 42_560),
    ];
    for &(m, k_log, useful_bits) in cases {
        let mut rng = Rng::new(0xBADD_BEEF_u64.wrapping_add((k_log * 31 + m) as u64));
        let total_bits = 1usize << m;
        let n_log = m - k_log;
        let block_size = 1usize << k_log;
        let n_blocks = 1usize << n_log;
        let mut z = rng.bits(total_bits);
        for blk in 0..n_blocks {
            for j in useful_bits..block_size {
                z[blk * block_size + j] = false;
            }
        }
        let z_packed = pack_z_lincheck(&z, m, k_log);
        let outer_point = rng.f128_vec(n_log);
        let eq_outer = build_eq_table(&outer_point);

        let dense_fast = partial_fold_packed_z_fast(&z_packed, m, k_log, &eq_outer);
        let padded_fast =
            partial_fold_packed_z_fast_padded(&z_packed, m, k_log, useful_bits, &eq_outer);
        assert_eq!(
            dense_fast, padded_fast,
            "fast: m={m}, k_log={k_log}, useful={useful_bits}"
        );
        if n_log_ok_for_tile(m, k_log, 8) {
            let dense_neon = partial_fold_packed_z_neon_single(&z_packed, m, k_log, &eq_outer);
            let padded_neon = partial_fold_packed_z_neon_single_padded(
                &z_packed,
                m,
                k_log,
                useful_bits,
                &eq_outer,
            );
            assert_eq!(
                dense_neon, padded_neon,
                "neon: m={m}, k_log={k_log}, useful={useful_bits}"
            );
            let dense_iblock = partial_fold_packed_z_neon_iblock_padded(
                &z_packed,
                m,
                k_log,
                1usize << k_log,
                &eq_outer,
            );
            let padded_iblock = partial_fold_packed_z_neon_iblock_padded(
                &z_packed,
                m,
                k_log,
                useful_bits,
                &eq_outer,
            );
            assert_eq!(
                dense_neon, dense_iblock,
                "iblock dense: m={m}, k_log={k_log}, useful={useful_bits}"
            );
            assert_eq!(
                dense_neon, padded_iblock,
                "iblock padded: m={m}, k_log={k_log}, useful={useful_bits}"
            );
        }
    }
}

#[test]
fn partial_fold_is_mle_at_outer_point() {
    let m = 14;
    let k_log = 5;
    let k = 1 << k_log;
    let mut rng = Rng::new(44);
    let z = rng.bits(1 << m);
    let z_packed = pack_z_lincheck(&z, m, k_log);
    let x_outer = rng.f128_vec(m - k_log);
    let eq_outer = build_eq_table(&x_outer);

    let z_partial = partial_fold_packed_z(&z_packed, m, k_log, &eq_outer);
    for i_inner in 0..k {
        let mut point = Vec::with_capacity(m);
        for j in 0..k_log {
            point.push(if (i_inner >> j) & 1 == 1 {
                F128::one()
            } else {
                F128::zero()
            });
        }
        point.extend_from_slice(&x_outer);
        let z_eval = mle_eval_bool(&z, &point);
        assert_eq!(z_partial[i_inner], z_eval, "i_inner={i_inner}");
    }
}

/// Sixteen columns of one tile, straight from the tables.
fn sixteen_columns(tr: &[u8], tables: &[F128], accs: &[F128], b0: usize) -> Vec<F128> {
    (0..16)
        .map(|i| {
            let mut acc = accs[i];
            for t in 0..8 {
                acc = acc + tables[t * 256 + tr[t * 128 + b0 + i] as usize];
            }
            acc
        })
        .collect()
}

#[test]
fn bpair_x2_q_leaf_matches_legacy() {
    let mut rng = Rng::new(0x1EAF_0001);
    for round in 0..32 {
        let transposed: Vec<u8> = (0..8 * 128).map(|_| rng.next_u64() as u8).collect();
        let tables: Vec<F128> = (0..8 * 256).map(|_| rng.f128()).collect();
        let accs: Vec<F128> = (0..16).map(|_| rng.f128()).collect();
        let b0 = (round % 8) * 16;
        let want = sixteen_columns(&transposed, &tables, &accs, b0);
        // The same pair, moved to the front of its row.
        let mut shifted = vec![0u8; 8 * 128];
        for t in 0..8 {
            for i in 0..16 {
                shifted[t * 128 + i] = transposed[t * 128 + b0 + i];
            }
        }
        let mut qform = accs.clone();
        assert_eq!(
            fold_block_major_chunk_neon_x2(&shifted, &tables, &mut qform, 0, 16),
            16
        );
        assert_eq!(want, qform, "round={round} b0={b0}");
    }
}

#[test]
fn gather_transpose_tile_matches_scalar() {
    let mut rng = Rng::new(0x72A5_0002);
    for &stride in &[1usize, 2, 7, 128] {
        let src: Vec<F128> = (0..64 * stride).map(|_| rng.f128()).collect();
        for fuse in [false, true] {
            let mut got = [0u8; 8 * 128];
            gather_transpose_tile(&src, stride, 8, 0, 8, 0, fuse, &mut got, 0);
            for t in 0..8 {
                for b in 0..128 {
                    let mut want = 0u8;
                    for r in 0..8 {
                        let lane = src[(8 * t + r) * stride];
                        let bit = if b < 64 {
                            (lane.lo >> b) & 1
                        } else {
                            (lane.hi >> (b - 64)) & 1
                        };
                        want |= (bit as u8) << r;
                    }
                    assert_eq!(got[t * 128 + b], want, "stride={stride} t={t} b={b}");
                }
            }
        }
    }
}

#[test]
fn four_columns_are_gathered_as_one_each() {
    let mut rng = Rng::new(0x4444);
    let src: Vec<F128> = (0..128 * 5).map(|_| rng.f128()).collect();
    for fuse in [false, true] {
        let mut got = [0x11u8; 4096];
        gather_transpose_group4(&src, 5, 16, 3, 1, fuse, &mut got);
        for c in 0..4 {
            let mut want = [0u8; 1024];
            gather_transpose_tile(&src, 5, 16, 3, 8, 1 + c, !fuse, &mut want, 0);
            assert_eq!(got[1024 * c..1024 * c + 1024], want);
        }
    }
}

#[test]
fn partial_tiles_are_left_to_the_caller() {
    let tables = vec![F128::one(); 8 * 256];
    let tr = vec![0u8; 8 * 128];
    for bits in [0usize, 7, 8, 23, 128] {
        let mut acc = vec![F128::zero(); bits];
        let done = fold_block_major_chunk_neon_x2(&tr, &tables, &mut acc, 0, bits);
        assert_eq!(done, bits / 8 * 8);
        // Eight ones cancel.
        assert!(acc.iter().all(|&v| v == F128::zero()));
    }
}

#[test]
fn both_layouts_hold_the_same_bits() {
    let mut rng = Rng::new(0x9177);
    let (m, k_log) = (13usize, 8usize);
    let words = rng.f128_vec((1 << m) / 128);
    let logical: Vec<bool> = (0..1 << m)
        .map(|i| {
            let w: F128 = words[i / 128];
            let b = i % 128;
            if b < 64 {
                (w.lo >> b) & 1 == 1
            } else {
                (w.hi >> (b - 64)) & 1 == 1
            }
        })
        .collect();
    let stripes = pack_z_lincheck(&logical, m, k_log);
    assert_eq!(stripes, pack_z_lincheck_from_packed(&words, m, k_log));
    let point = rng.f128_vec(m - k_log);
    let eq = build_eq_table(&point);
    let want = partial_fold_packed_z(&stripes, m, k_log, &eq);
    assert_eq!(want, partial_fold_packed_z_block_major(&words, m, k_log, &eq));
    assert_eq!(
        want,
        fold_block_major_one_shot(&words, m, k_log, 1 << k_log, &point)
    );
}

#[test]
fn binding_the_top_variable_is_a_mix_of_the_halves() {
    let mut rng = Rng::new(0xB17D);
    let (m, k_log, useful) = (14usize, 9usize, 400usize);
    let words = rng.f128_vec((1 << m) / 128);
    let point = rng.f128_vec(m - k_log);
    let r = rng.f128();
    let full = fold_block_major_one_shot(&words, m, k_log, useful, &point);
    let half = full.len() / 2;
    let want: Vec<F128> = (0..half).map(|i| mix(full[i], full[i + half], r)).collect();
    assert_eq!(
        want,
        fold_block_major_one_shot_bind_top(&words, m, k_log, useful, &point, r)
    );
    let (lo, hi) = point.split_at(2);
    assert_eq!(
        want,
        partial_fold_packed_z_block_major_factorized_padded_with_top_bind(
            &words,
            m,
            k_log,
            useful,
            &build_eq_table(lo),
            &build_eq_table(hi),
            Some(r),
        )
    );
}

#[test]
fn tiles_apply_from_their_size_on() {
    assert!(!n_log_ok_for_tile(8, 2, 8));
    assert!(!n_log_ok_for_tile(8, 3, 8));
    assert!(n_log_ok_for_tile(9, 3, 8));
    assert!(!n_log_ok_for_tile(5, 3, 1));
    assert!(n_log_ok_for_tile(6, 3, 1));
    assert!(!n_log_ok_for_tile(12, 3, 6));
    assert!(!n_log_ok_for_tile(12, 3, 0));
}

#[test]
fn a_job_taken_early_gives_the_same_fold() {
    let mut rng = Rng::new(0x10B);
    let (m, k_log, useful) = (12usize, 8usize, 200usize);
    let words = rng.f128_vec((1 << m) / 128);
    let mlv = rng.f128_vec(2 + m - k_log);
    let mut guard = prepare_last_rho_z_fold(&words, m, k_log, useful, 2);
    assert!(take_last_rho_job(&mut guard, &mlv[1..]).is_none());
    let job = take_last_rho_job(&mut guard, &mlv).unwrap();
    assert!(take_last_rho_job(&mut guard, &mlv).is_none());
    let want = fold_block_major_one_shot(&words, m, k_log, useful, &mlv[2..]);
    assert_eq!(job.run(FoldOptions::portable()), want);
    let other = FoldOptions { gfni: true, nibble: true, dynamic: false, fuse: true };
    assert_eq!(job.run(other), want);
    job.hand_in(&mut guard, want.clone());
    kick_last_rho_z_fold(&mut guard, &mlv);
    assert_eq!(wait_last_rho_z_fold(&mut guard), Some(want));
    let mut none = LastRhoZFoldGuard::empty();
    kick_last_rho_z_fold(&mut none, &mlv);
    assert!(wait_last_rho_z_fold(&mut none).is_none());
}

#[test]
fn table_entries_are_subset_sums() {
    let eq8: Vec<F128> = (0..8u64).map(|i| F128 { lo: 1 << i, hi: i }).collect();
    let mut table = vec![F128::zero(); 256];
    build_sum_table(&eq8, &mut table, 0);
    assert_eq!(table[0], F128::zero());
    assert_eq!(table[0b101], F128 { lo: 5, hi: 2 });
    assert_eq!(table[255].lo, 255);
}

#[test]
fn equality_weights_sum_to_one() {
    let mut rng = Rng::new(0xE0);
    let table = build_eq_table(&rng.f128_vec(6));
    let mut sum = F128::zero();
    for w in table {
        sum = sum + w;
    }
    assert_eq!(sum, F128::one());
    assert_eq!(build_eq_table(&[]), vec![F128::one()]);
}

#[test]
fn work_is_cut_by_the_width_of_the_pool() {
    assert_eq!(task_len(16384, 16, 256), 256);
    assert_eq!(task_len(65537, 16, 256), 1025);
    assert_eq!(task_len(10_000, 0, 64), 2500);
    assert_eq!(task_len(5, 1000, 64), 64);
    assert_eq!(sumcheck_chunk_on(8192, 16), 512);
    assert_eq!(sumcheck_chunk_on(8193, 16), 513);
    assert_eq!(sumcheck_chunk_on(9, 16), 4);
    assert_eq!(sumcheck_chunk_on(100, 0), 100);
    assert!(sumcheck_chunk(100) >= 4 && sumcheck_chunk(100) <= 100);
    assert_eq!(workers_on(0, 8), 1);
    assert_eq!(workers_on(3, 8), 3);
    assert_eq!(workers_on(30, 8), 8);
    assert_eq!(workers_on(30, 0), 1);
    assert!((1..=30).contains(&workers_for(30)));
}

#[test]
fn any_values_can_be_prepared_and_never_run() {
    let mut rng = Rng::new(0xA17);
    let words = rng.f128_vec(3);
    let before = words.clone();
    for (m, k_log, useful, rest) in [(0, 9, 5, 0), (12, 8, 9999, 2), (70, 1, 0, usize::MAX)] {
        let mut guard = prepare_last_rho_z_fold(&words, m, k_log, useful, rest);
        assert!(wait_last_rho_z_fold(&mut guard).is_none());
        let mut guard = prepare_last_rho_z_fold(&words, m, k_log, useful, rest);
        kick_last_rho_z_fold(&mut guard, &words[..2]);
        assert!(wait_last_rho_z_fold(&mut guard).is_none());
    }
    assert_eq!(words, before);
}

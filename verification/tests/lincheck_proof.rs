use flock_core::challenger::{Challenger, FsChallenger, RandomChallenger};
use flock_core::circuit::{
    sparse_row_fold, sparse_row_fold_alpha_batched, LincheckCircuit, SparseMatrixCircuit,
};
use flock_core::csc::CscCircuit;
use flock_core::eq::{
    build_eq_table, build_quirky_eq_table, inner_product, invert, lagrange_weights_naive, phi8_at,
};
use flock_core::field::F128;
use flock_core::last_rho::{
    kick_last_rho_z_fold, prepare_last_rho_z_fold, prove_padded_capture_z_vec_after_kick,
    LastRhoZFoldGuard,
};
use flock_core::lincheck::{
    prove, prove_padded, prove_padded_capture_z_vec, prove_padded_capture_z_vec_block_major, verify,
    LincheckProof, QuirkyPoint, VerifyError,
};
use flock_core::r1cs::SparseBinaryMatrix;
use flock_core::stripe::{pack_z_lincheck, pack_z_lincheck_from_packed};
use flock_core::sumcheck::{
    sumcheck_bind_both_and_eval_next, sumcheck_bind_top_in_place_par, sumcheck_round_eval_par,
};

struct Rng(u64);
impl Rng {
    fn new(seed: u64) -> Self {
        Self(seed)
    }
    fn next_u64(&mut self) -> u64 {
        self.0 = self.0.wrapping_add(0x9E3779B97F4A7C15);
        let mut z = self.0;
        z = (z ^ (z >> 30)).wrapping_mul(0xBF58476D1CE4E5B9);
        z = (z ^ (z >> 27)).wrapping_mul(0x94D049BB133111EB);
        z ^ (z >> 31)
    }
    fn f128(&mut self) -> F128 {
        F128 {
            lo: self.next_u64(),
            hi: self.next_u64(),
        }
    }
    fn f128_vec(&mut self, n: usize) -> Vec<F128> {
        (0..n).map(|_| self.f128()).collect()
    }
    fn bits(&mut self, n: usize) -> Vec<bool> {
        (0..n).map(|_| self.next_u64() & 1 == 1).collect()
    }
}

fn random_quirky_point(m: usize, k_log: usize, k_skip: usize, rng: &mut Rng) -> QuirkyPoint {
    QuirkyPoint {
        z_skip: rng.f128(),
        x_inner_rest: rng.f128_vec(k_log - k_skip),
        x_outer: rng.f128_vec(m - k_log),
    }
}

fn mle_eval_bool_quirky(
    f: &[bool],
    m: usize,
    k_log: usize,
    k_skip: usize,
    point: &QuirkyPoint,
) -> F128 {
    let k_skip_dim = 1usize << k_skip;
    let inner_rest_len = k_log - k_skip;
    let inner_rest_dim = 1usize << inner_rest_len;
    let k = 1usize << k_log;
    let n_outer = 1usize << (m - k_log);
    assert_eq!(f.len(), 1 << m);

    let lambda = lagrange_weights_naive(k_skip, point.z_skip);
    let eq_rest = build_eq_table(&point.x_inner_rest);
    let eq_outer = build_eq_table(&point.x_outer);
    assert_eq!(lambda.len(), k_skip_dim);
    assert_eq!(eq_rest.len(), inner_rest_dim);
    assert_eq!(eq_outer.len(), n_outer);

    let mut acc = F128::zero();
    for i in 0..(1 << m) {
        if !f[i] {
            continue;
        }
        let i_skip = i & (k_skip_dim - 1);
        let i_inner_rest = (i >> k_skip) & (inner_rest_dim - 1);
        let i_outer = i / k;
        acc = acc + lambda[i_skip] * eq_rest[i_inner_rest] * eq_outer[i_outer];
    }
    acc
}

fn matrix_vector_product(m: &SparseBinaryMatrix, z: &[bool]) -> Vec<bool> {
    assert_eq!(z.len(), m.num_cols);
    m.rows
        .iter()
        .map(|row| {
            let mut acc = false;
            for &col in row {
                acc ^= z[col];
            }
            acc
        })
        .collect()
}

fn apply_block_diag(m_0: &SparseBinaryMatrix, z: &[bool], k_log: usize) -> Vec<bool> {
    let k = 1usize << k_log;
    assert_eq!(m_0.num_rows, k);
    assert_eq!(m_0.num_cols, k);
    assert_eq!(z.len() % k, 0);
    let n_outer = z.len() / k;
    let mut out = vec![false; z.len()];
    for i_outer in 0..n_outer {
        let z_block = &z[i_outer * k..(i_outer + 1) * k];
        let a_block = matrix_vector_product(m_0, z_block);
        out[i_outer * k..(i_outer + 1) * k].copy_from_slice(&a_block);
    }
    out
}

fn random_sparse_matrix(k: usize, nnz: usize, rng: &mut Rng) -> SparseBinaryMatrix {
    let mut rows: Vec<Vec<usize>> = vec![Vec::new(); k];
    let mut seen = std::collections::HashSet::new();
    let mut count = 0;
    while count < nnz {
        let r = (rng.next_u64() as usize) % k;
        let c = (rng.next_u64() as usize) % k;
        if seen.insert((r, c)) {
            rows[r].push(c);
            count += 1;
        }
    }
    for row in &mut rows {
        row.sort();
    }
    SparseBinaryMatrix {
        num_rows: k,
        num_cols: k,
        rows,
    }
}

#[test]
fn fused_bind_eval_threshold_arms_agree() {
    let mut rng = Rng::new(0xF05E_D9A7);
    for &len in &[1usize << 12, 1 << 13, 1 << 14] {
        let comb: Vec<F128> = (0..len).map(|_| rng.f128()).collect();
        let z: Vec<F128> = (0..len).map(|_| rng.f128()).collect();
        let r = rng.f128();
        let mut want_comb = comb.clone();
        let mut want_z = z.clone();
        sumcheck_bind_top_in_place_par(&mut want_comb, r);
        sumcheck_bind_top_in_place_par(&mut want_z, r);
        let want_msg = sumcheck_round_eval_par(&want_comb, &want_z);

        let mut got_comb = comb.clone();
        let mut got_z = z.clone();
        let got_msg = sumcheck_bind_both_and_eval_next(&mut got_comb, &mut got_z, r);
        assert_eq!(got_msg, want_msg, "fused message len={len}");
        assert_eq!(got_comb, want_comb, "fused comb table len={len}");
        assert_eq!(got_z, want_z, "fused z table len={len}");
        let mut bad_comb = comb.clone();
        bad_comb[len / 3] = bad_comb[len / 3] + F128::one();
        let mut bad_z = z.clone();
        let bad_msg = sumcheck_bind_both_and_eval_next(&mut bad_comb, &mut bad_z, r);
        assert_ne!(
            bad_msg, want_msg,
            "corrupted table went undetected len={len}"
        );
    }
}

#[test]
fn csc_u16_rows_match_u32_rows() {
    for &(k, nnz) in &[(64usize, 500usize), (1 << 12, 40_000), (1 << 13, 90_000)] {
        let mut rng = Rng::new(0xC5C1_6000 ^ k as u64);
        let a = random_sparse_matrix(k, nnz, &mut rng);
        let b = random_sparse_matrix(k, nnz, &mut rng);
        let wide = CscCircuit::from_matrices_narrow(&a, &b, false);
        let narrow = CscCircuit::from_matrices_narrow(&a, &b, true);
        assert!(!wide.narrow());
        assert!(narrow.narrow());
        let alpha = rng.f128();
        let eq: Vec<F128> = (0..k).map(|_| rng.f128()).collect();
        let want = wide.fold_alpha_batched(alpha, &eq);
        let got = narrow.fold_alpha_batched(alpha, &eq);
        assert_eq!(want, got, "k={k}");
        let reference = sparse_row_fold_alpha_batched(alpha, &a, &b, &eq);
        assert_eq!(want, reference, "k={k} reference");
    }
}

#[test]
fn sparse_row_fold_matches_dense() {
    let mut rng = Rng::new(22);
    let k = 16;
    let nnz = 40;
    let matrix = random_sparse_matrix(k, nnz, &mut rng);
    let eq_table: Vec<F128> = rng.f128_vec(k);

    let got = sparse_row_fold(&matrix, &eq_table);
    let mut expected = vec![F128::zero(); k];
    for (i, row) in matrix.rows.iter().enumerate() {
        for &j in row {
            expected[j] = expected[j] + eq_table[i];
        }
    }
    assert_eq!(got, expected);
}

#[test]
fn prove_verify_roundtrip_honest() {
    for &(m, k_log, k_skip) in &[
        (10usize, 4, 0),
        (10, 4, 2),
        (10, 4, 4),
        (12, 5, 3),
        (14, 7, 6),
        (14, 7, 0),
    ] {
        let k = 1usize << k_log;
        let mut rng = Rng::new(55 + (m * 100 + k_log * 10 + k_skip) as u64);
        let nnz_per_mat = k * 2;
        let a_0 = random_sparse_matrix(k, nnz_per_mat, &mut rng);
        let b_0 = random_sparse_matrix(k, nnz_per_mat, &mut rng);
        let z = rng.bits(1 << m);
        let a = apply_block_diag(&a_0, &z, k_log);
        let b = apply_block_diag(&b_0, &z, k_log);
        let z_packed = pack_z_lincheck(&z, m, k_log);
        let x_ab = random_quirky_point(m, k_log, k_skip, &mut rng);
        let v_a = mle_eval_bool_quirky(&a, m, k_log, k_skip, &x_ab);
        let v_b = mle_eval_bool_quirky(&b, m, k_log, k_skip, &x_ab);
        let circuit = SparseMatrixCircuit::new(&a_0, &b_0);
        let mut ch_p = FsChallenger::new(b"flock-test-v0");
        let (proof, claim_p) = prove(&z_packed, m, k_log, k_skip, &circuit, &x_ab, &mut ch_p);

        let mut ch_v = FsChallenger::new(b"flock-test-v0");
        let claim_v = verify(
            m, k_log, k_skip, &circuit, &x_ab, v_a, v_b, &proof, &mut ch_v,
        )
        .unwrap_or_else(|e| {
            panic!("verify rejected honest proof at m={m},k_log={k_log},k_skip={k_skip}: {e:?}")
        });

        assert_eq!(
            claim_p, claim_v,
            "claim mismatch at m={m}, k_log={k_log}, k_skip={k_skip}"
        );
        let pt = QuirkyPoint {
            z_skip: claim_v.r_inner_skip,
            x_inner_rest: claim_v.r_inner_rest.clone(),
            x_outer: x_ab.x_outer.clone(),
        };
        assert_eq!(
            claim_v.w,
            mle_eval_bool_quirky(&z, m, k_log, k_skip, &pt),
            "w wrong at m={m}, k_log={k_log}, k_skip={k_skip}"
        );
    }
}

#[test]
fn verify_rejects_mutations() {
    let m = 12;
    let k_log = 4;
    let k_skip = 2;
    let k = 1 << k_log;
    let mut rng = Rng::new(66);
    let a_0 = random_sparse_matrix(k, k * 5, &mut rng);
    let b_0 = random_sparse_matrix(k, k * 5, &mut rng);
    let z = rng.bits(1 << m);
    let a = apply_block_diag(&a_0, &z, k_log);
    let b = apply_block_diag(&b_0, &z, k_log);
    let z_packed = pack_z_lincheck(&z, m, k_log);
    let x_ab = random_quirky_point(m, k_log, k_skip, &mut rng);
    let v_a = mle_eval_bool_quirky(&a, m, k_log, k_skip, &x_ab);
    let v_b = mle_eval_bool_quirky(&b, m, k_log, k_skip, &x_ab);

    let _seed: u64 = 0xFEEDFACE;
    let circuit = SparseMatrixCircuit::new(&a_0, &b_0);
    let mut ch_p = FsChallenger::new(b"flock-test-v0");
    let (proof, _) = prove(&z_packed, m, k_log, k_skip, &circuit, &x_ab, &mut ch_p);
    let eq_inner = build_quirky_eq_table(x_ab.z_skip, &x_ab.x_inner_rest, k_skip);
    let row_a = sparse_row_fold(&a_0, &eq_inner);
    let row_b = sparse_row_fold(&b_0, &eq_inner);
    let idx = (0..k)
        .find(|&i| row_a[i] != F128::zero() || row_b[i] != F128::zero())
        .expect("no row-vector slot is nonzero in either A or B — test degenerate");
    let n_skip = 1usize << k_skip;
    let skip_idx = idx % n_skip;
    let mutations: Vec<(String, Box<dyn Fn(&LincheckProof) -> LincheckProof>)> = vec![
        (
            format!("z_partial[{skip_idx}].lo bit-flip"),
            Box::new(move |p| {
                let mut q = p.clone();
                q.z_partial[skip_idx].lo ^= 1;
                q
            }),
        ),
        (
            format!("z_partial[{skip_idx}].hi bit-flip"),
            Box::new(move |p| {
                let mut q = p.clone();
                q.z_partial[skip_idx].hi ^= 1;
                q
            }),
        ),
    ];
    for (label, mutate) in mutations {
        let bad = mutate(&proof);
        let mut ch = FsChallenger::new(b"flock-test-v0");
        let res = verify(m, k_log, k_skip, &circuit, &x_ab, v_a, v_b, &bad, &mut ch);
        assert!(
            matches!(res, Err(VerifyError::ConsistencyFailed { .. })),
            "verify did not reject {label}: got {res:?}"
        );
    }
}

#[test]
fn verify_rejects_shape_errors() {
    let m = 10;
    let k_log = 3;
    let k_skip = 1;
    let k = 1 << k_log;
    let mut rng = Rng::new(77);
    let a_0 = random_sparse_matrix(k, k, &mut rng);
    let b_0 = random_sparse_matrix(k, k, &mut rng);
    let z = rng.bits(1 << m);
    let a = apply_block_diag(&a_0, &z, k_log);
    let b = apply_block_diag(&b_0, &z, k_log);
    let z_packed = pack_z_lincheck(&z, m, k_log);
    let x_ab = random_quirky_point(m, k_log, k_skip, &mut rng);
    let v_a = mle_eval_bool_quirky(&a, m, k_log, k_skip, &x_ab);
    let v_b = mle_eval_bool_quirky(&b, m, k_log, k_skip, &x_ab);

    let circuit = SparseMatrixCircuit::new(&a_0, &b_0);
    let mut ch_p = FsChallenger::new(b"flock-test-v0");
    let (proof, _) = prove(&z_packed, m, k_log, k_skip, &circuit, &x_ab, &mut ch_p);
    let mut bad = proof.clone();
    bad.z_partial.pop();
    let mut ch = FsChallenger::new(b"flock-test-v0");
    assert!(matches!(
        verify(m, k_log, k_skip, &circuit, &x_ab, v_a, v_b, &bad, &mut ch),
        Err(VerifyError::BadVectorLength { .. })
    ));
    let mut ch = FsChallenger::new(b"flock-test-v0");
    let bad_x_ab = QuirkyPoint {
        z_skip: x_ab.z_skip,
        x_inner_rest: x_ab.x_inner_rest[..x_ab.x_inner_rest.len() - 1].to_vec(),
        x_outer: x_ab.x_outer.clone(),
    };
    assert!(matches!(
        verify(
            m, k_log, k_skip, &circuit, &bad_x_ab, v_a, v_b, &proof, &mut ch
        ),
        Err(VerifyError::BadInnerRestLength { .. })
    ));
    let mut ch = FsChallenger::new(b"flock-test-v0");
    assert!(matches!(
        verify(
            m,
            k_log,
            k_log + 1,
            &circuit,
            &x_ab,
            v_a,
            v_b,
            &proof,
            &mut ch,
        ),
        Err(VerifyError::KSkipExceedsKLog { .. })
    ));
}

/// An instance with its true claims.
struct Instance {
    m: usize,
    k_log: usize,
    k_skip: usize,
    a_0: SparseBinaryMatrix,
    b_0: SparseBinaryMatrix,
    z: Vec<bool>,
    x_ab: QuirkyPoint,
    v_a: F128,
    v_b: F128,
}

fn instance(
    m: usize,
    k_log: usize,
    k_skip: usize,
    useful: usize,
    pin: Option<usize>,
    seed: u64,
) -> Instance {
    let k = 1usize << k_log;
    let mut rng = Rng::new(seed);
    let a_0 = random_sparse_matrix(k, 3 * k, &mut rng);
    let b_0 = random_sparse_matrix(k, 3 * k, &mut rng);
    let mut z = rng.bits(1 << m);
    for block in z.chunks_mut(k) {
        for bit in block[useful..].iter_mut() {
            *bit = false;
        }
        if let Some(col) = pin {
            block[col] = true;
        }
    }
    let a = apply_block_diag(&a_0, &z, k_log);
    let b = apply_block_diag(&b_0, &z, k_log);
    let x_ab = random_quirky_point(m, k_log, k_skip, &mut rng);
    let v_a = mle_eval_bool_quirky(&a, m, k_log, k_skip, &x_ab);
    let v_b = mle_eval_bool_quirky(&b, m, k_log, k_skip, &x_ab);
    Instance {
        m,
        k_log,
        k_skip,
        a_0,
        b_0,
        z,
        x_ab,
        v_a,
        v_b,
    }
}

fn to_words(z: &[bool]) -> Vec<F128> {
    z.chunks(128)
        .map(|bits| {
            let mut w = F128::zero();
            for (b, &set) in bits.iter().enumerate() {
                if set && b < 64 {
                    w.lo |= 1 << b;
                } else if set {
                    w.hi |= 1 << (b - 64);
                }
            }
            w
        })
        .collect()
}

#[test]
fn padded_and_block_major_proofs_are_identical() {
    let (m, k_log, k_skip, useful) = (12usize, 7usize, 3usize, 100usize);
    let t = instance(m, k_log, k_skip, useful, None, 0x9AD);
    let stripes = pack_z_lincheck(&t.z, m, k_log);
    let words = to_words(&t.z);
    assert_eq!(stripes, pack_z_lincheck_from_packed(&words, m, k_log));
    let circuit = CscCircuit::from_matrices(&t.a_0, &t.b_0);
    let fresh = || FsChallenger::new(b"same");

    let mut ch = fresh();
    let plain = prove(&stripes, m, k_log, k_skip, &circuit, &t.x_ab, &mut ch);
    let next = ch.sample_f128();

    let mut ch = fresh();
    let padded = prove_padded(
        &stripes, m, k_log, k_skip, useful, &circuit, &t.x_ab, &mut ch,
    );
    assert_eq!(plain, padded);
    assert_eq!(next, ch.sample_f128());

    let mut ch = fresh();
    let (p, c, z_vec) = prove_padded_capture_z_vec(
        &stripes, m, k_log, k_skip, useful, &circuit, &t.x_ab, &mut ch,
    );
    assert_eq!(plain, (p, c));
    assert_eq!(z_vec.len(), 1 << k_log);

    let mut ch = fresh();
    let (p, c, from_blocks) = prove_padded_capture_z_vec_block_major(
        &words, m, k_log, k_skip, useful, &circuit, &t.x_ab, &mut ch,
    );
    assert_eq!(plain, (p, c));
    assert_eq!(z_vec, from_blocks);

    let mut mlv = t.x_ab.x_inner_rest.clone();
    mlv.extend_from_slice(&t.x_ab.x_outer);
    let mut kicked = prepare_last_rho_z_fold(&words, m, k_log, useful, k_log - k_skip);
    kick_last_rho_z_fold(&mut kicked, &mlv);
    for mut guard in [kicked, LastRhoZFoldGuard::empty()] {
        let mut ch = fresh();
        let (p, c, v) = prove_padded_capture_z_vec_after_kick(
            &mut guard, &words, m, k_log, k_skip, useful, &circuit, &t.x_ab, &mut ch,
        );
        assert_eq!(plain, (p, c));
        assert_eq!(z_vec, v);
        assert_eq!(next, ch.sample_f128());
    }
}

#[test]
fn a_pinned_wire_has_to_be_one() {
    let (m, k_log, k_skip) = (10usize, 4usize, 2usize);
    for honest in [true, false] {
        let col = 5usize;
        let pin = if honest { Some(col) } else { None };
        let mut t = instance(m, k_log, k_skip, 16, pin, 0x91D);
        if !honest {
            // A witness whose pinned wire is zero, with true matrix claims.
            for block in t.z.chunks_mut(1 << k_log) {
                block[col] = false;
            }
            let a = apply_block_diag(&t.a_0, &t.z, k_log);
            let b = apply_block_diag(&t.b_0, &t.z, k_log);
            t.v_a = mle_eval_bool_quirky(&a, m, k_log, k_skip, &t.x_ab);
            t.v_b = mle_eval_bool_quirky(&b, m, k_log, k_skip, &t.x_ab);
        }
        let circuit = SparseMatrixCircuit::new(&t.a_0, &t.b_0).with_const_pin(Some(col));
        let stripes = pack_z_lincheck(&t.z, m, k_log);
        let mut ch = FsChallenger::new(b"pin");
        let (proof, claim) = prove(&stripes, m, k_log, k_skip, &circuit, &t.x_ab, &mut ch);
        let mut ch = FsChallenger::new(b"pin");
        let res = verify(
            m, k_log, k_skip, &circuit, &t.x_ab, t.v_a, t.v_b, &proof, &mut ch,
        );
        if honest {
            assert_eq!(res, Ok(claim));
        } else {
            assert_eq!(
                res,
                Err(VerifyError::ConsistencyFailed {
                    which: "sumcheck-final"
                })
            );
        }
    }
}

#[test]
fn both_circuits_prove_alike_under_any_challenger() {
    let t = instance(11, 5, 2, 32, None, 0xA11);
    let stripes = pack_z_lincheck(&t.z, t.m, t.k_log);
    let rows = SparseMatrixCircuit::new(&t.a_0, &t.b_0);
    let cols = CscCircuit::from_matrices(&t.a_0, &t.b_0);
    assert_eq!(cols.nnz(), (96, 96));
    assert_eq!(rows.n_cols(), cols.n_cols());
    let mut ch = RandomChallenger::new(3);
    let a = prove(&stripes, t.m, t.k_log, t.k_skip, &rows, &t.x_ab, &mut ch);
    let mut ch = RandomChallenger::new(3);
    let b = prove(&stripes, t.m, t.k_log, t.k_skip, &cols, &t.x_ab, &mut ch);
    assert_eq!(a, b);
    let mut ch = RandomChallenger::new(3);
    let claim = verify(
        t.m, t.k_log, t.k_skip, &cols, &t.x_ab, t.v_a, t.v_b, &a.0, &mut ch,
    );
    assert_eq!(claim, Ok(a.1));
    // A wrong claim on either product is caught.
    for (d_a, d_b) in [(F128::one(), F128::zero()), (F128::zero(), F128::one())] {
        let mut ch = RandomChallenger::new(3);
        let res = verify(
            t.m,
            t.k_log,
            t.k_skip,
            &cols,
            &t.x_ab,
            t.v_a + d_a,
            t.v_b + d_b,
            &a.0,
            &mut ch,
        );
        assert!(matches!(res, Err(VerifyError::ConsistencyFailed { .. })));
    }
}

#[test]
fn every_shape_error_says_what_was_wrong() {
    let t = instance(10, 4, 2, 16, None, 0x5A9E);
    let circuit = SparseMatrixCircuit::new(&t.a_0, &t.b_0);
    let stripes = pack_z_lincheck(&t.z, t.m, t.k_log);
    let mut ch = FsChallenger::new(b"shape");
    let (proof, _) = prove(&stripes, t.m, t.k_log, t.k_skip, &circuit, &t.x_ab, &mut ch);
    let run = |k_log: usize, k_skip: usize, x: &QuirkyPoint, p: &LincheckProof| {
        let mut ch = FsChallenger::new(b"shape");
        let res = verify(10, k_log, k_skip, &circuit, x, t.v_a, t.v_b, p, &mut ch);
        // A refused shape leaves the transcript alone.
        let mut untouched = FsChallenger::new(b"shape");
        assert_eq!(ch.sample_f128(), untouched.sample_f128());
        res.unwrap_err()
    };
    assert_eq!(
        run(4, 5, &t.x_ab, &proof),
        VerifyError::KSkipExceedsKLog {
            k_skip: 5,
            k_log: 4
        }
    );
    let mut x = t.x_ab.clone();
    x.x_inner_rest.push(F128::one());
    assert_eq!(
        run(4, 2, &x, &proof),
        VerifyError::BadInnerRestLength {
            which: "x_ab",
            expected: 2,
            got: 3
        }
    );
    let mut x = t.x_ab.clone();
    x.x_outer.pop();
    assert_eq!(
        run(4, 2, &x, &proof),
        VerifyError::BadOuterLength {
            which: "x_ab",
            expected: 6,
            got: 5
        }
    );
    let x = QuirkyPoint {
        z_skip: F128::one(),
        x_inner_rest: vec![F128::one(); 3],
        x_outer: vec![F128::one(); 5],
    };
    assert_eq!(
        run(5, 2, &x, &proof),
        VerifyError::BadMatrixShape {
            which: "circuit",
            expected: 32,
            got_rows: 32,
            got_cols: 16
        }
    );
    let mut p = proof.clone();
    p.rounds.pop();
    assert_eq!(
        run(4, 2, &t.x_ab, &p),
        VerifyError::BadVectorLength {
            which: "rounds",
            expected: 2,
            got: 1
        }
    );
    let mut p = proof.clone();
    p.z_partial.push(F128::zero());
    assert_eq!(
        run(4, 2, &t.x_ab, &p),
        VerifyError::BadVectorLength {
            which: "z_partial",
            expected: 4,
            got: 5
        }
    );
}

#[test]
fn a_changed_round_message_is_rejected() {
    let t = instance(10, 4, 1, 16, None, 0xC4A);
    let circuit = SparseMatrixCircuit::new(&t.a_0, &t.b_0);
    let stripes = pack_z_lincheck(&t.z, t.m, t.k_log);
    let mut ch = FsChallenger::new(b"rounds");
    let (proof, _) = prove(&stripes, t.m, t.k_log, t.k_skip, &circuit, &t.x_ab, &mut ch);
    for round in 0..3 {
        let mut bad = proof.clone();
        bad.rounds[round].0 = bad.rounds[round].0 + F128::one();
        let mut ch = FsChallenger::new(b"rounds");
        let res = verify(
            t.m, t.k_log, t.k_skip, &circuit, &t.x_ab, t.v_a, t.v_b, &bad, &mut ch,
        );
        assert!(matches!(res, Err(VerifyError::ConsistencyFailed { .. })));
    }
}

#[test]
fn a_round_message_splits_the_dot_product() {
    let mut rng = Rng::new(0x5111);
    let c = rng.f128_vec(16);
    let z = rng.f128_vec(16);
    let (e1, einf) = sumcheck_round_eval_par(&c, &z);
    let e0 = inner_product(&c[..8], &z[..8]);
    assert_eq!(e1, inner_product(&c[8..], &z[8..]));
    assert_eq!(inner_product(&c, &z), e0 + e1);
    let r = rng.f128();
    let (mut bc, mut bz) = (c.clone(), z.clone());
    sumcheck_bind_top_in_place_par(&mut bc, r);
    sumcheck_bind_top_in_place_par(&mut bz, r);
    assert_eq!(
        inner_product(&bc, &bz),
        einf * r * r + (e0 + e1 + einf) * r + e0
    );
}

#[test]
fn lagrange_weights_pick_out_the_nodes() {
    assert_eq!(phi8_at(0), F128::zero());
    assert_eq!(phi8_at(1), F128::one());
    assert_eq!(phi8_at(6), phi8_at(2) + phi8_at(4));
    for node in 0..8usize {
        let w = lagrange_weights_naive(3, phi8_at(node));
        for (i, &v) in w.iter().enumerate() {
            let want = if i == node { F128::one() } else { F128::zero() };
            assert_eq!(v, want);
        }
    }
    let mut rng = Rng::new(0x1A6);
    let w = lagrange_weights_naive(4, rng.f128());
    let mut sum = F128::zero();
    for v in w {
        sum = sum + v;
    }
    assert_eq!(sum, F128::one());
}

#[test]
fn phi8_is_a_field_embedding() {
    // Products of the first powers of the image of the generator.
    let g = phi8_at(2);
    let mut p = F128::one();
    for j in 0..8 {
        assert_eq!(p, phi8_at(1 << j), "power {j}");
        p = p * g;
    }
    // The generator satisfies x^8 = x^4 + x^3 + x + 1.
    assert_eq!(p, phi8_at(0b0001_1011));
}

#[test]
fn field_arithmetic_has_its_exact_values() {
    let x = F128 { lo: 2, hi: 0 };
    let top = F128 {
        lo: 0,
        hi: 1 << 63,
    };
    assert_eq!(x * top, F128 { lo: 0x87, hi: 0 });
    assert_eq!(x + x, F128::zero());
    assert_eq!(
        F128 { lo: 3, hi: 0 } * F128 { lo: 3, hi: 0 },
        F128 { lo: 5, hi: 0 }
    );
    let mut rng = Rng::new(0xF1E1D);
    for _ in 0..16 {
        let (a, b, c) = (rng.f128(), rng.f128(), rng.f128());
        assert_eq!(a * b, b * a);
        assert_eq!((a * b) * c, a * (b * c));
        assert_eq!(a * (b + c), a * b + a * c);
        assert_eq!(a * F128::one(), a);
        assert_eq!(a * invert(a), F128::one());
    }
}

#[test]
fn a_column_listed_twice_cancels() {
    let m = SparseBinaryMatrix {
        num_rows: 2,
        num_cols: 2,
        rows: vec![vec![0, 0, 1], vec![1]],
    };
    let eq = [F128 { lo: 5, hi: 0 }, F128 { lo: 9, hi: 0 }];
    assert_eq!(
        sparse_row_fold(&m, &eq),
        vec![F128::zero(), F128 { lo: 12, hi: 0 }]
    );
    let csc = CscCircuit::from_matrices(&m, &m);
    let alpha = F128 { lo: 2, hi: 0 };
    let want = vec![F128::zero(), F128 { lo: 20, hi: 0 }];
    assert_eq!(csc.fold_alpha_batched(alpha, &eq), want);
    assert_eq!(sparse_row_fold_alpha_batched(alpha, &m, &m, &eq), want);
    assert_eq!(csc.const_pin_col(), None);
    assert_eq!(csc.with_const_pin(Some(1)).const_pin_col(), Some(1));
}

/// The round polynomial of a running claim and a message, at `r`.
fn round_at(running: F128, msg: (F128, F128), r: F128) -> F128 {
    let e0 = running + msg.0;
    msg.1 * r * r + (e0 + msg.0 + msg.1) * r + e0
}

#[test]
fn a_false_claim_leaves_the_value_of_a_round_polynomial() {
    let mut rng = Rng::new(0xE44);
    let c = rng.f128_vec(8);
    let z = rng.f128_vec(8);
    let (t1, tinf) = sumcheck_round_eval_par(&c, &z);
    let (running, msg, r) = (rng.f128(), (rng.f128(), rng.f128()), rng.f128());
    let (mut bc, mut bz) = (c.clone(), z.clone());
    sumcheck_bind_top_in_place_par(&mut bc, r);
    sumcheck_bind_top_in_place_par(&mut bz, r);
    let error = running + inner_product(&c, &z);
    let off = (msg.0 + t1, msg.1 + tinf);
    assert_eq!(
        round_at(running, msg, r) + inner_product(&bc, &bz),
        round_at(error, off, r)
    );
    let (at0, at1) = (
        round_at(error, off, F128::zero()),
        round_at(error, off, F128::one()),
    );
    assert_eq!(at0 + at1, error);
    assert_ne!(error, F128::zero());
}

#[test]
fn the_start_error_combines_what_the_claims_are_off_by() {
    // With no round to play, the verifier's last check sees the start error itself.
    let t = instance(10, 3, 3, 8, None, 0xBA7C);
    let circuit = SparseMatrixCircuit::new(&t.a_0, &t.b_0);
    let stripes = pack_z_lincheck(&t.z, t.m, t.k_log);
    let mut ch = RandomChallenger::new(11);
    let alpha = RandomChallenger::new(11).sample_f128();
    let (proof, _) = prove(&stripes, t.m, t.k_log, t.k_skip, &circuit, &t.x_ab, &mut ch);
    assert!(proof.rounds.is_empty());
    let off_a = F128 { lo: 77, hi: 3 };
    // Off by values that the batching challenge cancels, and by others.
    for (off_b, passes) in [(alpha * off_a, true), (alpha * off_a + F128::one(), false)] {
        let mut ch = RandomChallenger::new(11);
        let res = verify(
            t.m,
            t.k_log,
            t.k_skip,
            &circuit,
            &t.x_ab,
            t.v_a + off_a,
            t.v_b + off_b,
            &proof,
            &mut ch,
        );
        assert_eq!(res.is_ok(), passes);
    }
}

#[test]
fn nonzero_elements_have_inverses_and_nonzero_products() {
    let mut rng = Rng::new(0x1F);
    assert_eq!(invert(F128::zero()), F128::zero());
    assert_eq!(invert(F128::one()), F128::one());
    for _ in 0..50 {
        let (a, b) = (rng.f128(), rng.f128());
        assert_eq!(a * invert(a), F128::one());
        assert_eq!((a * b) * invert(b), a);
        assert_ne!(a * b, F128::zero());
    }
}

#[test]
fn lagrange_weights_interpolate_a_polynomial() {
    let mut rng = Rng::new(0x1A6);
    let k_skip = 3;
    let coefficients = rng.f128_vec(1 << k_skip);
    let eval = |z: F128| {
        coefficients.iter().rev().fold(F128::zero(), |acc, &c| acc * z + c)
    };
    let values: Vec<F128> = (0..1 << k_skip).map(|i| eval(phi8_at(i))).collect();
    for _ in 0..10 {
        let z = rng.f128();
        assert_eq!(inner_product(&lagrange_weights_naive(k_skip, z), &values), eval(z));
    }
}

#[test]
fn different_folds_leave_the_same_claim_at_few_points() {
    let mut rng = Rng::new(0x5E9);
    let k_skip = 2;
    let a = rng.f128_vec(1 << k_skip);
    let mut b = a.clone();
    b[3] = b[3] + F128::one();
    // They agree at the nodes of the three entries that are equal, and nowhere else here.
    let alike = |z: F128| {
        let w = lagrange_weights_naive(k_skip, z);
        inner_product(&w, &a) == inner_product(&w, &b)
    };
    assert_eq!((0..64).filter(|&i| alike(phi8_at(i))).count(), 3);
    assert!(!alike(rng.f128()));
}

#[test]
fn a_false_claim_survives_a_round_at_two_challenges() {
    // The error `(x + r)(x + s)` is not zero at the claim, and vanishes at `r` and `s`.
    let (r, s) = (F128 { lo: 5, hi: 0 }, F128 { lo: 9, hi: 0 });
    let error = |x: F128| (x + r) * (x + s);
    let claim = error(F128::zero()) + error(F128::one());
    assert_ne!(claim, F128::zero());
    assert_eq!((0..256).filter(|&lo| error(F128 { lo, hi: 0 }) == F128::zero()).count(), 2);
}

#[test]
fn every_change_at_a_weighted_slot_is_rejected() {
    let (m, k_log, k_skip) = (9, 3, 1);
    let k = 1 << k_log;
    let mut rng = Rng::new(0xC4A);
    let a_0 = random_sparse_matrix(k, k * 4, &mut rng);
    let b_0 = random_sparse_matrix(k, k * 4, &mut rng);
    let z = rng.bits(1 << m);
    let a = apply_block_diag(&a_0, &z, k_log);
    let b = apply_block_diag(&b_0, &z, k_log);
    let x_ab = random_quirky_point(m, k_log, k_skip, &mut rng);
    let v_a = mle_eval_bool_quirky(&a, m, k_log, k_skip, &x_ab);
    let v_b = mle_eval_bool_quirky(&b, m, k_log, k_skip, &x_ab);
    let circuit = SparseMatrixCircuit::new(&a_0, &b_0);
    let mut ch = FsChallenger::new(b"slots");
    let z_packed = pack_z_lincheck(&z, m, k_log);
    let (proof, _) = prove(&z_packed, m, k_log, k_skip, &circuit, &x_ab, &mut ch);
    for slot in 0..1 << k_skip {
        for bit in 0..64 {
            let mut bad = proof.clone();
            bad.z_partial[slot].lo ^= 1 << bit;
            let mut ch = FsChallenger::new(b"slots");
            let res = verify(m, k_log, k_skip, &circuit, &x_ab, v_a, v_b, &bad, &mut ch);
            assert!(matches!(res, Err(VerifyError::ConsistencyFailed { .. })));
        }
    }
}

use flock_core::f128_slice::{
    add_scaled, bind_both_and_msg_split, bind_split_half, fold16_banked, fold4_nested, fold_pairs,
    fold_pairs_with_scaled_addend, fold_two_and_msg, fold_two_and_msg_in_place,
    fold_two_and_msg_in_place_scalar, mix, msg_split_half,
};
use flock_core::field::F128;

#[test]
fn fold16_banked_matches_scalar_reduced_sum() {
    let mut state = 0x5eed_f01d_16u64;
    let mut next = || {
        state ^= state << 13;
        state ^= state >> 7;
        state ^= state << 17;
        state
    };
    for n in [1usize, 3, 4, 5, 8, 13, 64, 257] {
        let src: Vec<F128> = (0..16 * n)
            .map(|_| F128 {
                lo: next(),
                hi: next(),
            })
            .collect();
        let w: [F128; 16] = core::array::from_fn(|_| F128 {
            lo: next(),
            hi: next(),
        });
        let mut got = vec![F128::zero(); n];
        fold16_banked(&src, &mut got, &w);
        for t in 0..n {
            let mut want = F128::zero();
            for b in 0..16 {
                want = want + w[b] * src[16 * t + b];
            }
            assert_eq!(got[t], want, "n={n} t={t}");
        }
    }
    let src: Vec<F128> = (0..16 * 8)
        .map(|i| F128 {
            lo: i as u64 * 7 + 1,
            hi: (i as u64) << 40,
        })
        .collect();
    for b0 in 0..16 {
        let mut w = [F128::zero(); 16];
        w[b0] = F128::one();
        let mut got = vec![F128::zero(); 8];
        fold16_banked(&src, &mut got, &w);
        for t in 0..8 {
            assert_eq!(got[t], src[16 * t + b0]);
        }
    }
    let w = [F128::one(); 16];
    let mut got = vec![F128::zero(); 8];
    fold16_banked(&src, &mut got, &w);
    for t in 0..8 {
        let want = src[16 * t..16 * t + 16]
            .iter()
            .fold(F128::zero(), |a, &b| a + b);
        assert_eq!(got[t], want);
    }
}
#[test]
fn folds_ignore_stale_destination_contents() {
    let mut state = 0xD1_47_57_A1_E0u64;
    let mut next = || {
        state ^= state << 13;
        state ^= state >> 7;
        state ^= state << 17;
        state
    };
    for n in [1usize, 4, 5, 64, 257] {
        let w: [F128; 16] = core::array::from_fn(|_| F128 {
            lo: next(),
            hi: next(),
        });
        let src16: Vec<F128> = (0..16 * n)
            .map(|_| F128 {
                lo: next(),
                hi: next(),
            })
            .collect();
        let mut zeroed = vec![F128::zero(); n];
        let mut dirty: Vec<F128> = (0..n)
            .map(|_| F128 {
                lo: next(),
                hi: next(),
            })
            .collect();
        fold16_banked(&src16, &mut zeroed, &w);
        fold16_banked(&src16, &mut dirty, &w);
        assert_eq!(dirty, zeroed, "fold16_banked n={n}");

        let (r0, r1) = (
            F128 {
                lo: next(),
                hi: next(),
            },
            F128 {
                lo: next(),
                hi: next(),
            },
        );
        let src4: Vec<F128> = (0..4 * n)
            .map(|_| F128 {
                lo: next(),
                hi: next(),
            })
            .collect();
        let mut zeroed = vec![F128::zero(); n];
        let mut dirty: Vec<F128> = (0..n)
            .map(|_| F128 {
                lo: next(),
                hi: next(),
            })
            .collect();
        fold4_nested(&src4, &mut zeroed, r0, r1);
        fold4_nested(&src4, &mut dirty, r0, r1);
        assert_eq!(dirty, zeroed, "fold4_nested n={n}");
    }
}
#[test]
fn fold_two_and_msg_in_place_matches_scalar() {
    let mut state = 0xF01D_8B1D_u64;
    let mut next = || {
        state ^= state << 13;
        state ^= state >> 7;
        state ^= state << 17;
        state
    };
    for n in [4usize, 8, 12, 16, 64, 256, 8192] {
        let r = F128 {
            lo: next(),
            hi: next(),
        };
        let f: Vec<F128> = (0..n)
            .map(|_| F128 {
                lo: next(),
                hi: next(),
            })
            .collect();
        let b: Vec<F128> = (0..n)
            .map(|_| F128 {
                lo: next(),
                hi: next(),
            })
            .collect();
        let mut f_got = f.clone();
        let mut b_got = b.clone();
        let mut f_want = f;
        let mut b_want = b;
        let got = fold_two_and_msg_in_place(&mut f_got, &mut b_got, r);
        let want = fold_two_and_msg_in_place_scalar(&mut f_want, &mut b_want, r);
        assert_eq!(got, want, "message n={n}");
        assert_eq!(f_got, f_want, "folded f n={n}");
        assert_eq!(b_got, b_want, "folded b n={n}");
    }
}
#[test]
fn split_half_leaves_match_scalar() {
    let mut state = 0xD15E_A5E0_1234_5678_u64;
    let mut next = || {
        state ^= state << 13;
        state ^= state >> 7;
        state ^= state << 17;
        state
    };
    let mut draw = |n: usize| -> Vec<F128> {
        (0..n)
            .map(|_| F128 {
                lo: next(),
                hi: next(),
            })
            .collect()
    };
    for n in [1usize, 2, 3, 4, 5, 7, 8, 9, 16, 64, 4096] {
        let r = draw(1)[0];
        let lo0 = draw(n);
        let hi = draw(n);
        let mut got = lo0.clone();
        bind_split_half(&mut got, &hi, r);
        for i in 0..n {
            assert_eq!(got[i], lo0[i] + r * (hi[i] + lo0[i]), "bind n={n} i={i}");
        }
        let (chi, clo, zhi, zlo) = (draw(n), draw(n), draw(n), draw(n));
        let (e1, einf) = msg_split_half(&chi, &clo, &zhi, &zlo, n);
        let mut we1 = F128::zero();
        let mut weinf = F128::zero();
        for i in 0..n {
            we1 = we1 + chi[i] * zhi[i];
            weinf = weinf + (chi[i] + clo[i]) * (zhi[i] + zlo[i]);
        }
        assert_eq!((e1, einf), (we1, weinf), "msg n={n}");
        let (c0, c1, c2, c3) = (draw(n), draw(n), draw(n), draw(n));
        let (z0, z1, z2, z3) = (draw(n), draw(n), draw(n), draw(n));
        let (mut gc0, mut gc1, mut gz0, mut gz1) =
            (c0.clone(), c1.clone(), z0.clone(), z1.clone());
        let got = bind_both_and_msg_split(
            &mut gc0, &mut gc1, &c2, &c3, &mut gz0, &mut gz1, &z2, &z3, r, n,
        );
        let (mut wc0, mut wc1, mut wz0, mut wz1) =
            (c0.clone(), c1.clone(), z0.clone(), z1.clone());
        let mut we1 = F128::zero();
        let mut weinf = F128::zero();
        for i in 0..n {
            let lo = c0[i] + r * (c2[i] + c0[i]);
            let hi = c1[i] + r * (c3[i] + c1[i]);
            let zl = z0[i] + r * (z2[i] + z0[i]);
            let zh = z1[i] + r * (z3[i] + z1[i]);
            wc0[i] = lo;
            wc1[i] = hi;
            wz0[i] = zl;
            wz1[i] = zh;
            we1 = we1 + hi * zh;
            weinf = weinf + (hi + lo) * (zh + zl);
        }
        assert_eq!(got, (we1, weinf), "fused message n={n}");
        assert_eq!(
            (gc0, gc1, gz0, gz1),
            (wc0, wc1, wz0, wz1),
            "fused tables n={n}"
        );
    }
}
#[test]
fn split_half_chunking_is_exact() {
    let mut state = 0x0BAD_C0DE_F00D_9911_u64;
    let mut next = || {
        state ^= state << 13;
        state ^= state >> 7;
        state ^= state << 17;
        state
    };
    let mut draw = |n: usize| -> Vec<F128> {
        (0..n)
            .map(|_| F128 {
                lo: next(),
                hi: next(),
            })
            .collect()
    };
    let n = 300usize;
    let (chi, clo, zhi, zlo) = (draw(n), draw(n), draw(n), draw(n));
    let whole = msg_split_half(&chi, &clo, &zhi, &zlo, n);
    for chunk in [1usize, 3, 4, 7, 64, 256] {
        let mut acc = (F128::zero(), F128::zero());
        let mut i = 0;
        while i < n {
            let len = chunk.min(n - i);
            let part = msg_split_half(&chi[i..], &clo[i..], &zhi[i..], &zlo[i..], len);
            acc = (acc.0 + part.0, acc.1 + part.1);
            i += len;
        }
        assert_eq!(acc, whole, "chunk={chunk}");
    }
}

#[test]
fn selected_fold_matches_portable_with_offset_and_tail() {
    let mut state = 0x243f_6a88_85a3_08d3_u64;
    let mut next = || {
        state ^= state << 13;
        state ^= state >> 7;
        state ^= state << 17;
        state
    };
    let src: Vec<F128> = (0..30)
        .map(|_| F128 {
            lo: next(),
            hi: next(),
        })
        .collect();
    let r = F128 {
        lo: next(),
        hi: next(),
    };
    let mut expected = vec![F128::zero(); 9];
    let mut actual = vec![F128::zero(); 9];

    fold_pairs(&src, 3, &mut expected, r);
    fold_pairs(&src, 3, &mut actual, r);

    assert_eq!(actual, expected);
}
#[test]
fn portable_fold_pairs_matches_two_mul() {
    let mut state = 0x9e37_79b9_7f4a_7c15_u64;
    let mut next = || {
        state ^= state << 13;
        state ^= state >> 7;
        state ^= state << 17;
        state
    };
    let src: Vec<F128> = (0..40)
        .map(|_| F128 {
            lo: next(),
            hi: next(),
        })
        .collect();
    let r = F128 {
        lo: next(),
        hi: next(),
    };
    let one_plus_r = F128::one() + r;
    for &(base, n) in &[(0usize, 20usize), (3, 9), (1, 1), (5, 7)] {
        let mut got = vec![F128::zero(); n];
        fold_pairs(&src, base, &mut got, r);
        for t in 0..n {
            let s = 2 * (base + t);
            let expect = src[s] * one_plus_r + src[s + 1] * r;
            assert_eq!(got[t], expect, "base={base} t={t}");
        }
    }
}
#[test]
fn fold_pairs_with_scaled_addend_matches_materialized_glue_then_fold() {
    let mut state = 0xDEF3_22ED_61A0_0D5Eu64;
    let mut next = || {
        state ^= state << 13;
        state ^= state >> 7;
        state ^= state << 17;
        state
    };
    let src: Vec<F128> = (0..96)
        .map(|_| F128 {
            lo: next(),
            hi: next(),
        })
        .collect();
    let r = F128 {
        lo: next(),
        hi: next(),
    };
    let scale = F128 {
        lo: next(),
        hi: next(),
    };
    for &(base, n) in &[(0usize, 1usize), (3, 3), (5, 4), (7, 5), (2, 11), (0, 32)] {
        let initial: Vec<F128> = (0..n)
            .map(|_| F128 {
                lo: next(),
                hi: next(),
            })
            .collect();
        let addend: Vec<F128> = (0..src.len())
            .map(|_| F128 {
                lo: next(),
                hi: next(),
            })
            .collect();
        let mut glued = src.clone();
        add_scaled(&mut glued, &addend, scale);
        let mut want = initial.clone();
        fold_pairs(&glued, base, &mut want, r);
        let mut got = initial;
        fold_pairs_with_scaled_addend(&src, &addend, base, &mut got, r, scale);
        assert_eq!(got, want, "base={base} n={n}");
    }
}
#[test]
fn selected_fold4_nested_matches_scalar_and_two_pass_pairs() {
    let mut state = 0xA5A5_C0DE_F00D_1234_u64;
    let mut next = || {
        state ^= state << 13;
        state ^= state >> 7;
        state ^= state << 17;
        state
    };
    let src: Vec<F128> = (0..44)
        .map(|_| F128 {
            lo: next(),
            hi: next(),
        })
        .collect();
    let r0 = F128 {
        lo: next(),
        hi: next(),
    };
    let r1 = F128 {
        lo: next(),
        hi: next(),
    };
    for n in [1usize, 3, 4, 5, 7, 8, 11] {
        let mut got = vec![F128::zero(); n];
        let mut portable_got = vec![F128::zero(); n];
        fold4_nested(&src[..4 * n], &mut got, r0, r1);
        fold4_nested(&src[..4 * n], &mut portable_got, r0, r1);
        assert_eq!(got, portable_got, "portable n={n}");
        for t in 0..n {
            let a0 = src[4 * t];
            let a1 = src[4 * t + 1];
            let a2 = src[4 * t + 2];
            let a3 = src[4 * t + 3];
            let low = a0 + r0 * (a0 + a1);
            let high = a2 + r0 * (a2 + a3);
            let expect = low + r1 * (low + high);
            assert_eq!(got[t], expect, "scalar n={n} t={t}");
        }
        let mut mid = vec![F128::zero(); 2 * n];
        let mut via_pairs = vec![F128::zero(); n];
        fold_pairs(&src[..4 * n], 0, &mut mid, r0);
        fold_pairs(&mid, 0, &mut via_pairs, r1);
        assert_eq!(got, via_pairs, "two-pass pairs n={n}");
    }
}

#[test]
fn mixing_is_the_line_through_both_ends() {
    let a = F128 { lo: 3, hi: 5 };
    let b = F128 { lo: 11, hi: 8 };
    assert_eq!(mix(a, b, F128::zero()), a);
    assert_eq!(mix(a, b, F128::one()), b);
    let x = F128 { lo: 2, hi: 0 };
    assert_eq!(mix(F128::zero(), a, x), F128 { lo: 6, hi: 10 });
}

#[test]
fn out_of_place_fold_matches_the_one_in_place() {
    let f: Vec<F128> = (0..16u64).map(|i| F128 { lo: i * i + 1, hi: i }).collect();
    let b: Vec<F128> = (0..16u64).map(|i| F128 { lo: i, hi: 3 * i + 2 }).collect();
    let r = F128 { lo: 0x55, hi: 0x1000 };
    let (mut f1, mut b1) = (f.clone(), b.clone());
    let whole = fold_two_and_msg_in_place(&mut f1, &mut b1, r);
    let mut sum = (F128::zero(), F128::zero());
    for base in [0usize, 4] {
        let mut fc = vec![F128::zero(); 4];
        let mut bc = vec![F128::zero(); 4];
        let part = fold_two_and_msg(&f, &b, base, &mut fc, &mut bc, r);
        assert_eq!(fc[..], f1[base..base + 4]);
        assert_eq!(bc[..], b1[base..base + 4]);
        sum = (sum.0 + part.0, sum.1 + part.1);
    }
    assert_eq!(sum, whole);
}

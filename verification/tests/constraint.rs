use hyperplonk_evm::concat::{ConcatMatsMeta, Dimensions};
use hyperplonk_evm::constraint::{ConcatConstraint, Query};
use hyperplonk_evm::field::Challenge;

fn base(x: u32) -> Challenge {
    Challenge { c0: x, c1: 0, c2: 0, c3: 0 }
}

const ZERO: Challenge = Challenge { c0: 0, c1: 0, c2: 0, c3: 0 };
const ONE: Challenge = Challenge { c0: 1, c1: 0, c2: 0, c3: 0 };

fn point_of((c, sum): (ConcatConstraint, Challenge)) -> (Vec<Challenge>, Challenge) {
    match c {
        ConcatConstraint::Point(p) => (p, sum),
        other => panic!("expected a point constraint, got {other:?}"),
    }
}

fn meta() -> ConcatMatsMeta {
    // Ranges 0..8, 8..12, 12..16 over 4 variables.
    ConcatMatsMeta::new(vec![
        Dimensions { width: 3, height: 2 },
        Dimensions { width: 1, height: 4 },
        Dimensions { width: 2, height: 2 },
    ])
}

#[test]
fn constraint_eq_point_and_sum_for_narrow_matrix() {
    let z = [Challenge { c0: 5, c1: 6, c2: 7, c3: 8 }];
    let r = [base(100), base(101)];
    let (point, sum) = point_of(meta().constraint_with_eq_r(1, &Query::Eq(z.to_vec()), &[base(2)], &r, &[base(5)]));
    // No column variable; then `z`; then the selector bits 0, 1 of start 8; reversed.
    assert_eq!(point, vec![ONE, ZERO, z[0]]);
    assert_eq!(sum, base(10));
}

#[test]
fn constraint_eq_point_and_sum_for_wide_matrix() {
    let z = [base(9)];
    let r = [base(100), base(101), base(102)];
    let ys = [base(1), base(2), base(3)];
    let eq_r = [base(4), base(5), base(6), base(7)];
    let (point, sum) = point_of(meta().constraint_with_eq_r(0, &Query::Eq(z.to_vec()), &ys, &r, &eq_r));
    // Two column variables from `r`, then `z`, then selector bit 3 of start 0; reversed.
    assert_eq!(point, vec![ZERO, base(9), base(101), base(100)]);
    assert_eq!(sum, base(1 * 4 + 2 * 5 + 3 * 6));
}

#[test]
fn constraint_eq_sum_uses_extension_multiplication() {
    // X * X^3 = X^4 = 3 in the degree-4 binomial extension of KoalaBear.
    let x = Challenge { c0: 0, c1: 1, c2: 0, c3: 0 };
    let x3 = Challenge { c0: 0, c1: 0, c2: 0, c3: 1 };
    let (_, sum) = meta().constraint_with_eq_r(2, &Query::Eq(vec![]), &[x], &[base(7)], &[x3, base(0)]);
    assert_eq!(sum, base(3));
}

#[test]
fn constraint_eq_sum_reduces_modulo_prime() {
    let p_minus_one = base(0x7f00_0000);
    let (_, sum) = meta().constraint_with_eq_r(1, &Query::Eq(vec![]), &[p_minus_one], &[], &[base(2)]);
    assert_eq!(sum, base(0x7f00_0000 - 1));
}

#[test]
fn rotated_query_gives_tensor_product_over_the_range() {
    let row_weights = vec![base(11), base(12), base(13), base(14)];
    let eq_r = [base(4), base(5)];
    let (c, sum) = meta().constraint_with_eq_r(
        2,
        &Query::EqRotateRight { row_weights: row_weights.clone() },
        &[base(1), base(2)],
        &[base(100)],
        &eq_r,
    );
    assert_eq!(
        c,
        ConcatConstraint::TensorProduct {
            range_start: 12,
            log_range_len: 2,
            row_weights,
            col_weights: eq_r.to_vec(),
        }
    );
    assert_eq!(sum, base(1 * 4 + 2 * 5));
}

#[test]
fn constraints_follow_the_queries_matrix_by_matrix() {
    let m = meta();
    let r = vec![base(100), base(101)];
    let eq_rs = vec![
        vec![base(1), base(2), base(3), base(4)],
        vec![base(1)],
        vec![base(6), base(7)],
    ];
    let queries = vec![
        vec![(Query::Eq(vec![base(9)]), vec![base(1), base(1), base(1)])],
        vec![],
        vec![
            (Query::Eq(vec![]), vec![base(2)]),
            (Query::EqRotateRight { row_weights: vec![base(5)] }, vec![base(1), base(1)]),
        ],
    ];
    let out = m.constraints_with_eq_r(&queries, &r, &eq_rs);
    assert_eq!(out.len(), 3);
    assert!(out[1].is_empty());
    for (idx, qs) in queries.iter().enumerate() {
        assert_eq!(out[idx].len(), qs.len());
        for (j, (q, ys)) in qs.iter().enumerate() {
            assert_eq!(out[idx][j], m.constraint_with_eq_r(idx, q, ys, &r, &eq_rs[idx]));
        }
    }
    assert_eq!(out[0][0].1, base(1 + 2 + 3));
    assert_eq!(out[2][1].1, base(6 + 7));
}

fn ext_mul_reference(a: Challenge, b: Challenge) -> [u128; 4] {
    let p: u128 = 0x7f00_0001;
    let a = [a.c0 as u128 % p, a.c1 as u128 % p, a.c2 as u128 % p, a.c3 as u128 % p];
    let b = [b.c0 as u128 % p, b.c1 as u128 % p, b.c2 as u128 % p, b.c3 as u128 % p];
    let mut c = [0u128; 4];
    for i in 0..4 {
        for j in 0..4 {
            let t = a[i] * b[j] % p;
            if i + j >= 4 {
                c[i + j - 4] = (c[i + j - 4] + 3 * t) % p;
            } else {
                c[i + j] = (c[i + j] + t) % p;
            }
        }
    }
    c
}

#[test]
fn constraint_sum_is_the_extension_dot_product() {
    // Full-width limbs, some at or above the modulus, on all four coefficients.
    let ys = [
        Challenge { c0: 0x7eff_ffff, c1: 0x1234_5678, c2: 0xffff_ffff, c3: 0x7f00_0001 },
        Challenge { c0: 17, c1: 0x7000_0000, c2: 3, c3: 0x6abc_def0 },
        Challenge { c0: 0x0bad_f00d, c1: 0, c2: 0x7f00_0000, c3: 5 },
    ];
    let eq_r = [
        Challenge { c0: 0x5555_5555, c1: 0x7eee_eeee, c2: 9, c3: 0x7f00_0000 },
        Challenge { c0: 1, c1: 2, c2: 0x7fff_ffff, c3: 4 },
        Challenge { c0: 0x6000_0000, c1: 0x0f0f_0f0f, c2: 0x7000_0001, c3: 0 },
        Challenge { c0: 99, c1: 98, c2: 97, c3: 96 },
    ];
    let r = [base(1), base(2)];
    let (_, sum) = meta().constraint_with_eq_r(0, &Query::Eq(vec![base(4)]), &ys, &r, &eq_r);
    let p: u128 = 0x7f00_0001;
    let mut acc = [0u128; 4];
    for k in 0..3 {
        let m = ext_mul_reference(ys[k], eq_r[k]);
        for i in 0..4 {
            acc[i] = (acc[i] + m[i]) % p;
        }
    }
    let expected = Challenge { c0: acc[0] as u32, c1: acc[1] as u32, c2: acc[2] as u32, c3: acc[3] as u32 };
    assert_eq!(sum, expected);
}

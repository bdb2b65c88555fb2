use zk_stark_core::field::{field_add, field_mul, field_sub, ORDER};
use zk_stark_core::fri::{
    ext_mul, final_poly_tail_is_zero, fold_coefficients, fri_commit_leaves, fri_query_indices,
    pow_accepted, reduce_with_powers, truncate_final_poly, Ext,
};

#[test]
fn field_arithmetic_wraps_at_order() {
    assert_eq!(field_add(ORDER - 1, 2), 1);
    assert_eq!(field_sub(1, 2), ORDER - 1);
    assert_eq!(field_mul(ORDER - 1, ORDER - 1), 1);
    assert_eq!(field_mul(1 << 32, 1 << 32), (1u64 << 32) - 1);
}

#[test]
fn fri_extension_multiplication() {
    assert_eq!(ext_mul((0, 1), (0, 1)), (7, 0));
    assert_eq!(ext_mul((2, 3), (4, 5)), (2 * 4 + 7 * 3 * 5, 2 * 5 + 3 * 4));
}

#[test]
fn fri_reduce_with_powers() {
    assert_eq!(reduce_with_powers(&[(1, 0), (2, 0), (3, 0)], (2, 0)), (17, 0));
    assert_eq!(reduce_with_powers(&[], (2, 0)), (0, 0));
}

#[test]
fn fri_fold_by_two() {
    let coeffs: Vec<Ext> = vec![(1, 0), (2, 0), (3, 0), (4, 0)];
    assert_eq!(fold_coefficients(&coeffs, 1, (10, 0)), vec![(21, 0), (43, 0)]);
    let by_four = fold_coefficients(&coeffs, 2, (10, 0));
    assert_eq!(by_four, vec![(1 + 20 + 300 + 4000, 0)]);
}

#[test]
fn fri_fold_keeps_low_degree() {
    let coeffs: Vec<Ext> = vec![(5, 1), (6, 2), (7, 3), (8, 4), (0, 0), (0, 0), (0, 0), (0, 0)];
    let folded = fold_coefficients(&coeffs, 1, (3, 9));
    assert_eq!(folded.len(), 4);
    assert_eq!(folded[2], (0, 0));
    assert_eq!(folded[3], (0, 0));
    assert_ne!(folded[0], (0, 0));
}

#[test]
fn fri_commit_leaves_bit_reverse_then_chunk() {
    let values: Vec<Ext> = vec![(0, 10), (1, 11), (2, 12), (3, 13)];
    let leaves = fri_commit_leaves(values, 1);
    assert_eq!(leaves, vec![vec![0, 10, 2, 12], vec![1, 11, 3, 13]]);
    let values: Vec<Ext> = (0..8).map(|i| (i, 0)).collect();
    let leaves = fri_commit_leaves(values, 0);
    let order: Vec<u64> = leaves.iter().map(|l| l[0]).collect();
    assert_eq!(order, vec![0, 4, 2, 6, 1, 5, 3, 7]);
}

#[test]
fn fri_query_indices_shift_by_arity() {
    assert_eq!(fri_query_indices(13, 8, &vec![1, 2]), vec![5, 2, 0]);
    assert_eq!(fri_query_indices(1000, 64, &vec![]), vec![40]);
}

#[test]
fn fri_low_degree_tail_accepted() {
    let mut coeffs: Vec<Ext> = vec![(1, 0), (2, 0), (3, 4), (5, 6), (0, 0), (0, 0), (0, 0), (0, 0)];
    assert!(final_poly_tail_is_zero(&coeffs, 1));
    truncate_final_poly(&mut coeffs, 1);
    assert_eq!(coeffs, vec![(1, 0), (2, 0), (3, 4), (5, 6)]);
}

#[test]
fn fri_high_degree_tail_rejected() {
    let mut coeffs: Vec<Ext> = vec![(1, 0), (2, 0), (3, 4), (5, 6), (0, 0), (0, 0), (0, 0), (0, 0)];
    coeffs[6] = (0, 1);
    assert!(!final_poly_tail_is_zero(&coeffs, 1));
    assert!(final_poly_tail_is_zero(&coeffs, 0));
}

#[test]
fn fri_proof_of_work_bar() {
    assert!(pow_accepted(1 << 50, 13));
    assert!(!pow_accepted(1 << 51, 13));
    assert!(pow_accepted(u64::MAX, 0));
    assert!(pow_accepted(0, 64));
    assert!(!pow_accepted(1, 64));
    assert!(!pow_accepted(0, 65));
}


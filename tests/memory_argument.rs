use zk_stark_core::field::ORDER;
use zk_stark_core::memory::{
    eval_memory, generate_first_change_flags, generate_memory, memory_range_check_value,
    sort_memory_ops, TransactionMemory,
};
use zk_stark_core::memory_registers::{
    memory_value_limb, sorted_memory_value_limb, MEMORY_ADDR_CONTEXT, MEMORY_ADDR_SEGMENT,
    MEMORY_ADDR_VIRTUAL, MEMORY_CONTEXT_FIRST_CHANGE, MEMORY_IS_READ, MEMORY_RANGE_CHECK,
    MEMORY_SEGMENT_FIRST_CHANGE, MEMORY_TIMESTAMP, MEMORY_VIRTUAL_FIRST_CHANGE,
    NUM_MEMORY_COLUMNS, SORTED_MEMORY_ADDR_CONTEXT, SORTED_MEMORY_ADDR_SEGMENT,
    SORTED_MEMORY_ADDR_VIRTUAL, SORTED_MEMORY_IS_READ, SORTED_MEMORY_TIMESTAMP,
};

/// (context, segment, virtual, value, is_read, timestamp); the value fills limb 0.
fn log_columns(ops: &[(u64, u64, u64, u64, u64, u64)]) -> Vec<Vec<u64>> {
    let mut cols = vec![vec![0u64; ops.len()]; NUM_MEMORY_COLUMNS];
    for (i, &(c, s, v, val, r, t)) in ops.iter().enumerate() {
        cols[MEMORY_ADDR_CONTEXT][i] = c;
        cols[MEMORY_ADDR_SEGMENT][i] = s;
        cols[MEMORY_ADDR_VIRTUAL][i] = v;
        cols[memory_value_limb(0)][i] = val;
        cols[memory_value_limb(3)][i] = val + 1;
        cols[MEMORY_IS_READ][i] = r;
        cols[MEMORY_TIMESTAMP][i] = t;
    }
    cols
}

fn row(cols: &[Vec<u64>], i: usize) -> Vec<u64> {
    (0..NUM_MEMORY_COLUMNS).map(|c| cols[c][i]).collect()
}

fn all_pairs_hold(cols: &[Vec<u64>]) -> bool {
    let n = cols[0].len();
    (0..n.saturating_sub(1)).all(|i| eval_memory(&row(cols, i), &row(cols, i + 1)))
}

#[test]
fn memory_two_ops_same_address() {
    let mut cols = log_columns(&[(0, 0, 0, 7, 1, 2), (0, 0, 0, 7, 0, 1)]);
    generate_memory(&mut cols);
    assert_eq!(cols[SORTED_MEMORY_TIMESTAMP], vec![1, 2]);
    assert_eq!(cols[sorted_memory_value_limb(0)], vec![7, 7]);
    assert_eq!(cols[SORTED_MEMORY_IS_READ], vec![0, 1]);
    assert_eq!(cols[MEMORY_RANGE_CHECK], vec![0, 0]);
    assert!(all_pairs_hold(&cols));

    // A read that does not return the stored value breaks the read identity.
    let mut bad = log_columns(&[(0, 0, 0, 5, 1, 2), (0, 0, 0, 7, 0, 1)]);
    generate_memory(&mut bad);
    assert_eq!(bad[sorted_memory_value_limb(0)], vec![7, 5]);
    assert!(!all_pairs_hold(&bad));
}

#[test]
fn memory_ordering_violation() {
    let mut cols = log_columns(&[(2, 0, 0, 1, 0, 1), (1, 0, 0, 1, 0, 2)]);
    generate_memory(&mut cols);
    // Generated: sorted, so the range-checked cell is a small difference.
    assert_eq!(cols[SORTED_MEMORY_ADDR_CONTEXT], vec![1, 2]);
    assert_eq!(cols[MEMORY_RANGE_CHECK][0], 0);
    // Hand-made sorted log with the contexts out of order.
    let mut local = row(&cols, 0);
    let mut next = row(&cols, 1);
    local[SORTED_MEMORY_ADDR_CONTEXT] = 2;
    next[SORTED_MEMORY_ADDR_CONTEXT] = 1;
    local[MEMORY_RANGE_CHECK] = memory_range_check_value(&local, &next);
    assert!(eval_memory(&local, &next));
    // 1 - 2 - 1 wraps to ORDER - 2: far outside any range argument.
    assert_eq!(local[MEMORY_RANGE_CHECK], ORDER - 2);
    assert!(local[MEMORY_RANGE_CHECK] >= 1u64 << 32);
}

#[test]
fn memory_generated_log_is_sorted_with_flags() {
    let ops = [
        (1, 0, 5, 10, 0, 7),
        (0, 2, 3, 11, 0, 3),
        (0, 2, 3, 11, 1, 9),
        (0, 1, 9, 12, 0, 4),
        (1, 0, 2, 13, 0, 8),
    ];
    let mut cols = log_columns(&ops);
    let before = cols.clone();
    generate_memory(&mut cols);
    for c in 0..SORTED_MEMORY_ADDR_CONTEXT {
        assert_eq!(cols[c], before[c]);
    }
    assert_eq!(cols[SORTED_MEMORY_ADDR_CONTEXT], vec![0, 0, 0, 1, 1]);
    assert_eq!(cols[SORTED_MEMORY_ADDR_SEGMENT], vec![1, 2, 2, 0, 0]);
    assert_eq!(cols[SORTED_MEMORY_ADDR_VIRTUAL], vec![9, 3, 3, 2, 5]);
    assert_eq!(cols[SORTED_MEMORY_TIMESTAMP], vec![4, 3, 9, 8, 7]);
    assert_eq!(cols[sorted_memory_value_limb(0)], vec![12, 11, 11, 13, 10]);
    assert_eq!(cols[sorted_memory_value_limb(3)], vec![13, 12, 12, 14, 11]);
    assert_eq!(cols[MEMORY_CONTEXT_FIRST_CHANGE], vec![0, 0, 1, 0, 0]);
    assert_eq!(cols[MEMORY_SEGMENT_FIRST_CHANGE], vec![1, 0, 0, 0, 0]);
    assert_eq!(cols[MEMORY_VIRTUAL_FIRST_CHANGE], vec![0, 0, 0, 1, 0]);
    // seg 1 -> 2, ts 3 -> 9, ctx 0 -> 1, virt 2 -> 5; the last row holds 0.
    assert_eq!(cols[MEMORY_RANGE_CHECK], vec![0, 5, 0, 2, 0]);
    assert!(all_pairs_hold(&cols));
}

#[test]
fn memory_equal_keys_rejected_by_range() {
    let mut cols = log_columns(&[(0, 0, 0, 4, 0, 1), (0, 0, 0, 4, 0, 1)]);
    generate_memory(&mut cols);
    assert_eq!(cols[MEMORY_RANGE_CHECK][0], ORDER - 1);
}

#[test]
fn memory_sort_is_stable() {
    let values = vec![vec![1u64], vec![2], vec![3], vec![4]];
    let (c, s, v, vals, r, t) = sort_memory_ops(
        &[1, 0, 1, 0],
        &[0, 0, 0, 0],
        &[0, 0, 0, 0],
        &values,
        &[0, 1, 0, 1],
        &[5, 5, 5, 5],
    );
    assert_eq!(c, vec![0, 0, 1, 1]);
    assert_eq!(s, vec![0, 0, 0, 0]);
    assert_eq!(v, vec![0, 0, 0, 0]);
    assert_eq!(vals, vec![vec![2], vec![4], vec![1], vec![3]]);
    assert_eq!(r, vec![1, 1, 0, 0]);
    assert_eq!(t, vec![5, 5, 5, 5]);
}

#[test]
fn memory_sort_empty_log() {
    let (c, _, _, vals, _, _) = sort_memory_ops(&[], &[], &[], &[], &[], &[]);
    assert!(c.is_empty());
    assert!(vals.is_empty());
}

#[test]
fn memory_first_change_flags_are_one_hot() {
    let (c, s, v) = generate_first_change_flags(&[1, 1, 1, 2, 2], &[0, 0, 3, 3, 3], &[4, 5, 5, 5, 5]);
    assert_eq!(c, vec![0, 0, 1, 0, 0]);
    assert_eq!(s, vec![0, 1, 0, 0, 0]);
    assert_eq!(v, vec![1, 0, 0, 0, 0]);
    let (c, s, v) = generate_first_change_flags(&[], &[], &[]);
    assert!(c.is_empty() && s.is_empty() && v.is_empty());
}

#[test]
fn memory_value_limb_columns() {
    assert_eq!(memory_value_limb(0), 3);
    assert_eq!(memory_value_limb(7), 10);
    assert_eq!(sorted_memory_value_limb(0), 16);
    assert_eq!(sorted_memory_value_limb(7), 23);
    assert_eq!(NUM_MEMORY_COLUMNS, 30);
}

#[test]
fn memory_transaction_default_is_empty() {
    let m = TransactionMemory::default();
    assert!(m.calls.is_empty());
}

#[test]
fn memory_rows_of_wrong_width_are_rejected() {
    assert!(!eval_memory(&vec![0u64; NUM_MEMORY_COLUMNS], &vec![0u64; NUM_MEMORY_COLUMNS - 1]));
}

#[test]
fn memory_single_op_log() {
    let mut cols = log_columns(&[(4, 5, 6, 7, 0, 8)]);
    generate_memory(&mut cols);
    assert_eq!(cols[SORTED_MEMORY_ADDR_CONTEXT], vec![4]);
    assert_eq!(cols[MEMORY_CONTEXT_FIRST_CHANGE], vec![0]);
    assert_eq!(cols[MEMORY_RANGE_CHECK], vec![0]);
}

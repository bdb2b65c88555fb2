use zk_stark_core::circuit::CircuitBuilder;
use zk_stark_core::memory::{eval_memory, eval_memory_recursively, generate_memory};
use zk_stark_core::memory_registers::{
    memory_value_limb, MEMORY_ADDR_CONTEXT, MEMORY_ADDR_SEGMENT, MEMORY_ADDR_VIRTUAL,
    MEMORY_IS_READ, MEMORY_TIMESTAMP, NUM_MEMORY_COLUMNS,
};

fn trace(ops: &[(u64, u64, u64, u64, u64, u64)]) -> Vec<Vec<u64>> {
    let mut cols = vec![vec![0u64; ops.len()]; NUM_MEMORY_COLUMNS];
    for (i, &(c, s, v, val, r, t)) in ops.iter().enumerate() {
        cols[MEMORY_ADDR_CONTEXT][i] = c;
        cols[MEMORY_ADDR_SEGMENT][i] = s;
        cols[MEMORY_ADDR_VIRTUAL][i] = v;
        cols[memory_value_limb(1)][i] = val;
        cols[MEMORY_IS_READ][i] = r;
        cols[MEMORY_TIMESTAMP][i] = t;
    }
    generate_memory(&mut cols);
    cols
}

fn row(cols: &[Vec<u64>], i: usize) -> Vec<u64> {
    (0..NUM_MEMORY_COLUMNS).map(|c| cols[c][i]).collect()
}

/// The emitted constraint wires evaluated on the pair (row i, row i + 1).
fn circuit_values(cols: &[Vec<u64>], i: usize) -> Vec<u64> {
    let mut builder = CircuitBuilder::new();
    let local: Vec<usize> = (0..NUM_MEMORY_COLUMNS).map(|c| builder.add_virtual_target(c)).collect();
    let next: Vec<usize> = (0..NUM_MEMORY_COLUMNS)
        .map(|c| builder.add_virtual_target(NUM_MEMORY_COLUMNS + c))
        .collect();
    let outs = eval_memory_recursively(&mut builder, &local, &next);
    assert_eq!(outs.len(), 16);
    let mut witness = row(cols, i);
    witness.extend(row(cols, i + 1));
    let wires = builder.evaluate(&witness);
    outs.iter().map(|&t| wires[t]).collect()
}

#[test]
fn memory_circuit_agrees_with_native_evaluation() {
    let good = trace(&[(0, 1, 2, 9, 0, 1), (0, 1, 2, 9, 1, 4), (3, 0, 0, 5, 0, 2)]);
    for i in 0..2 {
        assert!(eval_memory(&row(&good, i), &row(&good, i + 1)));
        assert!(circuit_values(&good, i).iter().all(|&v| v == 0));
    }
    let bad = trace(&[(0, 1, 2, 9, 0, 1), (0, 1, 2, 8, 1, 4)]);
    assert!(!eval_memory(&row(&bad, 0), &row(&bad, 1)));
    let values = circuit_values(&bad, 0);
    // Only the read identity of limb 1 fails: 1 * 1 * (8 - 9).
    for (k, &v) in values.iter().enumerate() {
        if k == 9 {
            assert_eq!(v, 0xFFFF_FFFF_0000_0000);
        } else {
            assert_eq!(v, 0);
        }
    }
}

use zk_stark_core::circuit::CircuitBuilder;
use zk_stark_core::keccak::Keccak;
use zk_stark_core::keccak_registers::{
    reg_a_prime, reg_c, reg_step, NUM_REGISTERS, REG_A_PRIME_PRIME_PRIME_0_0_HI,
};

fn circuit_outputs(row: &[u64]) -> Vec<u64> {
    let k = Keccak;
    let mut builder = CircuitBuilder::new();
    let local: Vec<usize> = (0..NUM_REGISTERS).map(|c| builder.add_virtual_target(c)).collect();
    let outs = k.eval_ext_recursively(&mut builder, &local);
    assert_eq!(outs.len(), 2383);
    let wires = builder.evaluate(&row.to_vec());
    outs.iter().map(|&t| wires[t]).collect()
}

#[test]
fn keccak_circuit_vanishes_on_generated_rows() {
    let k = Keccak;
    let rows = k.generate_trace_rows(vec![[0x1111_2222_3333_4444u64; 25]]);
    for r in [0usize, 7, 23] {
        assert!(circuit_outputs(&rows[r]).iter().all(|&v| v == 0));
    }
}

#[test]
fn keccak_circuit_flags_tampered_cells() {
    let k = Keccak;
    let rows = k.generate_trace_rows(vec![[9u64; 25]]);
    let mut row = rows[3].clone();
    row[reg_c(1, 5)] ^= 1;
    let values = circuit_outputs(&row);
    // The C identity at (1, 5) and the A' identities that read C[1, 5] fail.
    assert_ne!(values[320 + 64 + 5], 0);
    assert!(values[..320].iter().all(|&v| v == 0));
    let mut row = rows[3].clone();
    row[reg_a_prime(2, 3, 4)] ^= 1;
    let values = circuit_outputs(&row);
    assert_ne!(values[640 + 2 * 320 + 3 * 64 + 4], 0);
}

#[test]
fn keccak_circuit_flags_round_flags_and_iota() {
    let k = Keccak;
    let rows = k.generate_trace_rows(vec![[0u64; 25]]);
    let mut row = rows[2].clone();
    row[REG_A_PRIME_PRIME_PRIME_0_0_HI] ^= 1;
    let values = circuit_outputs(&row);
    assert_ne!(values[2382], 0);
    assert!(values[..2382].iter().all(|&v| v == 0));
    let mut row = rows[2].clone();
    row[reg_step(5)] = 1;
    let values = circuit_outputs(&row);
    // Two flags set: the sum identity fails, and iota reads the wrong constant.
    assert_ne!(values[2314], 0);
    assert!(values[2290..2314].iter().all(|&v| v == 0));
}

fn transition_outputs(local: &[u64], next: &[u64]) -> Vec<u64> {
    let k = Keccak;
    let mut builder = CircuitBuilder::new();
    let l: Vec<usize> = (0..NUM_REGISTERS).map(|c| builder.add_virtual_target(c)).collect();
    let n: Vec<usize> = (0..NUM_REGISTERS).map(|c| builder.add_virtual_target(NUM_REGISTERS + c)).collect();
    let outs = k.eval_transition_recursively(&mut builder, &l, &n);
    assert_eq!(outs.len(), 74);
    let mut witness = local.to_vec();
    witness.extend_from_slice(next);
    let wires = builder.evaluate(&witness);
    outs.iter().map(|&t| wires[t]).collect()
}

#[test]
fn keccak_transition_circuit_matches_native() {
    let k = Keccak;
    let rows = k.generate_trace_rows(vec![[0xdead_beefu64; 25], [1u64; 25]]);
    for i in [0usize, 10, 22, 23, 30] {
        assert!(k.eval_transition_constraints(&rows[i], &rows[i + 1]));
        assert!(transition_outputs(&rows[i], &rows[i + 1]).iter().all(|&v| v == 0));
    }
    let mut next = rows[6].clone();
    next[zk_stark_core::keccak_registers::reg_a(2, 2, 2)] ^= 1;
    assert!(!k.eval_transition_constraints(&rows[5], &next));
    let values = transition_outputs(&rows[5], &next);
    // Lane (2, 2) is link 12; bit 2 is in its low half.
    assert_ne!(values[24 + 2 * 12], 0);
    assert_eq!(values.iter().filter(|&&v| v != 0).count(), 1);
}

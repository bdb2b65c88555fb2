use zk_stark_core::keccak::Keccak;
use zk_stark_core::keccak_registers::{
    rc_value_bit, reg_a, reg_a_prime, reg_a_prime_prime, reg_b, reg_c, reg_c_partial,
    reg_step, NUM_REGISTERS, REG_A_PRIME_PRIME_PRIME_0_0_HI, REG_A_PRIME_PRIME_PRIME_0_0_LO,
};

fn lane_out(row: &[u64], x: usize, y: usize) -> u64 {
    if x == 0 && y == 0 {
        row[REG_A_PRIME_PRIME_PRIME_0_0_LO] | (row[REG_A_PRIME_PRIME_PRIME_0_0_HI] << 32)
    } else {
        let r = reg_a_prime_prime(x, y);
        row[r] | (row[r + 1] << 32)
    }
}

#[test]
fn keccak_zero_state_matches_reference() {
    let k = Keccak;
    let rows = k.generate_trace_rows(vec![[0u64; 25]]);
    assert_eq!(rows.len(), 32);
    let last = &rows[23];
    assert_eq!(lane_out(last, 0, 0), 0xF1258F7940E1DDE7);
    assert_eq!(lane_out(last, 1, 0), 0x84D5CCF933C0478A);
    assert!(k.check_trace(&rows));
}

#[test]
fn keccak_bit_zero_set() {
    let k = Keccak;
    let mut input = [0u64; 25];
    input[0] = 1;
    let rows = k.generate_trace_rows(vec![input]);
    let row = &rows[0];
    for x in 0..5 {
        for y in 0..5 {
            for z in 0..64 {
                let expected = if x == 0 && y == 0 && z == 0 { 1 } else { 0 };
                assert_eq!(row[reg_a(x, y, z)], expected);
            }
        }
    }
    for x in 0..5 {
        for z in 0..64 {
            let expected = if x == 0 && z == 0 { 1 } else { 0 };
            assert_eq!(row[reg_c_partial(x, z)], expected);
            assert_eq!(row[reg_c(x, z)], expected);
        }
    }
    let mut ones = 0;
    for x in 0..5 {
        for y in 0..5 {
            for z in 0..64 {
                let expected = if (x == 0 && y == 0 && z == 0) || (x == 1 && z == 0) || (x == 4 && z == 1) {
                    1
                } else {
                    0
                };
                assert_eq!(row[reg_a_prime(x, y, z)], expected);
                ones += row[reg_a_prime(x, y, z)];
            }
        }
    }
    assert_eq!(ones, 11);
    assert!(k.check_trace(&rows));
}

#[test]
fn keccak_trace_pads_to_power_of_two() {
    let k = Keccak;
    let rows = k.generate_trace_rows(vec![[1u64; 25], [2u64; 25], [0x0123_4567_89ab_cdefu64; 25]]);
    assert_eq!(rows.len(), 128);
    for (i, row) in rows.iter().enumerate() {
        assert_eq!(row.len(), NUM_REGISTERS);
        for r in 0..24 {
            assert_eq!(row[reg_step(r)], if r == i % 24 { 1 } else { 0 });
        }
    }
    assert!(k.check_trace(&rows));
}

#[test]
fn keccak_empty_batch_has_one_row() {
    let k = Keccak;
    let rows = k.generate_trace_rows(vec![]);
    assert_eq!(rows.len(), 1);
    assert!(k.check_trace(&rows));
}

#[test]
fn keccak_round_chaining_follows_permutation() {
    let k = Keccak;
    let rows = k.generate_trace_rows(vec![[7u64; 25]]);
    // Row r + 1's A holds row r's output lanes.
    for r in 0..23 {
        for x in 0..5 {
            for y in 0..5 {
                let lane = lane_out(&rows[r], x, y);
                for z in 0..64 {
                    assert_eq!(rows[r + 1][reg_a(x, y, z)], (lane >> z) & 1);
                }
            }
        }
    }
}

#[test]
fn keccak_tampered_cells_are_rejected() {
    let k = Keccak;
    let rows = k.generate_trace_rows(vec![[3u64; 25]]);
    assert!(k.eval_row_constraints(&rows[5]));
    let mut bad = rows[5].clone();
    bad[reg_c(2, 17)] ^= 1;
    assert!(!k.eval_row_constraints(&bad));
    let mut bad = rows[5].clone();
    bad[REG_A_PRIME_PRIME_PRIME_0_0_LO] ^= 4;
    assert!(!k.eval_row_constraints(&bad));
    assert!(k.eval_transition_constraints(&rows[5], &rows[6]));
    let mut next = rows[6].clone();
    next[reg_a(3, 1, 40)] ^= 1;
    assert!(!k.eval_transition_constraints(&rows[5], &next));
    // Across the end of a permutation the states are not linked.
    let rows2 = k.generate_trace_rows(vec![[3u64; 25], [9u64; 25]]);
    assert!(k.eval_transition_constraints(&rows2[23], &rows2[24]));
    let mut bad_rows = rows2.clone();
    bad_rows[30][reg_c_partial(0, 0)] ^= 1;
    assert!(!k.check_trace(&bad_rows));
}

#[test]
fn keccak_generate_trace_is_column_major() {
    let k = Keccak;
    let inputs = vec![[5u64; 25]];
    let rows = k.generate_trace_rows(inputs.clone());
    let cols = k.generate_trace(inputs);
    assert_eq!(cols.len(), NUM_REGISTERS);
    for c in [0usize, 100, 2000, NUM_REGISTERS - 1] {
        for i in 0..rows.len() {
            assert_eq!(cols[c][i], rows[i][c]);
        }
    }
}

#[test]
fn keccak_register_layout() {
    assert_eq!(reg_a(0, 0, 0), 24);
    assert_eq!(reg_a(4, 4, 63), 1623);
    assert_eq!(reg_c_partial(0, 0), 1624);
    assert_eq!(reg_c(4, 63), 2263);
    assert_eq!(reg_a_prime(0, 0, 0), 2264);
    assert_eq!(reg_a_prime_prime(4, 4), 3912);
    assert_eq!(reg_b(0, 0, 5), reg_a_prime(0, 0, 5));
    // B[1, 0] is lane A'[1, 1] rotated left by 44.
    assert_eq!(reg_b(1, 0, 0), reg_a_prime(1, 1, 20));
    assert_eq!(reg_b(1, 0, 44), reg_a_prime(1, 1, 0));
    assert_eq!(NUM_REGISTERS, 3980);
}

#[test]
fn keccak_round_constant_bits() {
    assert_eq!(rc_value_bit(0, 0), 1);
    assert_eq!(rc_value_bit(0, 1), 0);
    let rc1: u64 = (0..64).map(|i| rc_value_bit(1, i) << i).sum();
    assert_eq!(rc1, 0x0000000000008082);
    let rc23: u64 = (0..64).map(|i| rc_value_bit(23, i) << i).sum();
    assert_eq!(rc23, 0x8000000080008008);
}

#[test]
fn keccak_default_and_degree() {
    let k = Keccak::default();
    assert_eq!(k.constraint_degree(), 3);
}

#[test]
fn keccak_round_generation_on_single_row() {
    let k = Keccak;
    let perm = k.generate_trace_rows_for_perm([0u64; 25]);
    assert_eq!(perm.len(), 24);
    let mut row = perm[4].clone();
    // Refill every register but A from the A registers: the row is unchanged.
    for c in 0..NUM_REGISTERS {
        if !(24..1624).contains(&c) {
            row[c] = 0;
        }
    }
    k.generate_trace_rows_for_round(&mut row, 4);
    assert_eq!(row, perm[4]);
    assert!(k.eval_row_constraints(&row));
}

#[test]
fn keccak_rows_of_wrong_width_are_rejected() {
    let k = Keccak;
    assert!(!k.eval_row_constraints(&vec![0u64; NUM_REGISTERS - 1]));
    let rows = k.generate_trace_rows(vec![[0u64; 25]]);
    assert!(!k.eval_transition_constraints(&rows[0], &vec![0u64; 3]));
}

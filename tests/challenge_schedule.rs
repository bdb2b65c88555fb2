use zk_stark_core::challenges::{AllProof, ChallengerOp, FriConfig, FriProof, StarkConfig, StarkProof};

fn config() -> StarkConfig {
    StarkConfig {
        num_challenges: 2,
        fri_config: FriConfig {
            rate_bits: 1,
            cap_height: 0,
            proof_of_work_bits: 8,
            num_query_rounds: 3,
            reduction_arity_bits: vec![1],
        },
    }
}

fn stark_proof(seed: u64) -> StarkProof {
    StarkProof {
        trace_cap: vec![seed, seed + 1],
        auxiliary_polys_cap: vec![seed + 2],
        quotient_polys_cap: vec![seed + 3],
        openings: vec![(seed + 4, seed + 5)],
        opening_proof: FriProof {
            commit_phase_merkle_caps: vec![vec![seed + 6]],
            final_poly: vec![(seed + 7, seed + 8)],
            pow_witness: seed + 9,
        },
    }
}

use ChallengerOp::{Compact, Draw, Observe};

#[test]
fn challenger_schedule_single_table() {
    let all = AllProof { stark_proofs: vec![stark_proof(100)] };
    let ops = all.get_challenges(&vec![true], &config());
    let expected = vec![
        Observe(100), Observe(101),
        Draw, Draw, Draw, Draw,
        Compact,
        Draw, Draw,
        Observe(102),
        Draw, Draw,
        Observe(103),
        Draw, Draw,
        Observe(104), Observe(105),
        Draw, Draw,
        Observe(106), Draw, Draw,
        Observe(107), Observe(108),
        Observe(109), Draw,
        Draw, Draw, Draw,
    ];
    assert_eq!(ops, expected);
}

#[test]
fn challenger_schedule_two_tables() {
    let all = AllProof { stark_proofs: vec![stark_proof(0), stark_proof(50)] };
    let ops = all.get_challenges(&vec![false, true], &config());
    // Both trace caps come first.
    assert_eq!(&ops[0..4], &[Observe(0), Observe(1), Observe(50), Observe(51)]);
    let compacts: Vec<usize> = ops.iter().enumerate().filter(|(_, o)| **o == Compact).map(|(i, _)| i).collect();
    assert_eq!(compacts.len(), 2);
    assert_eq!(compacts[0], 8);
    let (ops2, states) = all.get_challenger_states(&vec![false, true], &config());
    assert_eq!(ops2, ops);
    assert_eq!(states, vec![8, compacts[1], ops.len()]);
}

#[test]
fn challenger_schedule_is_deterministic() {
    let a = AllProof { stark_proofs: vec![stark_proof(7), stark_proof(8)] };
    let b = AllProof { stark_proofs: vec![stark_proof(7), stark_proof(8)] };
    assert_eq!(a.get_challenges(&vec![true, false], &config()), b.get_challenges(&vec![true, false], &config()));
    let c = AllProof { stark_proofs: vec![stark_proof(7), stark_proof(9)] };
    assert_ne!(a.get_challenges(&vec![true, false], &config()), c.get_challenges(&vec![true, false], &config()));
}

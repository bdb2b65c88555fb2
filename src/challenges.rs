//! The Fiat-Shamir schedule: the order in which a proof's commitments are observed
//! and its challenges drawn. Prover and verifier run the same schedule through the
//! challenger's sponge.
use crate::fri::Ext;
use vstd::prelude::*;

verus! {

/// One step of the challenger.
#[derive(PartialEq, Eq, Structural, Clone, Copy, Debug)]
pub enum ChallengerOp {
    /// Absorb one base-field element.
    Observe(u64),
    /// Squeeze one base-field challenge.
    Draw,
    /// Separate two tables: absorb what is buffered and restart the output.
    Compact,
}

pub struct FriConfig {
    pub rate_bits: usize,
    pub cap_height: usize,
    pub proof_of_work_bits: u32,
    pub num_query_rounds: usize,
    pub reduction_arity_bits: Vec<usize>,
}

pub struct StarkConfig {
    pub num_challenges: usize,
    pub fri_config: FriConfig,
}

/// The part of a FRI proof that the challenger sees.
pub struct FriProof {
    /// The caps of the commit-phase trees, each flattened to base-field elements.
    pub commit_phase_merkle_caps: Vec<Vec<u64>>,
    pub final_poly: Vec<Ext>,
    pub pow_witness: u64,
}

pub struct StarkProof {
    pub trace_cap: Vec<u64>,
    pub auxiliary_polys_cap: Vec<u64>,
    pub quotient_polys_cap: Vec<u64>,
    /// The claimed openings at zeta and g * zeta.
    pub openings: Vec<Ext>,
    pub opening_proof: FriProof,
}

pub struct AllProof {
    pub stark_proofs: Vec<StarkProof>,
}

pub open spec fn observe_ops(elems: Seq<u64>) -> Seq<ChallengerOp> {
    Seq::new(elems.len(), |i: int| ChallengerOp::Observe(elems[i]))
}

pub open spec fn draw_ops(n: nat) -> Seq<ChallengerOp> {
    Seq::new(n, |i: int| ChallengerOp::Draw)
}

/// Extension elements as base-field elements: `c0, c1` of each in turn.
pub open spec fn ext_elems(v: Seq<Ext>) -> Seq<u64> {
    Seq::new(2 * v.len(), |i: int| if i % 2 == 0 { v[i / 2].0 } else { v[i / 2].1 })
}

/// For each commit-phase cap: observe it, then draw the folding challenge beta.
pub open spec fn caps_ops(caps: Seq<Vec<u64>>) -> Seq<ChallengerOp>
    decreases caps.len(),
{
    if caps.len() == 0 {
        seq![]
    } else {
        caps_ops(caps.drop_last()) + observe_ops(caps.last()@) + draw_ops(2)
    }
}

/// The FRI challenges: alpha, the betas, the final polynomial, the proof of work and
/// its response, then one draw per query round.
pub open spec fn fri_ops(proof: FriProof, config: FriConfig) -> Seq<ChallengerOp> {
    draw_ops(2) + caps_ops(proof.commit_phase_merkle_caps@) + observe_ops(ext_elems(proof.final_poly@))
        + observe_ops(seq![proof.pow_witness]) + draw_ops(1) + draw_ops(config.num_query_rounds as nat)
}

/// The schedule of one table: lookup challenges if it uses lookups, the auxiliary
/// cap, the alphas, the quotient cap, zeta, the openings, then FRI.
pub open spec fn stark_ops(proof: StarkProof, use_lookup: bool, config: StarkConfig) -> Seq<ChallengerOp> {
    let nc = config.num_challenges as nat;
    (if use_lookup { draw_ops(nc) } else { seq![] }) + observe_ops(proof.auxiliary_polys_cap@)
        + draw_ops(nc) + observe_ops(proof.quotient_polys_cap@) + draw_ops(2) + observe_ops(
        ext_elems(proof.openings@),
    ) + fri_ops(proof.opening_proof, config.fri_config)
}

/// Observing every table's trace cap, in table order.
pub open spec fn trace_caps_ops(proofs: Seq<StarkProof>) -> Seq<ChallengerOp>
    decreases proofs.len(),
{
    if proofs.len() == 0 {
        seq![]
    } else {
        trace_caps_ops(proofs.drop_last()) + observe_ops(proofs.last().trace_cap@)
    }
}

/// Each table's schedule, with the challenger compacted before it.
pub open spec fn tables_ops(proofs: Seq<StarkProof>, lookups: Seq<bool>, config: StarkConfig) -> Seq<ChallengerOp>
    decreases proofs.len(),
{
    if proofs.len() == 0 {
        seq![]
    } else {
        let k = proofs.len() - 1;
        tables_ops(proofs.drop_last(), lookups, config) + seq![ChallengerOp::Compact] + stark_ops(
            proofs[k],
            lookups[k],
            config,
        )
    }
}

/// The whole schedule: the trace caps, the cross-table lookup challenges (a pair
/// for each of `num_challenges`), then every table.
pub open spec fn all_ops(proofs: Seq<StarkProof>, lookups: Seq<bool>, config: StarkConfig) -> Seq<ChallengerOp> {
    trace_caps_ops(proofs) + draw_ops(2 * config.num_challenges as nat) + tables_ops(proofs, lookups, config)
}

fn observe_all(ops: &mut Vec<ChallengerOp>, elems: &Vec<u64>)
    ensures
        final(ops)@ == old(ops)@ + observe_ops(elems@),
{
    let ghost start = ops@;
    let mut i: usize = 0;
    while i < elems.len()
        invariant
            i <= elems@.len(),
            ops@ == start + observe_ops(elems@.subrange(0, i as int)),
        decreases elems@.len() - i,
    {
        ops.push(ChallengerOp::Observe(elems[i]));
        i = i + 1;
        assert(ops@ =~= start + observe_ops(elems@.subrange(0, i as int)));
    }
    assert(elems@.subrange(0, elems@.len() as int) =~= elems@);
}

fn observe_ext_all(ops: &mut Vec<ChallengerOp>, elems: &Vec<Ext>)
    ensures
        final(ops)@ == old(ops)@ + observe_ops(ext_elems(elems@)),
{
    let ghost start = ops@;
    let mut i: usize = 0;
    while i < elems.len()
        invariant
            i <= elems@.len(),
            ops@ == start + observe_ops(ext_elems(elems@.subrange(0, i as int))),
        decreases elems@.len() - i,
    {
        let e = elems[i];
        ops.push(ChallengerOp::Observe(e.0));
        ops.push(ChallengerOp::Observe(e.1));
        i = i + 1;
        assert(ops@ =~= start + observe_ops(ext_elems(elems@.subrange(0, i as int))));
    }
    assert(elems@.subrange(0, elems@.len() as int) =~= elems@);
}

fn draw_n(ops: &mut Vec<ChallengerOp>, n: usize)
    ensures
        final(ops)@ == old(ops)@ + draw_ops(n as nat),
{
    let ghost start = ops@;
    let mut i: usize = 0;
    while i < n
        invariant
            i <= n,
            ops@ == start + draw_ops(i as nat),
        decreases n - i,
    {
        ops.push(ChallengerOp::Draw);
        i = i + 1;
        assert(ops@ =~= start + draw_ops(i as nat));
    }
}

impl FriProof {
    /// Appends the FRI part of the schedule.
    pub fn fri_challenges(&self, ops: &mut Vec<ChallengerOp>, config: &FriConfig)
        ensures
            final(ops)@ == old(ops)@ + fri_ops(*self, *config),
    {
        let ghost start = ops@;
        draw_n(ops, 2);
        let ghost after_alpha = ops@;
        let mut i: usize = 0;
        while i < self.commit_phase_merkle_caps.len()
            invariant
                i <= self.commit_phase_merkle_caps@.len(),
                ops@ == after_alpha + caps_ops(self.commit_phase_merkle_caps@.subrange(0, i as int)),
            decreases self.commit_phase_merkle_caps@.len() - i,
        {
            observe_all(ops, &self.commit_phase_merkle_caps[i]);
            draw_n(ops, 2);
            proof {
                let caps = self.commit_phase_merkle_caps@.subrange(0, i + 1);
                assert(caps.drop_last() =~= self.commit_phase_merkle_caps@.subrange(0, i as int));
            }
            i = i + 1;
            assert(ops@ =~= after_alpha + caps_ops(self.commit_phase_merkle_caps@.subrange(0, i as int)));
        }
        assert(self.commit_phase_merkle_caps@.subrange(0, i as int) =~= self.commit_phase_merkle_caps@);
        observe_ext_all(ops, &self.final_poly);
        ops.push(ChallengerOp::Observe(self.pow_witness));
        assert(observe_ops(seq![self.pow_witness]) =~= seq![ChallengerOp::Observe(self.pow_witness)]);
        draw_n(ops, 1);
        draw_n(ops, config.num_query_rounds);
        assert(ops@ =~= start + fri_ops(*self, *config));
    }
}


impl StarkProof {
    /// Appends one table's schedule.
    pub fn get_challenges(&self, ops: &mut Vec<ChallengerOp>, stark_use_lookup: bool, config: &StarkConfig)
        ensures
            final(ops)@ == old(ops)@ + stark_ops(*self, stark_use_lookup, *config),
    {
        let ghost start = ops@;
        let num_challenges = config.num_challenges;
        if stark_use_lookup {
            draw_n(ops, num_challenges);
        }
        let ghost after_lookup = ops@;
        assert(after_lookup == start + (if stark_use_lookup { draw_ops(num_challenges as nat) } else { seq![] })) by {
            if !stark_use_lookup {
                assert(start + seq![] =~= start);
            }
        }
        observe_all(ops, &self.auxiliary_polys_cap);
        draw_n(ops, num_challenges);
        observe_all(ops, &self.quotient_polys_cap);
        draw_n(ops, 2);
        observe_ext_all(ops, &self.openings);
        self.opening_proof.fri_challenges(ops, &config.fri_config);
        assert(ops@ =~= start + stark_ops(*self, stark_use_lookup, *config));
    }
}

impl AllProof {
    fn observe_trace_caps(&self, ops: &mut Vec<ChallengerOp>)
        ensures
            final(ops)@ == old(ops)@ + trace_caps_ops(self.stark_proofs@),
    {
        let ghost start = ops@;
        let mut i: usize = 0;
        while i < self.stark_proofs.len()
            invariant
                i <= self.stark_proofs@.len(),
                ops@ == start + trace_caps_ops(self.stark_proofs@.subrange(0, i as int)),
            decreases self.stark_proofs@.len() - i,
        {
            observe_all(ops, &self.stark_proofs[i].trace_cap);
            proof {
                let ps = self.stark_proofs@.subrange(0, i + 1);
                assert(ps.drop_last() =~= self.stark_proofs@.subrange(0, i as int));
            }
            i = i + 1;
            assert(ops@ =~= start + trace_caps_ops(self.stark_proofs@.subrange(0, i as int)));
        }
        assert(self.stark_proofs@.subrange(0, i as int) =~= self.stark_proofs@);
    }

    /// The whole Fiat-Shamir schedule of a multi-table proof; `lookups[t]` says
    /// whether table `t` uses lookups.
    pub fn get_challenges(&self, lookups: &Vec<bool>, config: &StarkConfig) -> (ops: Vec<ChallengerOp>)
        requires
            lookups@.len() == self.stark_proofs@.len(),
            config.num_challenges <= usize::MAX / 2,
        ensures
            ops@ == all_ops(self.stark_proofs@, lookups@, *config),
    {
        let mut ops: Vec<ChallengerOp> = Vec::new();
        self.observe_trace_caps(&mut ops);
        // The cross-table lookup challenges: a pair for each of `num_challenges`.
        draw_n(&mut ops, 2 * config.num_challenges);
        let ghost start = ops@;
        let mut i: usize = 0;
        while i < self.stark_proofs.len()
            invariant
                lookups@.len() == self.stark_proofs@.len(),
                i <= self.stark_proofs@.len(),
                ops@ == start + tables_ops(self.stark_proofs@.subrange(0, i as int), lookups@, *config),
            decreases self.stark_proofs@.len() - i,
        {
            ops.push(ChallengerOp::Compact);
            self.stark_proofs[i].get_challenges(&mut ops, lookups[i], config);
            proof {
                let ps = self.stark_proofs@.subrange(0, i + 1);
                assert(ps.drop_last() =~= self.stark_proofs@.subrange(0, i as int));
                assert(ps[i as int] == self.stark_proofs@[i as int]);
            }
            i = i + 1;
            assert(ops@ =~= start + tables_ops(self.stark_proofs@.subrange(0, i as int), lookups@, *config));
        }
        assert(self.stark_proofs@.subrange(0, i as int) =~= self.stark_proofs@);
        assert(ops@ =~= all_ops(self.stark_proofs@, lookups@, *config));
        ops
    }

    /// The schedule together with the positions at which the challenger's state is
    /// recorded: after the cross-table lookup challenges, and after each table.
    pub fn get_challenger_states(&self, lookups: &Vec<bool>, config: &StarkConfig) -> (r: (Vec<ChallengerOp>, Vec<usize>))
        requires
            lookups@.len() == self.stark_proofs@.len(),
            config.num_challenges <= usize::MAX / 2,
        ensures
            r.0@ == all_ops(self.stark_proofs@, lookups@, *config),
            r.1@.len() == self.stark_proofs@.len() + 1,
            r.1@[0] == trace_caps_ops(self.stark_proofs@).len() + 2 * config.num_challenges,
            forall|t: int|
                0 <= t < self.stark_proofs@.len() ==> #[trigger] r.1@[t + 1] as int == trace_caps_ops(self.stark_proofs@).len()
                    + 2 * config.num_challenges + tables_ops(self.stark_proofs@.subrange(0, t + 1), lookups@, *config).len(),
    {
        let mut ops: Vec<ChallengerOp> = Vec::new();
        self.observe_trace_caps(&mut ops);
        draw_n(&mut ops, 2 * config.num_challenges);
        let ghost start = ops@;
        let mut states: Vec<usize> = Vec::new();
        states.push(ops.len());
        let mut i: usize = 0;
        while i < self.stark_proofs.len()
            invariant
                lookups@.len() == self.stark_proofs@.len(),
                i <= self.stark_proofs@.len(),
                start.len() == trace_caps_ops(self.stark_proofs@).len() + 2 * config.num_challenges,
                ops@ == start + tables_ops(self.stark_proofs@.subrange(0, i as int), lookups@, *config),
                states@.len() == i + 1,
                states@[0] == start.len(),
                forall|t: int|
                    0 <= t < i ==> #[trigger] states@[t + 1] as int == start.len() + tables_ops(
                        self.stark_proofs@.subrange(0, t + 1),
                        lookups@,
                        *config,
                    ).len(),
            decreases self.stark_proofs@.len() - i,
        {
            ops.push(ChallengerOp::Compact);
            self.stark_proofs[i].get_challenges(&mut ops, lookups[i], config);
            proof {
                let ps = self.stark_proofs@.subrange(0, i + 1);
                assert(ps.drop_last() =~= self.stark_proofs@.subrange(0, i as int));
                assert(ps[i as int] == self.stark_proofs@[i as int]);
            }
            i = i + 1;
            assert(ops@ =~= start + tables_ops(self.stark_proofs@.subrange(0, i as int), lookups@, *config));
            states.push(ops.len());
        }
        assert(self.stark_proofs@.subrange(0, i as int) =~= self.stark_proofs@);
        assert(ops@ =~= all_ops(self.stark_proofs@, lookups@, *config));
        (ops, states)
    }
}

} // verus!

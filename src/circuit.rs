//! A circuit of field-arithmetic gates: the back end in which the constraint sets
//! are emitted for recursive verification. Each gate defines one wire; a target is
//! the index of a wire.
use crate::field::{
    fadd, field_add, field_mul, field_sub, fmul, fsub, lemma_field_results_canonical, ORDER,
};
use vstd::prelude::*;

verus! {

pub type Target = usize;

#[derive(PartialEq, Eq, Structural, Clone, Copy, Debug)]
pub enum Gate {
    /// The value of witness input `i`.
    Input(usize),
    /// A canonical field constant.
    Constant(u64),
    Add(usize, usize),
    Sub(usize, usize),
    Mul(usize, usize),
}

/// A gate reads only wires defined before it.
pub open spec fn gate_ok(g: Gate, k: int) -> bool {
    match g {
        Gate::Input(_) => true,
        Gate::Constant(c) => c < ORDER,
        Gate::Add(a, b) => a < k && b < k,
        Gate::Sub(a, b) => a < k && b < k,
        Gate::Mul(a, b) => a < k && b < k,
    }
}

pub open spec fn gates_wf(gates: Seq<Gate>) -> bool {
    forall|k: int| 0 <= k < gates.len() ==> gate_ok(#[trigger] gates[k], k)
}

/// The value of wire `t` on the witness `inputs`.
pub open spec fn wire_value(gates: Seq<Gate>, inputs: Seq<u64>, t: int) -> int
    decreases t,
{
    if t < 0 || t >= gates.len() {
        0
    } else {
        match gates[t] {
            Gate::Input(i) => if i < inputs.len() { inputs[i as int] as int } else { 0 },
            Gate::Constant(c) => c as int,
            Gate::Add(a, b) => if a < t && b < t {
                fadd(wire_value(gates, inputs, a as int), wire_value(gates, inputs, b as int))
            } else {
                0
            },
            Gate::Sub(a, b) => if a < t && b < t {
                fsub(wire_value(gates, inputs, a as int), wire_value(gates, inputs, b as int))
            } else {
                0
            },
            Gate::Mul(a, b) => if a < t && b < t {
                fmul(wire_value(gates, inputs, a as int), wire_value(gates, inputs, b as int))
            } else {
                0
            },
        }
    }
}

pub struct CircuitBuilder {
    pub gates: Vec<Gate>,
}

impl CircuitBuilder {
    pub fn new() -> (r: Self)
        ensures
            r.gates@.len() == 0,
    {
        CircuitBuilder { gates: Vec::new() }
    }

    fn push_gate(&mut self, g: Gate) -> (r: Target)
        requires
            gates_wf(old(self).gates@),
            gate_ok(g, old(self).gates@.len() as int),
        ensures
            final(self).gates@ == old(self).gates@.push(g),
            r == old(self).gates@.len(),
            gates_wf(final(self).gates@),
    {
        let r = self.gates.len();
        self.gates.push(g);
        r
    }

    /// A wire holding witness input `i`.
    pub fn add_virtual_target(&mut self, i: usize) -> (r: Target)
        requires
            gates_wf(old(self).gates@),
        ensures
            final(self).gates@ == old(self).gates@.push(Gate::Input(i)),
            r == old(self).gates@.len(),
            gates_wf(final(self).gates@),
    {
        self.push_gate(Gate::Input(i))
    }

    pub fn constant(&mut self, c: u64) -> (r: Target)
        requires
            gates_wf(old(self).gates@),
            c < ORDER,
        ensures
            final(self).gates@ == old(self).gates@.push(Gate::Constant(c)),
            r == old(self).gates@.len(),
            gates_wf(final(self).gates@),
    {
        self.push_gate(Gate::Constant(c))
    }

    pub fn add_extension(&mut self, a: Target, b: Target) -> (r: Target)
        requires
            gates_wf(old(self).gates@),
            a < old(self).gates@.len(),
            b < old(self).gates@.len(),
        ensures
            final(self).gates@ == old(self).gates@.push(Gate::Add(a, b)),
            r == old(self).gates@.len(),
            gates_wf(final(self).gates@),
    {
        self.push_gate(Gate::Add(a, b))
    }

    pub fn sub_extension(&mut self, a: Target, b: Target) -> (r: Target)
        requires
            gates_wf(old(self).gates@),
            a < old(self).gates@.len(),
            b < old(self).gates@.len(),
        ensures
            final(self).gates@ == old(self).gates@.push(Gate::Sub(a, b)),
            r == old(self).gates@.len(),
            gates_wf(final(self).gates@),
    {
        self.push_gate(Gate::Sub(a, b))
    }

    pub fn mul_extension(&mut self, a: Target, b: Target) -> (r: Target)
        requires
            gates_wf(old(self).gates@),
            a < old(self).gates@.len(),
            b < old(self).gates@.len(),
        ensures
            final(self).gates@ == old(self).gates@.push(Gate::Mul(a, b)),
            r == old(self).gates@.len(),
            gates_wf(final(self).gates@),
    {
        self.push_gate(Gate::Mul(a, b))
    }

    /// The value of every wire on a witness.
    pub fn evaluate(&self, inputs: &Vec<u64>) -> (r: Vec<u64>)
        requires
            gates_wf(self.gates@),
            forall|i: int| 0 <= i < inputs@.len() ==> #[trigger] inputs@[i] < ORDER,
        ensures
            r@.len() == self.gates@.len(),
            forall|t: int| 0 <= t < r@.len() ==> #[trigger] r@[t] as int == wire_value(self.gates@, inputs@, t),
    {
        let mut r: Vec<u64> = Vec::new();
        let mut t: usize = 0;
        while t < self.gates.len()
            invariant
                gates_wf(self.gates@),
                forall|i: int| 0 <= i < inputs@.len() ==> #[trigger] inputs@[i] < ORDER,
                t <= self.gates@.len(),
                r@.len() == t,
                forall|s: int| 0 <= s < t ==> #[trigger] r@[s] as int == wire_value(self.gates@, inputs@, s),
                forall|s: int| 0 <= s < t ==> #[trigger] r@[s] < ORDER,
            decreases self.gates@.len() - t,
        {
            assert(gate_ok(self.gates@[t as int], t as int));
            let v = match self.gates[t] {
                Gate::Input(i) => if i < inputs.len() { inputs[i] } else { 0 },
                Gate::Constant(c) => c,
                Gate::Add(a, b) => field_add(r[a], r[b]),
                Gate::Sub(a, b) => field_sub(r[a], r[b]),
                Gate::Mul(a, b) => field_mul(r[a], r[b]),
            };
            r.push(v);
            t = t + 1;
        }
        r
    }
}


/// The cells of a row read off the wires of its targets.
pub open spec fn row_of(gates: Seq<Gate>, inputs: Seq<u64>, targets: Seq<Target>) -> Seq<u64> {
    Seq::new(targets.len(), |c: int| wire_value(gates, inputs, targets[c] as int) as u64)
}

pub proof fn lemma_wire_value_bound(gates: Seq<Gate>, inputs: Seq<u64>, t: int)
    requires
        gates_wf(gates),
    ensures
        0 <= wire_value(gates, inputs, t) <= u64::MAX,
{
    if 0 <= t < gates.len() {
        match gates[t] {
            Gate::Input(i) => {},
            Gate::Constant(c) => {},
            Gate::Add(a, b) => {
                lemma_field_results_canonical(wire_value(gates, inputs, a as int), wire_value(gates, inputs, b as int));
            },
            Gate::Sub(a, b) => {
                lemma_field_results_canonical(wire_value(gates, inputs, a as int), wire_value(gates, inputs, b as int));
            },
            Gate::Mul(a, b) => {
                lemma_field_results_canonical(wire_value(gates, inputs, a as int), wire_value(gates, inputs, b as int));
            },
        }
    }
}

/// Appending gates leaves the value of every existing wire unchanged.
pub proof fn lemma_wires_extend(g1: Seq<Gate>, g2: Seq<Gate>)
    requires
        g1.len() <= g2.len(),
        g2.subrange(0, g1.len() as int) == g1,
    ensures
        forall|inputs: Seq<u64>, t: int| 0 <= t < g1.len() ==> #[trigger] wire_value(g2, inputs, t) == wire_value(g1, inputs, t),
{
    assert forall|inputs: Seq<u64>, t: int| 0 <= t < g1.len() implies #[trigger] wire_value(g2, inputs, t) == wire_value(g1, inputs, t) by {
        lemma_wire_extend(g1, g2, inputs, t);
    }
}

proof fn lemma_wire_extend(g1: Seq<Gate>, g2: Seq<Gate>, inputs: Seq<u64>, t: int)
    requires
        g1.len() <= g2.len(),
        g2.subrange(0, g1.len() as int) == g1,
        0 <= t < g1.len(),
    ensures
        wire_value(g2, inputs, t) == wire_value(g1, inputs, t),
    decreases t,
{
    assert(g2[t] == g1[t]);
    match g1[t] {
        Gate::Add(a, b) => {
            if a < t && b < t {
                lemma_wire_extend(g1, g2, inputs, a as int);
                lemma_wire_extend(g1, g2, inputs, b as int);
            }
        },
        Gate::Sub(a, b) => {
            if a < t && b < t {
                lemma_wire_extend(g1, g2, inputs, a as int);
                lemma_wire_extend(g1, g2, inputs, b as int);
            }
        },
        Gate::Mul(a, b) => {
            if a < t && b < t {
                lemma_wire_extend(g1, g2, inputs, a as int);
                lemma_wire_extend(g1, g2, inputs, b as int);
            }
        },
        _ => {},
    }
}

pub proof fn lemma_rows_extend(g1: Seq<Gate>, g2: Seq<Gate>, inputs: Seq<u64>, targets: Seq<Target>)
    requires
        g1.len() <= g2.len(),
        g2.subrange(0, g1.len() as int) == g1,
        forall|c: int| 0 <= c < targets.len() ==> #[trigger] targets[c] < g1.len(),
    ensures
        row_of(g2, inputs, targets) == row_of(g1, inputs, targets),
{
    lemma_wires_extend(g1, g2);
    assert(row_of(g2, inputs, targets) =~= row_of(g1, inputs, targets));
}

} // verus!

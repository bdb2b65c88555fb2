//! The Keccak identities over a single row, emitted as a circuit for recursive
//! verification: on every witness each emitted wire carries the value of one identity.
use crate::circuit::{
    gates_wf, lemma_rows_extend, lemma_wire_value_bound, lemma_wires_extend, row_of, wire_value,
    CircuitBuilder, Gate, Target,
};
use crate::field::{fadd, fandn, fmul, fsub, fxor};
use crate::keccak::Keccak;
use crate::keccak_registers::{
    reg_a, reg_a_prime, reg_a_prime_prime, reg_b, reg_c, reg_c_partial, spec_reg_a,
    spec_reg_a_prime, spec_reg_a_prime_prime, spec_reg_b, spec_reg_c, spec_reg_c_partial,
    NUM_REGISTERS,
};
use crate::keccak_registers::{
    rc_value_bit, spec_rc_bit, REG_A_PRIME_PRIME_PRIME_0_0_LO, START_A_PRIME_PRIME_0_0_BITS,
};
use crate::keccak_stark::{
    a_prime_holds, a_prime_prime_holds, bit_bool_holds, bits_pack_holds, c_holds, c_partial_holds,
    fchi, fiota, fpack_cells, fpack_chi, fpack_iota, fxor3, iota_holds, link_holds,
    local_constraints, out_hi, out_lo, rc_select, step_bool_holds, step_sum, step_sum_holds,
    step_transition_holds, transition_constraints, val,
};
use vstd::prelude::*;

verus! {

pub open spec fn c_partial_value(row: Seq<u64>, x: int, z: int) -> int {
    fsub(
        val(row, spec_reg_c_partial(x, z)),
        fxor3(val(row, spec_reg_a(x, 0, z)), val(row, spec_reg_a(x, 1, z)), val(row, spec_reg_a(x, 2, z))),
    )
}

pub open spec fn c_value(row: Seq<u64>, x: int, z: int) -> int {
    fsub(
        val(row, spec_reg_c(x, z)),
        fxor3(val(row, spec_reg_c_partial(x, z)), val(row, spec_reg_a(x, 3, z)), val(row, spec_reg_a(x, 4, z))),
    )
}

pub open spec fn a_prime_value(row: Seq<u64>, x: int, y: int, z: int) -> int {
    let d = fxor(val(row, spec_reg_c((x + 4) % 5, z)), val(row, spec_reg_c((x + 1) % 5, (z + 63) % 64)));
    fsub(val(row, spec_reg_a_prime(x, y, z)), fxor(d, val(row, spec_reg_a(x, y, z))))
}

pub open spec fn a_prime_prime_value(row: Seq<u64>, x: int, y: int, h: int) -> int {
    fsub(fpack_chi(row, x, y, 32 * h, 32 * h + 32), val(row, spec_reg_a_prime_prime(x, y) + h))
}

/// The value that emitted wire `k` carries: first the 320 C_partial identities, then
/// the 320 C identities, the 1600 A' identities, the 50 halves of A'', the 24 round
/// flags' booleanity, their sum, the booleanity of the 64 re-expanded bits of
/// `A''[0, 0]`, the two halves of their packing, and the two halves of iota.
pub open spec fn keccak_circuit_value(row: Seq<u64>, k: int) -> int {
    if k >= 2290 {
        keccak_circuit_flag_value(row, k - 2290)
    } else if k < 320 {
        c_partial_value(row, k / 64, k % 64)
    } else if k < 640 {
        c_value(row, (k - 320) / 64, (k - 320) % 64)
    } else if k < 2240 {
        a_prime_value(row, (k - 640) / 320, ((k - 640) % 320) / 64, (k - 640) % 64)
    } else {
        a_prime_prime_value(row, ((k - 2240) / 2) / 5, ((k - 2240) / 2) % 5, (k - 2240) % 2)
    }
}

/// Wires `2290 + j` of the emitted circuit.
pub open spec fn keccak_circuit_flag_value(row: Seq<u64>, j: int) -> int {
    if j < 24 {
        fmul(val(row, j), fsub(1, val(row, j)))
    } else if j == 24 {
        fsub(step_sum(row, 24), 1)
    } else if j < 89 {
        let b = START_A_PRIME_PRIME_0_0_BITS + (j - 25);
        fmul(val(row, b), fsub(1, val(row, b)))
    } else if j < 91 {
        let h = j - 89;
        fsub(fpack_cells(row, START_A_PRIME_PRIME_0_0_BITS as int, 32 * h, 32 * h + 32), val(row, spec_reg_a_prime_prime(0, 0) + h))
    } else {
        let h = j - 91;
        fsub(fpack_iota(row, 32 * h, 32 * h + 32), val(row, REG_A_PRIME_PRIME_PRIME_0_0_LO + h))
    }
}

pub open spec fn targets_below(ts: Seq<Target>, n: int) -> bool {
    forall|k: int| 0 <= k < ts.len() ==> #[trigger] ts[k] < n
}

pub open spec fn extends(g2: Seq<Gate>, g1: Seq<Gate>) -> bool {
    g1.len() <= g2.len() && g2.subrange(0, g1.len() as int) == g1
}

/// Every emitted wire carries its identity's value.
pub open spec fn outputs_ok(g: Seq<Gate>, local: Seq<Target>, out: Seq<Target>) -> bool {
    forall|inputs: Seq<u64>, k: int|
        0 <= k < out.len() ==> #[trigger] wire_value(g, inputs, out[k] as int) == keccak_circuit_value(
            row_of(g, inputs, local),
            k,
        )
}

proof fn lemma_extends_trans(g1: Seq<Gate>, g2: Seq<Gate>, g3: Seq<Gate>)
    requires
        extends(g2, g1),
        extends(g3, g2),
    ensures
        extends(g3, g1),
{
    assert(g3.subrange(0, g1.len() as int) =~= g1);
}

proof fn lemma_outputs_extend(g1: Seq<Gate>, g2: Seq<Gate>, local: Seq<Target>, out: Seq<Target>)
    requires
        extends(g2, g1),
        targets_below(local, g1.len() as int),
        targets_below(out, g1.len() as int),
        outputs_ok(g1, local, out),
    ensures
        outputs_ok(g2, local, out),
        forall|inputs: Seq<u64>| #[trigger] row_of(g2, inputs, local) == row_of(g1, inputs, local),
{
    lemma_wires_extend(g1, g2);
    assert forall|inputs: Seq<u64>| #[trigger] row_of(g2, inputs, local) == row_of(g1, inputs, local) by {
        lemma_rows_extend(g1, g2, inputs, local);
    }
    assert forall|inputs: Seq<u64>, k: int| 0 <= k < out.len() implies #[trigger] wire_value(g2, inputs, out[k] as int)
        == keccak_circuit_value(row_of(g2, inputs, local), k) by {
        lemma_rows_extend(g1, g2, inputs, local);
    }
}

/// The cell of a row read off its target.
proof fn lemma_cell(g: Seq<Gate>, inputs: Seq<u64>, local: Seq<Target>, c: int)
    requires
        gates_wf(g),
        0 <= c < local.len(),
    ensures
        val(row_of(g, inputs, local), c) == wire_value(g, inputs, local[c] as int),
{
    lemma_wire_value_bound(g, inputs, local[c] as int);
}

/// Emits `xor(a, b) = a + b - 2ab`.
#[verifier::rlimit(50)]
fn emit_xor(builder: &mut CircuitBuilder, a: Target, b: Target, two: Target) -> (r: Target)
    requires
        gates_wf(old(builder).gates@),
        a < old(builder).gates@.len(),
        b < old(builder).gates@.len(),
        two < old(builder).gates@.len(),
        old(builder).gates@[two as int] == Gate::Constant(2),
    ensures
        gates_wf(final(builder).gates@),
        extends(final(builder).gates@, old(builder).gates@),
        old(builder).gates@.len() <= r < final(builder).gates@.len(),
        forall|inputs: Seq<u64>| #[trigger] wire_value(final(builder).gates@, inputs, r as int)
            == fxor(wire_value(final(builder).gates@, inputs, a as int), wire_value(final(builder).gates@, inputs, b as int)),
{
    let ghost g0 = builder.gates@;
    let s = builder.add_extension(a, b);
    let p = builder.mul_extension(a, b);
    let p2 = builder.mul_extension(two, p);
    let r = builder.sub_extension(s, p2);
    proof {
        let g = builder.gates@;
        assert(g.subrange(0, g0.len() as int) =~= g0);
        assert(g[two as int] == Gate::Constant(2));
        assert forall|inputs: Seq<u64>| #[trigger] wire_value(g, inputs, r as int)
            == fxor(wire_value(g, inputs, a as int), wire_value(g, inputs, b as int)) by {
            assert(wire_value(g, inputs, two as int) == 2);
            assert(wire_value(g, inputs, s as int) == fadd(wire_value(g, inputs, a as int), wire_value(g, inputs, b as int)));
            assert(wire_value(g, inputs, p as int) == fmul(wire_value(g, inputs, a as int), wire_value(g, inputs, b as int)));
            assert(wire_value(g, inputs, p2 as int) == fmul(2, wire_value(g, inputs, p as int)));
        }
    }
    r
}

/// Emits `andn(a, b) = b - ab`.
#[verifier::rlimit(50)]
fn emit_andn(builder: &mut CircuitBuilder, a: Target, b: Target) -> (r: Target)
    requires
        gates_wf(old(builder).gates@),
        a < old(builder).gates@.len(),
        b < old(builder).gates@.len(),
    ensures
        gates_wf(final(builder).gates@),
        extends(final(builder).gates@, old(builder).gates@),
        old(builder).gates@.len() <= r < final(builder).gates@.len(),
        forall|inputs: Seq<u64>| #[trigger] wire_value(final(builder).gates@, inputs, r as int)
            == fandn(wire_value(final(builder).gates@, inputs, a as int), wire_value(final(builder).gates@, inputs, b as int)),
{
    let ghost g0 = builder.gates@;
    let p = builder.mul_extension(a, b);
    let r = builder.sub_extension(b, p);
    proof {
        let g = builder.gates@;
        assert(g.subrange(0, g0.len() as int) =~= g0);
        assert forall|inputs: Seq<u64>| #[trigger] wire_value(g, inputs, r as int)
            == fandn(wire_value(g, inputs, a as int), wire_value(g, inputs, b as int)) by {
            assert(wire_value(g, inputs, p as int) == fmul(wire_value(g, inputs, a as int), wire_value(g, inputs, b as int)));
        }
    }
    r
}


/// Emits the C_partial and C identities.
#[verifier::rlimit(50)]
fn emit_theta_c(builder: &mut CircuitBuilder, local: &Vec<Target>, two: Target, out: &mut Vec<Target>)
    requires
        gates_wf(old(builder).gates@),
        local@.len() == NUM_REGISTERS,
        targets_below(local@, old(builder).gates@.len() as int),
        two < old(builder).gates@.len(),
        old(builder).gates@[two as int] == Gate::Constant(2),
        old(out)@.len() == 0,
    ensures
        gates_wf(final(builder).gates@),
        extends(final(builder).gates@, old(builder).gates@),
        final(out)@.len() == 640,
        targets_below(final(out)@, final(builder).gates@.len() as int),
        outputs_ok(final(builder).gates@, local@, final(out)@),
{
    let ghost g0 = builder.gates@;
    assert(g0.subrange(0, g0.len() as int) =~= g0);
    let mut i: usize = 0;
    while i < 640
        invariant
            gates_wf(builder.gates@),
            extends(builder.gates@, g0),
            local@.len() == NUM_REGISTERS,
            targets_below(local@, g0.len() as int),
            two < g0.len(),
            g0[two as int] == Gate::Constant(2),
            i <= 640,
            out@.len() == i,
            targets_below(out@, builder.gates@.len() as int),
            outputs_ok(builder.gates@, local@, out@),
        decreases 640 - i,
    {
        let ghost g1 = builder.gates@;
        let ghost out1 = out@;
        assert(g1[two as int] == Gate::Constant(2));
        let j = if i < 320 { i } else { i - 320 };
        let x = j / 64;
        let z = j % 64;
        let (target, a0, a1, a2) = if i < 320 {
            (local[reg_c_partial(x, z)], local[reg_a(x, 0, z)], local[reg_a(x, 1, z)], local[reg_a(x, 2, z)])
        } else {
            (local[reg_c(x, z)], local[reg_c_partial(x, z)], local[reg_a(x, 3, z)], local[reg_a(x, 4, z)])
        };
        let t1 = emit_xor(builder, a0, a1, two);
        let ghost g2 = builder.gates@;
        let t2 = emit_xor(builder, t1, a2, two);
        let ghost g3 = builder.gates@;
        let d = builder.sub_extension(target, t2);
        out.push(d);
        proof {
            let g4 = builder.gates@;
            assert(g4.subrange(0, g3.len() as int) =~= g3);
            lemma_extends_trans(g2, g3, g4);
            lemma_extends_trans(g1, g2, g4);
            lemma_extends_trans(g0, g1, g4);
            lemma_wires_extend(g2, g4);
            lemma_wires_extend(g3, g4);
            lemma_outputs_extend(g1, g4, local@, out1);
            assert forall|inputs: Seq<u64>, k: int| 0 <= k < out@.len() implies #[trigger] wire_value(g4, inputs, out@[k] as int)
                == keccak_circuit_value(row_of(g4, inputs, local@), k) by {
                if k < i {
                    assert(out@[k] == out1[k]);
                } else {
                    let row = row_of(g4, inputs, local@);
                    if i < 320 {
                        lemma_cell(g4, inputs, local@, spec_reg_c_partial(x as int, z as int));
                        lemma_cell(g4, inputs, local@, spec_reg_a(x as int, 0, z as int));
                        lemma_cell(g4, inputs, local@, spec_reg_a(x as int, 1, z as int));
                        lemma_cell(g4, inputs, local@, spec_reg_a(x as int, 2, z as int));
                    } else {
                        lemma_cell(g4, inputs, local@, spec_reg_c(x as int, z as int));
                        lemma_cell(g4, inputs, local@, spec_reg_c_partial(x as int, z as int));
                        lemma_cell(g4, inputs, local@, spec_reg_a(x as int, 3, z as int));
                        lemma_cell(g4, inputs, local@, spec_reg_a(x as int, 4, z as int));
                    }
                    assert(wire_value(g4, inputs, t1 as int) == wire_value(g2, inputs, t1 as int));
                    assert(wire_value(g4, inputs, t2 as int) == wire_value(g3, inputs, t2 as int));
                    assert(wire_value(g4, inputs, a0 as int) == wire_value(g2, inputs, a0 as int));
                    assert(wire_value(g4, inputs, a1 as int) == wire_value(g2, inputs, a1 as int));
                    assert(wire_value(g4, inputs, a2 as int) == wire_value(g3, inputs, a2 as int));
                    assert(wire_value(g2, inputs, t1 as int) == fxor(wire_value(g2, inputs, a0 as int), wire_value(g2, inputs, a1 as int)));
                    assert(wire_value(g3, inputs, t2 as int) == fxor(wire_value(g3, inputs, t1 as int), wire_value(g3, inputs, a2 as int)));
                    assert(g4[d as int] == Gate::Sub(target, t2));
                    assert(wire_value(g4, inputs, d as int) == fsub(wire_value(g4, inputs, target as int), wire_value(g4, inputs, t2 as int)));
                    assert(out@[k] == d);
                }
            }
        }
        i = i + 1;
    }
}


/// Emits the A' identities.
#[verifier::rlimit(50)]
fn emit_theta_a_prime(builder: &mut CircuitBuilder, local: &Vec<Target>, two: Target, out: &mut Vec<Target>)
    requires
        gates_wf(old(builder).gates@),
        local@.len() == NUM_REGISTERS,
        targets_below(local@, old(builder).gates@.len() as int),
        two < old(builder).gates@.len(),
        old(builder).gates@[two as int] == Gate::Constant(2),
        old(out)@.len() == 640,
        targets_below(old(out)@, old(builder).gates@.len() as int),
        outputs_ok(old(builder).gates@, local@, old(out)@),
    ensures
        gates_wf(final(builder).gates@),
        extends(final(builder).gates@, old(builder).gates@),
        final(out)@.len() == 2240,
        targets_below(final(out)@, final(builder).gates@.len() as int),
        outputs_ok(final(builder).gates@, local@, final(out)@),
{
    let ghost g0 = builder.gates@;
    assert(g0.subrange(0, g0.len() as int) =~= g0);
    let mut i: usize = 0;
    while i < 1600
        invariant
            gates_wf(builder.gates@),
            extends(builder.gates@, g0),
            local@.len() == NUM_REGISTERS,
            targets_below(local@, g0.len() as int),
            two < g0.len(),
            g0[two as int] == Gate::Constant(2),
            i <= 1600,
            out@.len() == 640 + i,
            targets_below(out@, builder.gates@.len() as int),
            outputs_ok(builder.gates@, local@, out@),
        decreases 1600 - i,
    {
        let ghost g1 = builder.gates@;
        let ghost out1 = out@;
        assert(g1[two as int] == Gate::Constant(2));
        let x = i / 320;
        let y = (i % 320) / 64;
        let z = i % 64;
        let c_left = local[reg_c((x + 4) % 5, z)];
        let c_right = local[reg_c((x + 1) % 5, (z + 63) % 64)];
        let a = local[reg_a(x, y, z)];
        let target = local[reg_a_prime(x, y, z)];
        let d = emit_xor(builder, c_left, c_right, two);
        let ghost g2 = builder.gates@;
        let t = emit_xor(builder, d, a, two);
        let ghost g3 = builder.gates@;
        let diff = builder.sub_extension(target, t);
        out.push(diff);
        proof {
            let g4 = builder.gates@;
            assert(g4.subrange(0, g3.len() as int) =~= g3);
            lemma_extends_trans(g2, g3, g4);
            lemma_extends_trans(g1, g2, g4);
            lemma_extends_trans(g0, g1, g4);
            lemma_wires_extend(g2, g4);
            lemma_wires_extend(g3, g4);
            lemma_outputs_extend(g1, g4, local@, out1);
            assert forall|inputs: Seq<u64>, k: int| 0 <= k < out@.len() implies #[trigger] wire_value(g4, inputs, out@[k] as int)
                == keccak_circuit_value(row_of(g4, inputs, local@), k) by {
                if k < 640 + i {
                    assert(out@[k] == out1[k]);
                } else {
                    lemma_cell(g4, inputs, local@, spec_reg_c((x + 4) % 5, z as int));
                    lemma_cell(g4, inputs, local@, spec_reg_c((x + 1) % 5, (z + 63) % 64));
                    lemma_cell(g4, inputs, local@, spec_reg_a(x as int, y as int, z as int));
                    lemma_cell(g4, inputs, local@, spec_reg_a_prime(x as int, y as int, z as int));
                    assert(wire_value(g4, inputs, d as int) == wire_value(g2, inputs, d as int));
                    assert(wire_value(g4, inputs, t as int) == wire_value(g3, inputs, t as int));
                    assert(wire_value(g4, inputs, c_left as int) == wire_value(g2, inputs, c_left as int));
                    assert(wire_value(g4, inputs, c_right as int) == wire_value(g2, inputs, c_right as int));
                    assert(wire_value(g4, inputs, a as int) == wire_value(g3, inputs, a as int));
                    assert(wire_value(g2, inputs, d as int) == fxor(wire_value(g2, inputs, c_left as int), wire_value(g2, inputs, c_right as int)));
                    assert(wire_value(g3, inputs, t as int) == fxor(wire_value(g3, inputs, d as int), wire_value(g3, inputs, a as int)));
                    assert(g4[diff as int] == Gate::Sub(target, t));
                    assert(wire_value(g4, inputs, diff as int) == fsub(wire_value(g4, inputs, target as int), wire_value(g4, inputs, t as int)));
                    assert(out@[k] == diff);
                }
            }
        }
        i = i + 1;
    }
}

/// Emits bit z of `A''[x, y]`, computed from the B aliases.
#[verifier::rlimit(50)]
fn emit_chi_bit(builder: &mut CircuitBuilder, local: &Vec<Target>, x: usize, y: usize, z: usize, two: Target) -> (r: Target)
    requires
        gates_wf(old(builder).gates@),
        local@.len() == NUM_REGISTERS,
        targets_below(local@, old(builder).gates@.len() as int),
        two < old(builder).gates@.len(),
        old(builder).gates@[two as int] == Gate::Constant(2),
        x < 5,
        y < 5,
        z < 64,
    ensures
        gates_wf(final(builder).gates@),
        extends(final(builder).gates@, old(builder).gates@),
        old(builder).gates@.len() <= r < final(builder).gates@.len(),
        forall|inputs: Seq<u64>| #[trigger] wire_value(final(builder).gates@, inputs, r as int)
            == fchi(row_of(final(builder).gates@, inputs, local@), x as int, y as int, z as int),
{
    let ghost g0 = builder.gates@;
    let b0 = local[reg_b(x, y, z)];
    let b1 = local[reg_b((x + 1) % 5, y, z)];
    let b2 = local[reg_b((x + 2) % 5, y, z)];
    let n = emit_andn(builder, b1, b2);
    let ghost g1 = builder.gates@;
    assert(g1[two as int] == Gate::Constant(2));
    let r = emit_xor(builder, b0, n, two);
    proof {
        let g2 = builder.gates@;
        lemma_extends_trans(g0, g1, g2);
        lemma_wires_extend(g1, g2);
        assert forall|inputs: Seq<u64>| #[trigger] wire_value(g2, inputs, r as int)
            == fchi(row_of(g2, inputs, local@), x as int, y as int, z as int) by {
            lemma_cell(g2, inputs, local@, spec_reg_b(x as int, y as int, z as int));
            lemma_cell(g2, inputs, local@, spec_reg_b((x + 1) % 5, y as int, z as int));
            lemma_cell(g2, inputs, local@, spec_reg_b((x + 2) % 5, y as int, z as int));
            assert(wire_value(g2, inputs, n as int) == wire_value(g1, inputs, n as int));
            assert(wire_value(g2, inputs, b1 as int) == wire_value(g1, inputs, b1 as int));
            assert(wire_value(g2, inputs, b2 as int) == wire_value(g1, inputs, b2 as int));
        }
    }
    r
}

/// Emits `pack` of the chi bits of lane (x, y), half `h`, folded from the top bit.
#[verifier::rlimit(50)]
fn emit_pack_chi(builder: &mut CircuitBuilder, local: &Vec<Target>, x: usize, y: usize, h: usize, two: Target) -> (r: Target)
    requires
        gates_wf(old(builder).gates@),
        local@.len() == NUM_REGISTERS,
        targets_below(local@, old(builder).gates@.len() as int),
        two < old(builder).gates@.len(),
        old(builder).gates@[two as int] == Gate::Constant(2),
        x < 5,
        y < 5,
        h < 2,
    ensures
        gates_wf(final(builder).gates@),
        extends(final(builder).gates@, old(builder).gates@),
        old(builder).gates@.len() <= r < final(builder).gates@.len(),
        forall|inputs: Seq<u64>| #[trigger] wire_value(final(builder).gates@, inputs, r as int)
            == fpack_chi(row_of(final(builder).gates@, inputs, local@), x as int, y as int, 32 * h, 32 * h + 32),
{
    let ghost g0 = builder.gates@;
    let lo = 32 * h;
    let hi = lo + 32;
    let mut acc = builder.constant(0);
    proof {
        let g = builder.gates@;
        assert(g.subrange(0, g0.len() as int) =~= g0);
        assert forall|inputs: Seq<u64>| #[trigger] wire_value(builder.gates@, inputs, acc as int)
            == fpack_chi(row_of(builder.gates@, inputs, local@), x as int, y as int, hi as int, hi as int) by {
        }
    }
    let mut z: usize = hi;
    while z > lo
        invariant
            gates_wf(builder.gates@),
            extends(builder.gates@, g0),
            local@.len() == NUM_REGISTERS,
            targets_below(local@, g0.len() as int),
            two < g0.len(),
            g0[two as int] == Gate::Constant(2),
            x < 5,
            y < 5,
            lo == 32 * h,
            hi == lo + 32,
            h < 2,
            lo <= z <= hi,
            g0.len() <= acc < builder.gates@.len(),
            forall|inputs: Seq<u64>| #[trigger] wire_value(builder.gates@, inputs, acc as int)
                == fpack_chi(row_of(builder.gates@, inputs, local@), x as int, y as int, z as int, hi as int),
        decreases z,
    {
        z = z - 1;
        let ghost g1 = builder.gates@;
        let ghost acc1 = acc;
        assert(g1[two as int] == Gate::Constant(2));
        proof {
            assert forall|k: int| 0 <= k < local@.len() implies #[trigger] local@[k] < g1.len() by {
                assert(local@[k] < g0.len());
            }
        }
        let bit = emit_chi_bit(builder, local, x, y, z, two);
        let ghost g2 = builder.gates@;
        let dbl = builder.add_extension(acc, acc);
        let next = builder.add_extension(dbl, bit);
        proof {
            let g3 = builder.gates@;
            assert(g3.subrange(0, g2.len() as int) =~= g2);
            lemma_extends_trans(g1, g2, g3);
            lemma_extends_trans(g0, g1, g3);
            lemma_wires_extend(g1, g3);
            lemma_wires_extend(g2, g3);
            assert forall|inputs: Seq<u64>| #[trigger] wire_value(g3, inputs, next as int)
                == fpack_chi(row_of(g3, inputs, local@), x as int, y as int, z as int, hi as int) by {
                lemma_rows_extend(g1, g3, inputs, local@);
                lemma_rows_extend(g2, g3, inputs, local@);
                assert(wire_value(g3, inputs, acc1 as int) == wire_value(g1, inputs, acc1 as int));
                assert(wire_value(g3, inputs, bit as int) == wire_value(g2, inputs, bit as int));
                assert(wire_value(g3, inputs, dbl as int) == fadd(wire_value(g3, inputs, acc1 as int), wire_value(g3, inputs, acc1 as int)));
            }
        }
        acc = next;
    }
    acc
}

/// Emits the identities of the two halves of A''.
#[verifier::rlimit(50)]
fn emit_chi(builder: &mut CircuitBuilder, local: &Vec<Target>, two: Target, out: &mut Vec<Target>)
    requires
        gates_wf(old(builder).gates@),
        local@.len() == NUM_REGISTERS,
        targets_below(local@, old(builder).gates@.len() as int),
        two < old(builder).gates@.len(),
        old(builder).gates@[two as int] == Gate::Constant(2),
        old(out)@.len() == 2240,
        targets_below(old(out)@, old(builder).gates@.len() as int),
        outputs_ok(old(builder).gates@, local@, old(out)@),
    ensures
        gates_wf(final(builder).gates@),
        extends(final(builder).gates@, old(builder).gates@),
        final(out)@.len() == 2290,
        targets_below(final(out)@, final(builder).gates@.len() as int),
        outputs_ok(final(builder).gates@, local@, final(out)@),
{
    let ghost g0 = builder.gates@;
    assert(g0.subrange(0, g0.len() as int) =~= g0);
    let mut i: usize = 0;
    while i < 50
        invariant
            gates_wf(builder.gates@),
            extends(builder.gates@, g0),
            local@.len() == NUM_REGISTERS,
            targets_below(local@, g0.len() as int),
            two < g0.len(),
            g0[two as int] == Gate::Constant(2),
            i <= 50,
            out@.len() == 2240 + i,
            targets_below(out@, builder.gates@.len() as int),
            outputs_ok(builder.gates@, local@, out@),
        decreases 50 - i,
    {
        let ghost g1 = builder.gates@;
        let ghost out1 = out@;
        assert(g1[two as int] == Gate::Constant(2));
        proof {
            assert forall|k: int| 0 <= k < local@.len() implies #[trigger] local@[k] < g1.len() by {
                assert(local@[k] < g0.len());
            }
        }
        let x = (i / 2) / 5;
        let y = (i / 2) % 5;
        let h = i % 2;
        let target = local[reg_a_prime_prime(x, y) + h];
        let packed = emit_pack_chi(builder, local, x, y, h, two);
        let ghost g2 = builder.gates@;
        let diff = builder.sub_extension(packed, target);
        out.push(diff);
        proof {
            let g3 = builder.gates@;
            assert(g3.subrange(0, g2.len() as int) =~= g2);
            lemma_extends_trans(g1, g2, g3);
            lemma_extends_trans(g0, g1, g3);
            lemma_wires_extend(g2, g3);
            lemma_outputs_extend(g1, g3, local@, out1);
            assert forall|inputs: Seq<u64>, k: int| 0 <= k < out@.len() implies #[trigger] wire_value(g3, inputs, out@[k] as int)
                == keccak_circuit_value(row_of(g3, inputs, local@), k) by {
                if k < 2240 + i {
                    assert(out@[k] == out1[k]);
                } else {
                    lemma_rows_extend(g2, g3, inputs, local@);
                    lemma_cell(g3, inputs, local@, spec_reg_a_prime_prime(x as int, y as int) + h);
                    assert(wire_value(g3, inputs, packed as int) == wire_value(g2, inputs, packed as int));
                    assert(g3[diff as int] == Gate::Sub(packed, target));
                    assert(out@[k] == diff);
                }
            }
        }
        i = i + 1;
    }
}

impl Keccak {
    /// Emits every single-row identity over the targets of a row; on every witness
    /// emitted wire `k` carries the value `keccak_circuit_value(row, k)`, the same
    /// value the native evaluation computes.
    #[verifier::rlimit(50)]
    pub fn eval_ext_recursively(&self, builder: &mut CircuitBuilder, local: &Vec<Target>) -> (out: Vec<Target>)
        requires
            gates_wf(old(builder).gates@),
            local@.len() == NUM_REGISTERS,
            targets_below(local@, old(builder).gates@.len() as int),
        ensures
            gates_wf(final(builder).gates@),
            extends(final(builder).gates@, old(builder).gates@),
            out@.len() == 2383,
            targets_below(out@, final(builder).gates@.len() as int),
            outputs_ok(final(builder).gates@, local@, out@),
    {
        let ghost g0 = builder.gates@;
        let two = builder.constant(2);
        let ghost g1 = builder.gates@;
        proof {
            assert(g1.subrange(0, g0.len() as int) =~= g0);
            assert forall|k: int| 0 <= k < local@.len() implies #[trigger] local@[k] < g1.len() by {
                assert(local@[k] < g0.len());
            }
        }
        let mut out: Vec<Target> = Vec::new();
        emit_theta_c(builder, local, two, &mut out);
        let ghost g2 = builder.gates@;
        proof {
            lemma_extends_trans(g0, g1, g2);
            assert forall|k: int| 0 <= k < local@.len() implies #[trigger] local@[k] < g2.len() by {
                assert(local@[k] < g1.len());
            }
            assert(g2[two as int] == Gate::Constant(2));
        }
        emit_theta_a_prime(builder, local, two, &mut out);
        let ghost g3 = builder.gates@;
        proof {
            lemma_extends_trans(g0, g2, g3);
            lemma_extends_trans(g1, g2, g3);
            assert forall|k: int| 0 <= k < local@.len() implies #[trigger] local@[k] < g3.len() by {
                assert(local@[k] < g1.len());
            }
            assert(g3[two as int] == Gate::Constant(2));
        }
        emit_chi(builder, local, two, &mut out);
        let ghost g4 = builder.gates@;
        proof {
            lemma_extends_trans(g0, g3, g4);
            lemma_extends_trans(g1, g3, g4);
            assert forall|k: int| 0 <= k < local@.len() implies #[trigger] local@[k] < g4.len() by {
                assert(local@[k] < g1.len());
            }
            assert(g4[two as int] == Gate::Constant(2));
        }
        emit_flags_and_iota(builder, local, two, &mut out);
        proof {
            lemma_extends_trans(g0, g4, builder.gates@);
        }
        out
    }
}


/// The emitted identities vanish on a row exactly when it satisfies every single-row
/// identity of the native constraint set.
#[verifier::rlimit(50)]
pub proof fn lemma_keccak_circuit_values(row: Seq<u64>)
    requires
        row.len() == NUM_REGISTERS,
    ensures
        (forall|k: int| 0 <= k < 2383 ==> #[trigger] keccak_circuit_value(row, k) == 0) <==> local_constraints(row),
{
    if forall|k: int| 0 <= k < 2383 ==> #[trigger] keccak_circuit_value(row, k) == 0 {
        assert forall|x: int, z: int| 0 <= x < 5 && 0 <= z < 64 implies #[trigger] c_partial_holds(row, x, z) by {
            let k = x * 64 + z;
            assert(k / 64 == x && k % 64 == z);
            assert(keccak_circuit_value(row, k) == 0);
        }
        assert forall|x: int, z: int| 0 <= x < 5 && 0 <= z < 64 implies #[trigger] c_holds(row, x, z) by {
            let k = 320 + x * 64 + z;
            assert((k - 320) / 64 == x && (k - 320) % 64 == z);
            assert(keccak_circuit_value(row, k) == 0);
        }
        assert forall|x: int, y: int, z: int| 0 <= x < 5 && 0 <= y < 5 && 0 <= z < 64 implies #[trigger] a_prime_holds(row, x, y, z) by {
            let k = 640 + x * 320 + y * 64 + z;
            crate::keccak::lemma_state_index(x, y, z);
            assert(keccak_circuit_value(row, k) == 0);
        }
        assert forall|x: int, y: int| 0 <= x < 5 && 0 <= y < 5 implies #[trigger] a_prime_prime_holds(row, x, y) by {
            let k0 = 2240 + 2 * (x * 5 + y);
            assert(((k0 - 2240) / 2) / 5 == x && ((k0 - 2240) / 2) % 5 == y && (k0 - 2240) % 2 == 0);
            assert(((k0 + 1 - 2240) / 2) / 5 == x && ((k0 + 1 - 2240) / 2) % 5 == y && (k0 + 1 - 2240) % 2 == 1);
            assert(keccak_circuit_value(row, k0) == 0);
            assert(keccak_circuit_value(row, k0 + 1) == 0);
        }
        assert forall|k: int| 0 <= k < 24 implies #[trigger] step_bool_holds(row, k) by {
            assert(keccak_circuit_value(row, 2290 + k) == 0);
        }
        assert(keccak_circuit_value(row, 2314int) == 0);
        assert forall|i: int| 0 <= i < 64 implies #[trigger] bit_bool_holds(row, i) by {
            assert(keccak_circuit_value(row, 2290 + 25 + i) == 0);
        }
        assert(keccak_circuit_value(row, 2379int) == 0);
        assert(keccak_circuit_value(row, 2380int) == 0);
        assert(keccak_circuit_value(row, 2381int) == 0);
        assert(keccak_circuit_value(row, 2382int) == 0);
    }
    if local_constraints(row) {
        assert forall|k: int| 0 <= k < 2383 implies #[trigger] keccak_circuit_value(row, k) == 0 by {
            if k >= 2290 {
                let j = k - 2290;
                if j < 24 {
                    assert(step_bool_holds(row, j));
                } else if 25 <= j < 89 {
                    assert(bit_bool_holds(row, j - 25));
                }
            } else if k < 320 {
                assert(c_partial_holds(row, k / 64, k % 64));
            } else if k < 640 {
                assert(c_holds(row, (k - 320) / 64, (k - 320) % 64));
            } else if k < 2240 {
                assert(a_prime_holds(row, (k - 640) / 320, ((k - 640) % 320) / 64, (k - 640) % 64));
            } else {
                assert(a_prime_prime_holds(row, ((k - 2240) / 2) / 5, ((k - 2240) / 2) % 5));
            }
        }
    }
}

/// Emits `v * (1 - v)` for the cell `c`.
#[verifier::rlimit(50)]
fn emit_boolean(builder: &mut CircuitBuilder, local: &Vec<Target>, c: usize) -> (r: Target)
    requires
        gates_wf(old(builder).gates@),
        local@.len() == NUM_REGISTERS,
        targets_below(local@, old(builder).gates@.len() as int),
        c < NUM_REGISTERS,
    ensures
        gates_wf(final(builder).gates@),
        extends(final(builder).gates@, old(builder).gates@),
        old(builder).gates@.len() <= r < final(builder).gates@.len(),
        forall|inputs: Seq<u64>| #[trigger] wire_value(final(builder).gates@, inputs, r as int) == {
            let row = row_of(final(builder).gates@, inputs, local@);
            fmul(val(row, c as int), fsub(1, val(row, c as int)))
        },
{
    let ghost g0 = builder.gates@;
    let one = builder.constant(1);
    let v = local[c];
    let n = builder.sub_extension(one, v);
    let r = builder.mul_extension(v, n);
    proof {
        let g = builder.gates@;
        assert(g.subrange(0, g0.len() as int) =~= g0);
        assert(v < one && one < n && n < r);
        assert(g[one as int] == Gate::Constant(1));
        assert(g[n as int] == Gate::Sub(one, v));
        assert(g[r as int] == Gate::Mul(v, n));
        assert forall|inputs: Seq<u64>| #[trigger] wire_value(g, inputs, r as int) == {
            let row = row_of(g, inputs, local@);
            fmul(val(row, c as int), fsub(1, val(row, c as int)))
        } by {
            lemma_cell(g, inputs, local@, c as int);
            assert(wire_value(g, inputs, one as int) == 1);
            assert(wire_value(g, inputs, n as int) == fsub(1, wire_value(g, inputs, v as int)));
        }
    }
    r
}

/// Emits `sum_{k < 24} step[k] - 1`.
#[verifier::rlimit(50)]
fn emit_step_sum(builder: &mut CircuitBuilder, local: &Vec<Target>) -> (r: Target)
    requires
        gates_wf(old(builder).gates@),
        local@.len() == NUM_REGISTERS,
        targets_below(local@, old(builder).gates@.len() as int),
    ensures
        gates_wf(final(builder).gates@),
        extends(final(builder).gates@, old(builder).gates@),
        old(builder).gates@.len() <= r < final(builder).gates@.len(),
        forall|inputs: Seq<u64>| #[trigger] wire_value(final(builder).gates@, inputs, r as int)
            == fsub(step_sum(row_of(final(builder).gates@, inputs, local@), 24), 1),
{
    let ghost g0 = builder.gates@;
    let mut acc = builder.constant(0);
    proof {
        assert(builder.gates@.subrange(0, g0.len() as int) =~= g0);
    }
    let mut k: usize = 0;
    while k < 24
        invariant
            gates_wf(builder.gates@),
            extends(builder.gates@, g0),
            local@.len() == NUM_REGISTERS,
            targets_below(local@, g0.len() as int),
            k <= 24,
            g0.len() <= acc < builder.gates@.len(),
            forall|inputs: Seq<u64>| #[trigger] wire_value(builder.gates@, inputs, acc as int)
                == step_sum(row_of(builder.gates@, inputs, local@), k as int),
        decreases 24 - k,
    {
        let ghost g1 = builder.gates@;
        let ghost acc1 = acc;
        let next = builder.add_extension(acc, local[k]);
        proof {
            let g2 = builder.gates@;
            assert(g2.subrange(0, g1.len() as int) =~= g1);
            lemma_extends_trans(g0, g1, g2);
            lemma_wires_extend(g1, g2);
            assert forall|inputs: Seq<u64>| #[trigger] wire_value(g2, inputs, next as int)
                == step_sum(row_of(g2, inputs, local@), k + 1) by {
                lemma_rows_extend(g1, g2, inputs, local@);
                lemma_cell(g2, inputs, local@, k as int);
                assert(wire_value(g2, inputs, acc1 as int) == wire_value(g1, inputs, acc1 as int));
            }
        }
        acc = next;
        k = k + 1;
    }
    let ghost g3 = builder.gates@;
    let ghost acc3 = acc;
    let one = builder.constant(1);
    let r = builder.sub_extension(acc, one);
    proof {
        let g = builder.gates@;
        assert(g.subrange(0, g3.len() as int) =~= g3);
        lemma_extends_trans(g0, g3, g);
        lemma_wires_extend(g3, g);
        assert forall|inputs: Seq<u64>| #[trigger] wire_value(g, inputs, r as int)
            == fsub(step_sum(row_of(g, inputs, local@), 24), 1) by {
            lemma_rows_extend(g3, g, inputs, local@);
            assert(wire_value(g, inputs, acc3 as int) == wire_value(g3, inputs, acc3 as int));
            assert(wire_value(g, inputs, one as int) == 1);
        }
    }
    r
}

/// Emits `pack` of the cells `start + z`, half `h`, folded from the top.
#[verifier::rlimit(50)]
fn emit_pack_cells(builder: &mut CircuitBuilder, local: &Vec<Target>, start: usize, h: usize) -> (r: Target)
    requires
        gates_wf(old(builder).gates@),
        local@.len() == NUM_REGISTERS,
        targets_below(local@, old(builder).gates@.len() as int),
        start + 64 <= NUM_REGISTERS,
        h < 2,
    ensures
        gates_wf(final(builder).gates@),
        extends(final(builder).gates@, old(builder).gates@),
        old(builder).gates@.len() <= r < final(builder).gates@.len(),
        forall|inputs: Seq<u64>| #[trigger] wire_value(final(builder).gates@, inputs, r as int)
            == fpack_cells(row_of(final(builder).gates@, inputs, local@), start as int, 32 * h, 32 * h + 32),
{
    let ghost g0 = builder.gates@;
    let lo = 32 * h;
    let hi = lo + 32;
    let mut acc = builder.constant(0);
    proof {
        assert(builder.gates@.subrange(0, g0.len() as int) =~= g0);
    }
    let mut z: usize = hi;
    while z > lo
        invariant
            gates_wf(builder.gates@),
            extends(builder.gates@, g0),
            local@.len() == NUM_REGISTERS,
            targets_below(local@, g0.len() as int),
            start + 64 <= NUM_REGISTERS,
            lo == 32 * h,
            hi == lo + 32,
            h < 2,
            lo <= z <= hi,
            g0.len() <= acc < builder.gates@.len(),
            forall|inputs: Seq<u64>| #[trigger] wire_value(builder.gates@, inputs, acc as int)
                == fpack_cells(row_of(builder.gates@, inputs, local@), start as int, z as int, hi as int),
        decreases z,
    {
        z = z - 1;
        let ghost g1 = builder.gates@;
        let ghost acc1 = acc;
        let dbl = builder.add_extension(acc, acc);
        let next = builder.add_extension(dbl, local[start + z]);
        proof {
            let g2 = builder.gates@;
            assert(g2.subrange(0, g1.len() as int) =~= g1);
            lemma_extends_trans(g0, g1, g2);
            lemma_wires_extend(g1, g2);
            assert forall|inputs: Seq<u64>| #[trigger] wire_value(g2, inputs, next as int)
                == fpack_cells(row_of(g2, inputs, local@), start as int, z as int, hi as int) by {
                lemma_rows_extend(g1, g2, inputs, local@);
                lemma_cell(g2, inputs, local@, start + z);
                assert(wire_value(g2, inputs, acc1 as int) == wire_value(g1, inputs, acc1 as int));
                assert(wire_value(g2, inputs, dbl as int) == fadd(wire_value(g2, inputs, acc1 as int), wire_value(g2, inputs, acc1 as int)));
            }
        }
        acc = next;
    }
    acc
}

/// Emits bit `i` of the round constant that the round flags select.
#[verifier::rlimit(50)]
fn emit_rc_select(builder: &mut CircuitBuilder, local: &Vec<Target>, i: usize) -> (r: Target)
    requires
        gates_wf(old(builder).gates@),
        local@.len() == NUM_REGISTERS,
        targets_below(local@, old(builder).gates@.len() as int),
        i < 64,
    ensures
        gates_wf(final(builder).gates@),
        extends(final(builder).gates@, old(builder).gates@),
        old(builder).gates@.len() <= r < final(builder).gates@.len(),
        forall|inputs: Seq<u64>| #[trigger] wire_value(final(builder).gates@, inputs, r as int)
            == rc_select(row_of(final(builder).gates@, inputs, local@), i as int, 24),
{
    let ghost g0 = builder.gates@;
    let mut acc = builder.constant(0);
    proof {
        assert(builder.gates@.subrange(0, g0.len() as int) =~= g0);
    }
    let mut k: usize = 0;
    while k < 24
        invariant
            gates_wf(builder.gates@),
            extends(builder.gates@, g0),
            local@.len() == NUM_REGISTERS,
            targets_below(local@, g0.len() as int),
            i < 64,
            k <= 24,
            g0.len() <= acc < builder.gates@.len(),
            forall|inputs: Seq<u64>| #[trigger] wire_value(builder.gates@, inputs, acc as int)
                == rc_select(row_of(builder.gates@, inputs, local@), i as int, k as int),
        decreases 24 - k,
    {
        let ghost g1 = builder.gates@;
        let ghost acc1 = acc;
        let bit = rc_value_bit(k, i);
        let c = builder.constant(bit);
        let m = builder.mul_extension(local[k], c);
        let next = builder.add_extension(acc, m);
        proof {
            let g2 = builder.gates@;
            assert(g2.subrange(0, g1.len() as int) =~= g1);
            lemma_extends_trans(g0, g1, g2);
            lemma_wires_extend(g1, g2);
            assert forall|inputs: Seq<u64>| #[trigger] wire_value(g2, inputs, next as int)
                == rc_select(row_of(g2, inputs, local@), i as int, k + 1) by {
                lemma_rows_extend(g1, g2, inputs, local@);
                lemma_cell(g2, inputs, local@, k as int);
                assert(wire_value(g2, inputs, acc1 as int) == wire_value(g1, inputs, acc1 as int));
                assert(wire_value(g2, inputs, c as int) == spec_rc_bit(k as int, i as int));
                assert(wire_value(g2, inputs, m as int) == fmul(wire_value(g2, inputs, local@[k as int] as int), spec_rc_bit(k as int, i as int)));
                assert(wire_value(g2, inputs, next as int) == fadd(wire_value(g2, inputs, acc1 as int), wire_value(g2, inputs, m as int)));
            }
        }
        acc = next;
        k = k + 1;
    }
    acc
}

/// Emits bit `z` of `A'''[0, 0]`: a re-expanded bit xor the selected round constant.
#[verifier::rlimit(50)]
fn emit_iota_bit(builder: &mut CircuitBuilder, local: &Vec<Target>, z: usize, two: Target) -> (r: Target)
    requires
        gates_wf(old(builder).gates@),
        local@.len() == NUM_REGISTERS,
        targets_below(local@, old(builder).gates@.len() as int),
        two < old(builder).gates@.len(),
        old(builder).gates@[two as int] == Gate::Constant(2),
        z < 64,
    ensures
        gates_wf(final(builder).gates@),
        extends(final(builder).gates@, old(builder).gates@),
        old(builder).gates@.len() <= r < final(builder).gates@.len(),
        forall|inputs: Seq<u64>| #[trigger] wire_value(final(builder).gates@, inputs, r as int)
            == fiota(row_of(final(builder).gates@, inputs, local@), z as int),
{
    let ghost g0 = builder.gates@;
    let sel = emit_rc_select(builder, local, z);
    let ghost g1 = builder.gates@;
    assert(g1[two as int] == Gate::Constant(2));
    let b = local[START_A_PRIME_PRIME_0_0_BITS + z];
    let r = emit_xor(builder, b, sel, two);
    proof {
        let g2 = builder.gates@;
        lemma_extends_trans(g0, g1, g2);
        lemma_wires_extend(g1, g2);
        assert forall|inputs: Seq<u64>| #[trigger] wire_value(g2, inputs, r as int)
            == fiota(row_of(g2, inputs, local@), z as int) by {
            lemma_rows_extend(g1, g2, inputs, local@);
            lemma_cell(g2, inputs, local@, START_A_PRIME_PRIME_0_0_BITS + z);
            assert(wire_value(g2, inputs, sel as int) == wire_value(g1, inputs, sel as int));
        }
    }
    r
}

/// Emits `pack` of the bits of `A'''[0, 0]`, half `h`, folded from the top.
#[verifier::rlimit(50)]
fn emit_pack_iota(builder: &mut CircuitBuilder, local: &Vec<Target>, h: usize, two: Target) -> (r: Target)
    requires
        gates_wf(old(builder).gates@),
        local@.len() == NUM_REGISTERS,
        targets_below(local@, old(builder).gates@.len() as int),
        two < old(builder).gates@.len(),
        old(builder).gates@[two as int] == Gate::Constant(2),
        h < 2,
    ensures
        gates_wf(final(builder).gates@),
        extends(final(builder).gates@, old(builder).gates@),
        old(builder).gates@.len() <= r < final(builder).gates@.len(),
        forall|inputs: Seq<u64>| #[trigger] wire_value(final(builder).gates@, inputs, r as int)
            == fpack_iota(row_of(final(builder).gates@, inputs, local@), 32 * h, 32 * h + 32),
{
    let ghost g0 = builder.gates@;
    let lo = 32 * h;
    let hi = lo + 32;
    let mut acc = builder.constant(0);
    proof {
        assert(builder.gates@.subrange(0, g0.len() as int) =~= g0);
    }
    let mut z: usize = hi;
    while z > lo
        invariant
            gates_wf(builder.gates@),
            extends(builder.gates@, g0),
            local@.len() == NUM_REGISTERS,
            targets_below(local@, g0.len() as int),
            two < g0.len(),
            g0[two as int] == Gate::Constant(2),
            lo == 32 * h,
            hi == lo + 32,
            h < 2,
            lo <= z <= hi,
            g0.len() <= acc < builder.gates@.len(),
            forall|inputs: Seq<u64>| #[trigger] wire_value(builder.gates@, inputs, acc as int)
                == fpack_iota(row_of(builder.gates@, inputs, local@), z as int, hi as int),
        decreases z,
    {
        z = z - 1;
        let ghost g1 = builder.gates@;
        let ghost acc1 = acc;
        proof {
            assert(g1[two as int] == Gate::Constant(2));
            assert forall|k: int| 0 <= k < local@.len() implies #[trigger] local@[k] < g1.len() by {
                assert(local@[k] < g0.len());
            }
        }
        let bit = emit_iota_bit(builder, local, z, two);
        let ghost g2 = builder.gates@;
        let dbl = builder.add_extension(acc, acc);
        let next = builder.add_extension(dbl, bit);
        proof {
            let g3 = builder.gates@;
            assert(g3.subrange(0, g2.len() as int) =~= g2);
            lemma_extends_trans(g1, g2, g3);
            lemma_extends_trans(g0, g1, g3);
            lemma_wires_extend(g1, g3);
            lemma_wires_extend(g2, g3);
            assert forall|inputs: Seq<u64>| #[trigger] wire_value(g3, inputs, next as int)
                == fpack_iota(row_of(g3, inputs, local@), z as int, hi as int) by {
                lemma_rows_extend(g1, g3, inputs, local@);
                lemma_rows_extend(g2, g3, inputs, local@);
                assert(wire_value(g3, inputs, acc1 as int) == wire_value(g1, inputs, acc1 as int));
                assert(wire_value(g3, inputs, bit as int) == wire_value(g2, inputs, bit as int));
                assert(wire_value(g3, inputs, dbl as int) == fadd(wire_value(g3, inputs, acc1 as int), wire_value(g3, inputs, acc1 as int)));
            }
        }
        acc = next;
    }
    acc
}

/// Emits the wire of `keccak_circuit_flag_value(row, j)`.
#[verifier::rlimit(50)]
fn emit_flag_value(builder: &mut CircuitBuilder, local: &Vec<Target>, j: usize, two: Target) -> (r: Target)
    requires
        gates_wf(old(builder).gates@),
        local@.len() == NUM_REGISTERS,
        targets_below(local@, old(builder).gates@.len() as int),
        two < old(builder).gates@.len(),
        old(builder).gates@[two as int] == Gate::Constant(2),
        j < 93,
    ensures
        gates_wf(final(builder).gates@),
        extends(final(builder).gates@, old(builder).gates@),
        old(builder).gates@.len() <= r < final(builder).gates@.len(),
        forall|inputs: Seq<u64>| #[trigger] wire_value(final(builder).gates@, inputs, r as int)
            == keccak_circuit_flag_value(row_of(final(builder).gates@, inputs, local@), j as int),
{
    if j < 24 {
        emit_boolean(builder, local, j)
    } else if j == 24 {
        emit_step_sum(builder, local)
    } else if j < 89 {
        emit_boolean(builder, local, START_A_PRIME_PRIME_0_0_BITS + (j - 25))
    } else {
        let ghost g0 = builder.gates@;
        let (packed, target) = if j < 91 {
            let h = j - 89;
            (emit_pack_cells(builder, local, START_A_PRIME_PRIME_0_0_BITS, h), local[reg_a_prime_prime(0, 0) + h])
        } else {
            let h = j - 91;
            (emit_pack_iota(builder, local, h, two), local[REG_A_PRIME_PRIME_PRIME_0_0_LO + h])
        };
        let ghost g1 = builder.gates@;
        let r = builder.sub_extension(packed, target);
        proof {
            let g2 = builder.gates@;
            assert(g2.subrange(0, g1.len() as int) =~= g1);
            lemma_extends_trans(g0, g1, g2);
            lemma_wires_extend(g1, g2);
            assert forall|inputs: Seq<u64>| #[trigger] wire_value(g2, inputs, r as int)
                == keccak_circuit_flag_value(row_of(g2, inputs, local@), j as int) by {
                lemma_rows_extend(g1, g2, inputs, local@);
                if j < 91 {
                    lemma_cell(g2, inputs, local@, spec_reg_a_prime_prime(0, 0) + (j - 89));
                } else {
                    lemma_cell(g2, inputs, local@, REG_A_PRIME_PRIME_PRIME_0_0_LO + (j - 91));
                }
                assert(wire_value(g2, inputs, packed as int) == wire_value(g1, inputs, packed as int));
            }
        }
        r
    }
}

/// Emits the identities of the round flags, the re-expanded bits and iota.
#[verifier::rlimit(50)]
fn emit_flags_and_iota(builder: &mut CircuitBuilder, local: &Vec<Target>, two: Target, out: &mut Vec<Target>)
    requires
        gates_wf(old(builder).gates@),
        local@.len() == NUM_REGISTERS,
        targets_below(local@, old(builder).gates@.len() as int),
        two < old(builder).gates@.len(),
        old(builder).gates@[two as int] == Gate::Constant(2),
        old(out)@.len() == 2290,
        targets_below(old(out)@, old(builder).gates@.len() as int),
        outputs_ok(old(builder).gates@, local@, old(out)@),
    ensures
        gates_wf(final(builder).gates@),
        extends(final(builder).gates@, old(builder).gates@),
        final(out)@.len() == 2383,
        targets_below(final(out)@, final(builder).gates@.len() as int),
        outputs_ok(final(builder).gates@, local@, final(out)@),
{
    let ghost g0 = builder.gates@;
    assert(g0.subrange(0, g0.len() as int) =~= g0);
    let mut j: usize = 0;
    while j < 93
        invariant
            gates_wf(builder.gates@),
            extends(builder.gates@, g0),
            local@.len() == NUM_REGISTERS,
            targets_below(local@, g0.len() as int),
            two < g0.len(),
            g0[two as int] == Gate::Constant(2),
            j <= 93,
            out@.len() == 2290 + j,
            targets_below(out@, builder.gates@.len() as int),
            outputs_ok(builder.gates@, local@, out@),
        decreases 93 - j,
    {
        let ghost g1 = builder.gates@;
        let ghost out1 = out@;
        assert(g1[two as int] == Gate::Constant(2));
        proof {
            assert forall|k: int| 0 <= k < local@.len() implies #[trigger] local@[k] < g1.len() by {
                assert(local@[k] < g0.len());
            }
        }
        let r = emit_flag_value(builder, local, j, two);
        out.push(r);
        proof {
            let g2 = builder.gates@;
            lemma_extends_trans(g0, g1, g2);
            lemma_outputs_extend(g1, g2, local@, out1);
            assert forall|inputs: Seq<u64>, k: int| 0 <= k < out@.len() implies #[trigger] wire_value(g2, inputs, out@[k] as int)
                == keccak_circuit_value(row_of(g2, inputs, local@), k) by {
                if k < 2290 + j {
                    assert(out@[k] == out1[k]);
                } else {
                    assert(out@[k] == r);
                }
            }
        }
        j = j + 1;
    }
}


/// The value of emitted transition wire `k`: the 24 round-flag moves, then the two
/// halves of the link of each of the 25 lanes.
pub open spec fn keccak_transition_value(local: Seq<u64>, next: Seq<u64>, k: int) -> int {
    if k < 24 {
        fsub(val(next, (k + 1) % 24), val(local, k))
    } else {
        let j = k - 24;
        let x = (j / 2) / 5;
        let y = (j / 2) % 5;
        let h = j % 2;
        let out = if h == 0 { out_lo(local, x, y) } else { out_hi(local, x, y) };
        fmul(fsub(1, val(local, 23)), fsub(fpack_cells(next, spec_reg_a(x, y, 0), 32 * h, 32 * h + 32), out))
    }
}

pub open spec fn transition_outputs_ok(g: Seq<Gate>, local: Seq<Target>, next: Seq<Target>, out: Seq<Target>) -> bool {
    forall|inputs: Seq<u64>, k: int|
        0 <= k < out.len() ==> #[trigger] wire_value(g, inputs, out[k] as int) == keccak_transition_value(
            row_of(g, inputs, local),
            row_of(g, inputs, next),
            k,
        )
}

#[verifier::rlimit(50)]
fn emit_transition_value(builder: &mut CircuitBuilder, local: &Vec<Target>, next: &Vec<Target>, k: usize) -> (r: Target)
    requires
        gates_wf(old(builder).gates@),
        local@.len() == NUM_REGISTERS,
        next@.len() == NUM_REGISTERS,
        targets_below(local@, old(builder).gates@.len() as int),
        targets_below(next@, old(builder).gates@.len() as int),
        k < 74,
    ensures
        gates_wf(final(builder).gates@),
        extends(final(builder).gates@, old(builder).gates@),
        old(builder).gates@.len() <= r < final(builder).gates@.len(),
        forall|inputs: Seq<u64>| #[trigger] wire_value(final(builder).gates@, inputs, r as int)
            == keccak_transition_value(row_of(final(builder).gates@, inputs, local@), row_of(final(builder).gates@, inputs, next@), k as int),
{
    let ghost g0 = builder.gates@;
    if k < 24 {
        let a = next[(k + 1) % 24];
        let b = local[k];
        let r = builder.sub_extension(a, b);
        proof {
            let g = builder.gates@;
            assert(g.subrange(0, g0.len() as int) =~= g0);
            assert forall|inputs: Seq<u64>| #[trigger] wire_value(g, inputs, r as int)
                == keccak_transition_value(row_of(g, inputs, local@), row_of(g, inputs, next@), k as int) by {
                lemma_cell(g, inputs, next@, (k + 1) % 24);
                lemma_cell(g, inputs, local@, k as int);
            }
        }
        r
    } else {
        let j = k - 24;
        let x = (j / 2) / 5;
        let y = (j / 2) % 5;
        let h = j % 2;
        let out = if x == 0 && y == 0 {
            local[REG_A_PRIME_PRIME_PRIME_0_0_LO + h]
        } else {
            local[reg_a_prime_prime(x, y) + h]
        };
        let flag = local[23];
        let packed = emit_pack_cells(builder, next, reg_a(x, y, 0), h);
        let ghost g1 = builder.gates@;
        let one = builder.constant(1);
        let gate = builder.sub_extension(one, flag);
        let diff = builder.sub_extension(packed, out);
        let r = builder.mul_extension(gate, diff);
        proof {
            let g2 = builder.gates@;
            assert(g2.subrange(0, g1.len() as int) =~= g1);
            lemma_extends_trans(g0, g1, g2);
            lemma_wires_extend(g1, g2);
            assert forall|inputs: Seq<u64>| #[trigger] wire_value(g2, inputs, r as int)
                == keccak_transition_value(row_of(g2, inputs, local@), row_of(g2, inputs, next@), k as int) by {
                lemma_rows_extend(g1, g2, inputs, next@);
                lemma_cell(g2, inputs, local@, 23);
                if x == 0 && y == 0 {
                    lemma_cell(g2, inputs, local@, REG_A_PRIME_PRIME_PRIME_0_0_LO + h);
                } else {
                    lemma_cell(g2, inputs, local@, spec_reg_a_prime_prime(x as int, y as int) + h);
                }
                assert(wire_value(g2, inputs, packed as int) == wire_value(g1, inputs, packed as int));
                assert(wire_value(g2, inputs, one as int) == 1);
                assert(wire_value(g2, inputs, gate as int) == fsub(1, wire_value(g2, inputs, flag as int)));
                assert(wire_value(g2, inputs, diff as int) == fsub(wire_value(g2, inputs, packed as int), wire_value(g2, inputs, out as int)));
            }
        }
        r
    }
}

impl Keccak {
    /// Emits every identity over a row and the next one: on every witness emitted
    /// wire `k` carries `keccak_transition_value(local, next, k)`.
    #[verifier::rlimit(50)]
    pub fn eval_transition_recursively(&self, builder: &mut CircuitBuilder, local: &Vec<Target>, next: &Vec<Target>) -> (out: Vec<Target>)
        requires
            gates_wf(old(builder).gates@),
            local@.len() == NUM_REGISTERS,
            next@.len() == NUM_REGISTERS,
            targets_below(local@, old(builder).gates@.len() as int),
            targets_below(next@, old(builder).gates@.len() as int),
        ensures
            gates_wf(final(builder).gates@),
            extends(final(builder).gates@, old(builder).gates@),
            out@.len() == 74,
            targets_below(out@, final(builder).gates@.len() as int),
            transition_outputs_ok(final(builder).gates@, local@, next@, out@),
    {
        let ghost g0 = builder.gates@;
        assert(g0.subrange(0, g0.len() as int) =~= g0);
        let mut out: Vec<Target> = Vec::new();
        let mut k: usize = 0;
        while k < 74
            invariant
                gates_wf(builder.gates@),
                extends(builder.gates@, g0),
                local@.len() == NUM_REGISTERS,
                next@.len() == NUM_REGISTERS,
                targets_below(local@, g0.len() as int),
                targets_below(next@, g0.len() as int),
                k <= 74,
                out@.len() == k,
                targets_below(out@, builder.gates@.len() as int),
                transition_outputs_ok(builder.gates@, local@, next@, out@),
            decreases 74 - k,
        {
            let ghost g1 = builder.gates@;
            let ghost out1 = out@;
            proof {
                assert forall|t: int| 0 <= t < local@.len() implies #[trigger] local@[t] < g1.len() by {
                    assert(local@[t] < g0.len());
                }
                assert forall|t: int| 0 <= t < next@.len() implies #[trigger] next@[t] < g1.len() by {
                    assert(next@[t] < g0.len());
                }
            }
            let r = emit_transition_value(builder, local, next, k);
            out.push(r);
            proof {
                let g2 = builder.gates@;
                lemma_extends_trans(g0, g1, g2);
                lemma_wires_extend(g1, g2);
                assert forall|inputs: Seq<u64>, t: int| 0 <= t < out@.len() implies #[trigger] wire_value(g2, inputs, out@[t] as int)
                    == keccak_transition_value(row_of(g2, inputs, local@), row_of(g2, inputs, next@), t) by {
                    lemma_rows_extend(g1, g2, inputs, local@);
                    lemma_rows_extend(g1, g2, inputs, next@);
                    if t < k {
                        assert(out@[t] == out1[t]);
                        assert(wire_value(g2, inputs, out1[t] as int) == wire_value(g1, inputs, out1[t] as int));
                    } else {
                        assert(out@[t] == r);
                    }
                }
            }
            k = k + 1;
        }
        out
    }
}

/// The emitted transition identities vanish exactly when the native transition
/// identities hold.
#[verifier::rlimit(50)]
pub proof fn lemma_keccak_transition_values(local: Seq<u64>, next: Seq<u64>)
    requires
        local.len() == NUM_REGISTERS,
        next.len() == NUM_REGISTERS,
    ensures
        (forall|k: int| 0 <= k < 74 ==> #[trigger] keccak_transition_value(local, next, k) == 0) <==> transition_constraints(local, next),
{
    if forall|k: int| 0 <= k < 74 ==> #[trigger] keccak_transition_value(local, next, k) == 0 {
        assert forall|k: int| 0 <= k < 24 implies #[trigger] step_transition_holds(local, next, k) by {
            assert(keccak_transition_value(local, next, k) == 0);
        }
        assert forall|x: int, y: int| 0 <= x < 5 && 0 <= y < 5 implies #[trigger] link_holds(local, next, x, y) by {
            let k0 = 24 + 2 * (x * 5 + y);
            assert(((k0 - 24) / 2) / 5 == x && ((k0 - 24) / 2) % 5 == y && (k0 - 24) % 2 == 0);
            assert(((k0 + 1 - 24) / 2) / 5 == x && ((k0 + 1 - 24) / 2) % 5 == y && (k0 + 1 - 24) % 2 == 1);
            assert(keccak_transition_value(local, next, k0) == 0);
            assert(keccak_transition_value(local, next, k0 + 1) == 0);
        }
    }
    if transition_constraints(local, next) {
        assert forall|k: int| 0 <= k < 74 implies #[trigger] keccak_transition_value(local, next, k) == 0 by {
            if k < 24 {
                assert(step_transition_holds(local, next, k));
            } else {
                assert(link_holds(local, next, ((k - 24) / 2) / 5, ((k - 24) / 2) % 5));
            }
        }
    }
}

} // verus!

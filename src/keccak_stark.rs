//! The Keccak constraint set: polynomial identities over a row and the next one,
//! evaluated in the Goldilocks field.
use crate::field::{
    bxor, fadd, fandn, field_add, field_andn, field_mul, field_sub, field_xor, fmul, fsub, fxor,
    is_bit, lemma_bit_ops, lemma_fadd_small, lemma_fmul_bits,
    lemma_fmul_zero, lemma_fsub_small, lemma_sub_self, ORDER,
};
use crate::keccak::{
    rows_view, Keccak, keccak_state, trace_row_spec, zero_input, chi, chi_lane, iota, iota_lane, is_state, keccak_round, lemma_pack_bound, lemma_pack_half_bound,
    lemma_state_index, pack, rho_pi, row_matches, state_at, theta, theta_c, theta_c_partial,
};
use crate::keccak_registers::{
    reg_a, reg_a_prime, reg_a_prime_prime, reg_c, reg_c_partial, spec_rc_bit, spec_reg_a, spec_reg_a_prime, spec_reg_a_prime_prime, spec_reg_b, spec_reg_c,
    spec_reg_c_partial, NUM_REGISTERS, REG_A_PRIME_PRIME_PRIME_0_0_HI,
    REG_A_PRIME_PRIME_PRIME_0_0_LO, START_A_PRIME_PRIME_0_0_BITS,
};
use vstd::arithmetic::power2::{lemma2_to64, lemma_pow2_strictly_increases};
use vstd::prelude::*;

verus! {

pub open spec fn val(row: Seq<u64>, i: int) -> int {
    row[i] as int
}

/// `xor3(a, b, c) = a + b + c - 2(ab + bc + ca) + 4abc`, written as two xors.
pub open spec fn fxor3(a: int, b: int, c: int) -> int {
    fxor(fxor(a, b), c)
}

/// Bit z of `A''[x, y]` as the constraint computes it from the B aliases.
pub open spec fn fchi(row: Seq<u64>, x: int, y: int, z: int) -> int {
    fxor(
        val(row, spec_reg_b(x, y, z)),
        fandn(val(row, spec_reg_b((x + 1) % 5, y, z)), val(row, spec_reg_b((x + 2) % 5, y, z))),
    )
}

/// `sum_{lo <= z < hi} 2^(z - lo) * chi bit z`, folded as `acc * 2 + bit` from the top.
pub open spec fn fpack_chi(row: Seq<u64>, x: int, y: int, lo: int, hi: int) -> int
    decreases hi - lo,
{
    if lo >= hi {
        0
    } else {
        let acc = fpack_chi(row, x, y, lo + 1, hi);
        fadd(fadd(acc, acc), fchi(row, x, y, lo))
    }
}

/// The same fold over the cells `row[start + z]`.
pub open spec fn fpack_cells(row: Seq<u64>, start: int, lo: int, hi: int) -> int
    decreases hi - lo,
{
    if lo >= hi {
        0
    } else {
        let acc = fpack_cells(row, start, lo + 1, hi);
        fadd(fadd(acc, acc), val(row, start + lo))
    }
}

/// `sum_{r < k} step[r] * RC[r]_i`: bit i of the round constant selected by the round flags.
pub open spec fn rc_select(row: Seq<u64>, i: int, k: int) -> int
    decreases k,
{
    if k <= 0 {
        0
    } else {
        fadd(rc_select(row, i, k - 1), fmul(val(row, k - 1), spec_rc_bit(k - 1, i)))
    }
}

/// Bit i of `A'''[0, 0]`: a re-expanded bit of `A''[0, 0]` xor the round constant.
pub open spec fn fiota(row: Seq<u64>, i: int) -> int {
    fxor(val(row, START_A_PRIME_PRIME_0_0_BITS + i), rc_select(row, i, 24))
}

pub open spec fn fpack_iota(row: Seq<u64>, lo: int, hi: int) -> int
    decreases hi - lo,
{
    if lo >= hi {
        0
    } else {
        let acc = fpack_iota(row, lo + 1, hi);
        fadd(fadd(acc, acc), fiota(row, lo))
    }
}

pub open spec fn step_sum(row: Seq<u64>, k: int) -> int
    decreases k,
{
    if k <= 0 {
        0
    } else {
        fadd(step_sum(row, k - 1), val(row, k - 1))
    }
}

// The identities, one predicate for each.

pub open spec fn step_bool_holds(row: Seq<u64>, k: int) -> bool {
    fmul(val(row, k), fsub(1, val(row, k))) == 0
}

pub open spec fn step_sum_holds(row: Seq<u64>) -> bool {
    fsub(step_sum(row, 24), 1) == 0
}

pub open spec fn c_partial_holds(row: Seq<u64>, x: int, z: int) -> bool {
    fsub(
        val(row, spec_reg_c_partial(x, z)),
        fxor3(val(row, spec_reg_a(x, 0, z)), val(row, spec_reg_a(x, 1, z)), val(row, spec_reg_a(x, 2, z))),
    ) == 0
}

pub open spec fn c_holds(row: Seq<u64>, x: int, z: int) -> bool {
    fsub(
        val(row, spec_reg_c(x, z)),
        fxor3(val(row, spec_reg_c_partial(x, z)), val(row, spec_reg_a(x, 3, z)), val(row, spec_reg_a(x, 4, z))),
    ) == 0
}

pub open spec fn a_prime_holds(row: Seq<u64>, x: int, y: int, z: int) -> bool {
    let d = fxor(val(row, spec_reg_c((x + 4) % 5, z)), val(row, spec_reg_c((x + 1) % 5, (z + 63) % 64)));
    fsub(val(row, spec_reg_a_prime(x, y, z)), fxor(d, val(row, spec_reg_a(x, y, z)))) == 0
}

pub open spec fn a_prime_prime_holds(row: Seq<u64>, x: int, y: int) -> bool {
    &&& fsub(fpack_chi(row, x, y, 0, 32), val(row, spec_reg_a_prime_prime(x, y))) == 0
    &&& fsub(fpack_chi(row, x, y, 32, 64), val(row, spec_reg_a_prime_prime(x, y) + 1)) == 0
}

pub open spec fn bit_bool_holds(row: Seq<u64>, i: int) -> bool {
    fmul(val(row, START_A_PRIME_PRIME_0_0_BITS + i), fsub(1, val(row, START_A_PRIME_PRIME_0_0_BITS + i))) == 0
}

pub open spec fn bits_pack_holds(row: Seq<u64>) -> bool {
    &&& fsub(fpack_cells(row, START_A_PRIME_PRIME_0_0_BITS as int, 0, 32), val(row, spec_reg_a_prime_prime(0, 0))) == 0
    &&& fsub(fpack_cells(row, START_A_PRIME_PRIME_0_0_BITS as int, 32, 64), val(row, spec_reg_a_prime_prime(0, 0) + 1)) == 0
}

pub open spec fn iota_holds(row: Seq<u64>) -> bool {
    &&& fsub(fpack_iota(row, 0, 32), val(row, REG_A_PRIME_PRIME_PRIME_0_0_LO as int)) == 0
    &&& fsub(fpack_iota(row, 32, 64), val(row, REG_A_PRIME_PRIME_PRIME_0_0_HI as int)) == 0
}

/// Every identity over a single row vanishes.
pub open spec fn local_constraints(row: Seq<u64>) -> bool {
    &&& row.len() == NUM_REGISTERS
    &&& forall|k: int| 0 <= k < 24 ==> #[trigger] step_bool_holds(row, k)
    &&& step_sum_holds(row)
    &&& forall|x: int, z: int| 0 <= x < 5 && 0 <= z < 64 ==> #[trigger] c_partial_holds(row, x, z)
    &&& forall|x: int, z: int| 0 <= x < 5 && 0 <= z < 64 ==> #[trigger] c_holds(row, x, z)
    &&& forall|x: int, y: int, z: int|
        0 <= x < 5 && 0 <= y < 5 && 0 <= z < 64 ==> #[trigger] a_prime_holds(row, x, y, z)
    &&& forall|x: int, y: int| 0 <= x < 5 && 0 <= y < 5 ==> #[trigger] a_prime_prime_holds(row, x, y)
    &&& forall|i: int| 0 <= i < 64 ==> #[trigger] bit_bool_holds(row, i)
    &&& bits_pack_holds(row)
    &&& iota_holds(row)
}

/// The round flag moves on by one: `step[(k + 1) % 24]` of the next row is `step[k]` of this one.
pub open spec fn step_transition_holds(local: Seq<u64>, next: Seq<u64>, k: int) -> bool {
    fsub(val(next, (k + 1) % 24), val(local, k)) == 0
}

/// The halves of output lane (x, y) of a row.
pub open spec fn out_lo(row: Seq<u64>, x: int, y: int) -> int {
    if x == 0 && y == 0 {
        val(row, REG_A_PRIME_PRIME_PRIME_0_0_LO as int)
    } else {
        val(row, spec_reg_a_prime_prime(x, y))
    }
}

pub open spec fn out_hi(row: Seq<u64>, x: int, y: int) -> int {
    if x == 0 && y == 0 {
        val(row, REG_A_PRIME_PRIME_PRIME_0_0_HI as int)
    } else {
        val(row, spec_reg_a_prime_prime(x, y) + 1)
    }
}

/// Unless this row is the last round, lane (x, y) of the next row's A is this row's output.
pub open spec fn link_holds(local: Seq<u64>, next: Seq<u64>, x: int, y: int) -> bool {
    let gate = fsub(1, val(local, 23));
    &&& fmul(gate, fsub(fpack_cells(next, spec_reg_a(x, y, 0), 0, 32), out_lo(local, x, y))) == 0
    &&& fmul(gate, fsub(fpack_cells(next, spec_reg_a(x, y, 0), 32, 64), out_hi(local, x, y))) == 0
}

/// Every identity over a row and the next one vanishes.
pub open spec fn transition_constraints(local: Seq<u64>, next: Seq<u64>) -> bool {
    &&& local.len() == NUM_REGISTERS
    &&& next.len() == NUM_REGISTERS
    &&& forall|k: int| 0 <= k < 24 ==> #[trigger] step_transition_holds(local, next, k)
    &&& forall|x: int, y: int| 0 <= x < 5 && 0 <= y < 5 ==> #[trigger] link_holds(local, next, x, y)
}

/// A trace satisfies the constraint set: the single-row identities on every row,
/// the transition identities on every pair of adjacent rows.
pub open spec fn trace_satisfies(rows: Seq<Seq<u64>>) -> bool {
    &&& forall|i: int| 0 <= i < rows.len() ==> local_constraints(#[trigger] rows[i])
    &&& forall|i: int| 0 <= i < rows.len() - 1 ==> transition_constraints(#[trigger] rows[i], rows[i + 1])
}


// ---------------------------------------------------------------------------
// Generated rows satisfy the identities.

proof fn lemma_rc_bit_is_bit(r: int, i: int)
    requires
        0 <= r < 24,
        0 <= i < 64,
    ensures
        is_bit(spec_rc_bit(r, i)),
{
    let c = crate::keccak_registers::rc_table()[r];
    let ii = i as u64;
    assert((c >> ii) & 1u64 <= 1) by (bit_vector);
}

#[verifier::rlimit(50)]
proof fn lemma_fpack_chi_eq(row: Seq<u64>, s: Seq<int>, x: int, y: int, lo: int, hi: int)
    requires
        row.len() == NUM_REGISTERS,
        crate::keccak::a_prime_ok(row, s),
        0 <= x < 5,
        0 <= y < 5,
        0 <= lo <= hi <= 64,
        hi - lo <= 32,
    ensures
        fpack_chi(row, x, y, lo, hi) == pack(chi_lane(s, x, y), lo, hi),
    decreases hi - lo,
{
    if lo < hi {
        lemma_fpack_chi_eq(row, s, x, y, lo + 1, hi);
        let z = lo;
        assert forall|xx: int| 0 <= xx < 5 implies val(row, spec_reg_b(xx, y, z)) == rho_pi(s, xx, y, z) by {
            let a = (xx + 3 * y) % 5;
            let zz = (z + 64 - crate::keccak_registers::rho_offset(a, xx)) % 64;
            assert(row[spec_reg_a_prime(a, xx, zz)] as int == theta(s, a, xx, zz));
        }
        let b0 = rho_pi(s, x, y, z);
        let b1 = rho_pi(s, (x + 1) % 5, y, z);
        let b2 = rho_pi(s, (x + 2) % 5, y, z);
        lemma_bit_ops(b1, b2);
        lemma_bit_ops(b0, bandn_of(b1, b2));
        assert(fchi(row, x, y, z) == chi(s, x, y, z));
        lemma_pack_bound(chi_lane(s, x, y), lo + 1, hi);
        lemma_pow2_strictly_increases((hi - lo - 1) as nat, 32);
        lemma2_to64();
        let acc = pack(chi_lane(s, x, y), lo + 1, hi);
        lemma_fadd_small(acc, acc);
        lemma_fadd_small(2 * acc, chi(s, x, y, z));
    }
}

spec fn bandn_of(a: int, b: int) -> int {
    crate::field::bandn(a, b)
}

proof fn lemma_fpack_cells_eq(row: Seq<u64>, start: int, lane: Seq<int>, lo: int, hi: int)
    requires
        0 <= lo <= hi <= lane.len(),
        hi - lo <= 32,
        forall|z: int| lo <= z < hi ==> val(row, start + z) == #[trigger] lane[z],
        forall|z: int| lo <= z < hi ==> is_bit(#[trigger] lane[z]),
    ensures
        fpack_cells(row, start, lo, hi) == pack(lane, lo, hi),
    decreases hi - lo,
{
    if lo < hi {
        lemma_fpack_cells_eq(row, start, lane, lo + 1, hi);
        lemma_pack_bound(lane, lo + 1, hi);
        lemma_pow2_strictly_increases((hi - lo - 1) as nat, 32);
        lemma2_to64();
        assert(val(row, start + lo) == lane[lo]);
        let acc = pack(lane, lo + 1, hi);
        lemma_fadd_small(acc, acc);
        lemma_fadd_small(2 * acc, lane[lo]);
    }
}

proof fn lemma_rc_select(row: Seq<u64>, r: int, i: int, k: int)
    requires
        row.len() == NUM_REGISTERS,
        crate::keccak::steps_ok(row, r),
        0 <= r < 24,
        0 <= i < 64,
        0 <= k <= 24,
    ensures
        rc_select(row, i, k) == if r < k { spec_rc_bit(r, i) } else { 0 },
    decreases k,
{
    if k > 0 {
        lemma_rc_select(row, r, i, k - 1);
        lemma_rc_bit_is_bit(k - 1, i);
        lemma_rc_bit_is_bit(r, i);
        assert(row[k - 1] as int == if k - 1 == r { 1int } else { 0int });
        lemma_fmul_bits(val(row, k - 1), spec_rc_bit(k - 1, i));
        lemma_fadd_small(rc_select(row, i, k - 1), fmul(val(row, k - 1), spec_rc_bit(k - 1, i)));
    }
}

#[verifier::rlimit(50)]
proof fn lemma_fpack_iota_eq(row: Seq<u64>, s: Seq<int>, r: int, lo: int, hi: int)
    requires
        row_matches(row, s, r),
        0 <= r < 24,
        0 <= lo <= hi <= 64,
        hi - lo <= 32,
    ensures
        fpack_iota(row, lo, hi) == pack(iota_lane(s, r), lo, hi),
    decreases hi - lo,
{
    reveal(row_matches);
    if lo < hi {
        lemma_fpack_iota_eq(row, s, r, lo + 1, hi);
        lemma_rc_select(row, r, lo, 24);
        lemma_rc_bit_is_bit(r, lo);
        assert(row[START_A_PRIME_PRIME_0_0_BITS + lo] as int == chi(s, 0, 0, lo));
        lemma_bit_ops(chi(s, 0, 0, lo), spec_rc_bit(r, lo));
        lemma_pack_bound(iota_lane(s, r), lo + 1, hi);
        lemma_pow2_strictly_increases((hi - lo - 1) as nat, 32);
        lemma2_to64();
        let acc = pack(iota_lane(s, r), lo + 1, hi);
        assert(fiota(row, lo) == iota(s, 0, 0, lo, r));
        lemma_fadd_small(acc, acc);
        lemma_fadd_small(2 * acc, iota(s, 0, 0, lo, r));
    }
}

proof fn lemma_step_sum(row: Seq<u64>, r: int, k: int)
    requires
        row.len() == NUM_REGISTERS,
        crate::keccak::steps_ok(row, r),
        0 <= r < 24,
        0 <= k <= 24,
    ensures
        step_sum(row, k) == if r < k { 1int } else { 0int },
    decreases k,
{
    if k > 0 {
        lemma_step_sum(row, r, k - 1);
        assert(row[k - 1] as int == if k - 1 == r { 1int } else { 0int });
        lemma_fadd_small(step_sum(row, k - 1), val(row, k - 1));
    }
}

/// The row of a round satisfies every single-row identity.
#[verifier::rlimit(50)]
pub proof fn lemma_row_satisfies_local(row: Seq<u64>, s: Seq<int>, r: int)
    requires
        row_matches(row, s, r),
        is_state(s),
        0 <= r < 24,
    ensures
        local_constraints(row),
{
    reveal(row_matches);
    assert forall|k: int| 0 <= k < 24 implies #[trigger] step_bool_holds(row, k) by {
        assert(row[k] as int == if k == r { 1int } else { 0int });
        lemma_fsub_small(1, val(row, k));
        lemma_fmul_bits(val(row, k), 1 - val(row, k));
    }
    lemma_step_sum(row, r, 24);
    lemma_sub_self(1);
    assert forall|x: int, z: int| 0 <= x < 5 && 0 <= z < 64 implies #[trigger] c_partial_holds(row, x, z) by {
        let a0 = state_at(s, x, 0, z);
        let a1 = state_at(s, x, 1, z);
        let a2 = state_at(s, x, 2, z);
        assert(row[spec_reg_a(x, 0, z)] as int == a0);
        assert(row[spec_reg_a(x, 1, z)] as int == a1);
        assert(row[spec_reg_a(x, 2, z)] as int == a2);
        assert(row[spec_reg_c_partial(x, z)] as int == theta_c_partial(s, x, z));
        lemma_bit_ops(a0, a1);
        lemma_bit_ops(bxor(a0, a1), a2);
        lemma_sub_self(theta_c_partial(s, x, z));
    }
    assert forall|x: int, z: int| 0 <= x < 5 && 0 <= z < 64 implies #[trigger] c_holds(row, x, z) by {
        let cp = theta_c_partial(s, x, z);
        let a3 = state_at(s, x, 3, z);
        let a4 = state_at(s, x, 4, z);
        assert(row[spec_reg_a(x, 3, z)] as int == a3);
        assert(row[spec_reg_a(x, 4, z)] as int == a4);
        assert(row[spec_reg_c_partial(x, z)] as int == cp);
        assert(row[spec_reg_c(x, z)] as int == theta_c(s, x, z));
        lemma_bit_ops(cp, a3);
        lemma_bit_ops(bxor(cp, a3), a4);
        lemma_sub_self(theta_c(s, x, z));
    }
    assert forall|x: int, y: int, z: int| 0 <= x < 5 && 0 <= y < 5 && 0 <= z < 64 implies #[trigger] a_prime_holds(row, x, y, z) by {
        let cl = theta_c(s, (x + 4) % 5, z);
        let cr = theta_c(s, (x + 1) % 5, (z + 63) % 64);
        let a = state_at(s, x, y, z);
        assert(row[spec_reg_c((x + 4) % 5, z)] as int == cl);
        assert(row[spec_reg_c((x + 1) % 5, (z + 63) % 64)] as int == cr);
        assert(row[spec_reg_a(x, y, z)] as int == a);
        assert(row[spec_reg_a_prime(x, y, z)] as int == theta(s, x, y, z));
        lemma_bit_ops(cl, cr);
        lemma_bit_ops(bxor(cl, cr), a);
        lemma_sub_self(theta(s, x, y, z));
    }
    assert forall|x: int, y: int| 0 <= x < 5 && 0 <= y < 5 implies #[trigger] a_prime_prime_holds(row, x, y) by {
        lemma_fpack_chi_eq(row, s, x, y, 0, 32);
        lemma_fpack_chi_eq(row, s, x, y, 32, 64);
        assert(row[spec_reg_a_prime_prime(x, y)] as int == pack(chi_lane(s, x, y), 0, 32));
        lemma_pack_half_bound(chi_lane(s, x, y), 0);
        lemma_pack_half_bound(chi_lane(s, x, y), 32);
        lemma_sub_self(pack(chi_lane(s, x, y), 0, 32));
        lemma_sub_self(pack(chi_lane(s, x, y), 32, 64));
    }
    assert forall|i: int| 0 <= i < 64 implies #[trigger] bit_bool_holds(row, i) by {
        let v = val(row, START_A_PRIME_PRIME_0_0_BITS + i);
        assert(row[START_A_PRIME_PRIME_0_0_BITS + i] as int == chi(s, 0, 0, i));
        lemma_fsub_small(1, v);
        lemma_fmul_bits(v, 1 - v);
    }
    let bits_start = START_A_PRIME_PRIME_0_0_BITS as int;
    assert forall|z: int| 0 <= z < 64 implies val(row, bits_start + z) == #[trigger] chi_lane(s, 0, 0)[z] by {
        assert(row[START_A_PRIME_PRIME_0_0_BITS + z] as int == chi(s, 0, 0, z));
    }
    lemma_fpack_cells_eq(row, bits_start, chi_lane(s, 0, 0), 0, 32);
    lemma_fpack_cells_eq(row, bits_start, chi_lane(s, 0, 0), 32, 64);
    assert(row[spec_reg_a_prime_prime(0, 0)] as int == pack(chi_lane(s, 0, 0), 0, 32));
    lemma_pack_half_bound(chi_lane(s, 0, 0), 0);
    lemma_pack_half_bound(chi_lane(s, 0, 0), 32);
    lemma_sub_self(pack(chi_lane(s, 0, 0), 0, 32));
    lemma_sub_self(pack(chi_lane(s, 0, 0), 32, 64));
    lemma_fpack_iota_eq(row, s, r, 0, 32);
    lemma_fpack_iota_eq(row, s, r, 32, 64);
    crate::keccak::lemma_iota_lane_bits(s, r);
    lemma_pack_half_bound(iota_lane(s, r), 0);
    lemma_pack_half_bound(iota_lane(s, r), 32);
    lemma_sub_self(pack(iota_lane(s, r), 0, 32));
    lemma_sub_self(pack(iota_lane(s, r), 32, 64));
}

/// Two rows of consecutive rounds satisfy every transition identity; across the
/// end of a permutation the link between states is switched off by the last round's flag.
#[verifier::rlimit(50)]
pub proof fn lemma_rows_satisfy_transition(local: Seq<u64>, next: Seq<u64>, s: Seq<int>, s2: Seq<int>, r: int)
    requires
        row_matches(local, s, r),
        row_matches(next, s2, (r + 1) % 24),
        0 <= r < 24,
        r < 23 ==> s2 == keccak_round(s, r),
    ensures
        transition_constraints(local, next),
{
    reveal(row_matches);
    lemma_step_transition(local, next, r);
    assert forall|x: int, y: int| 0 <= x < 5 && 0 <= y < 5 implies #[trigger] link_holds(local, next, x, y) by {
        lemma_link(local, next, s, s2, r, x, y);
    }
}

proof fn lemma_step_transition(local: Seq<u64>, next: Seq<u64>, r: int)
    requires
        local.len() == NUM_REGISTERS,
        next.len() == NUM_REGISTERS,
        crate::keccak::steps_ok(local, r),
        crate::keccak::steps_ok(next, (r + 1) % 24),
        0 <= r < 24,
    ensures
        forall|k: int| 0 <= k < 24 ==> #[trigger] step_transition_holds(local, next, k),
{
    assert forall|k: int| 0 <= k < 24 implies #[trigger] step_transition_holds(local, next, k) by {
        assert(local[k] as int == if k == r { 1int } else { 0int });
        assert(next[(k + 1) % 24] as int == if (k + 1) % 24 == (r + 1) % 24 { 1int } else { 0int });
        lemma_sub_self(val(local, k));
    }
}

#[verifier::rlimit(50)]
proof fn lemma_link(local: Seq<u64>, next: Seq<u64>, s: Seq<int>, s2: Seq<int>, r: int, x: int, y: int)
    requires
        local.len() == NUM_REGISTERS,
        next.len() == NUM_REGISTERS,
        crate::keccak::steps_ok(local, r),
        crate::keccak::a_prime_prime_ok(local, s),
        crate::keccak::iota_ok(local, s, r),
        crate::keccak::a_ok(next, s2),
        0 <= r < 24,
        r < 23 ==> s2 == keccak_round(s, r),
        0 <= x < 5,
        0 <= y < 5,
    ensures
        link_holds(local, next, x, y),
{
    assert(local[23] as int == if 23 == r { 1int } else { 0int });
    lemma_fmul_zero(fsub(fpack_cells(next, spec_reg_a(x, y, 0), 0, 32), out_lo(local, x, y)));
    lemma_fmul_zero(fsub(fpack_cells(next, spec_reg_a(x, y, 0), 32, 64), out_hi(local, x, y)));
    if r == 23 {
        lemma_sub_self(1);
    } else {
        lemma_fsub_small(1, 0);
        lemma_fmul_zero(1);
        let lane = if x == 0 && y == 0 { iota_lane(s, r) } else { chi_lane(s, x, y) };
        assert forall|z: int| 0 <= z < 64 implies val(next, spec_reg_a(x, y, 0) + z) == #[trigger] lane[z] by {
            assert(next[spec_reg_a(x, y, z)] as int == state_at(s2, x, y, z));
            lemma_state_index(x, y, z);
        }
        crate::keccak::lemma_chi_lane_bits(s, x, y);
        crate::keccak::lemma_iota_lane_bits(s, r);
        lemma_fpack_cells_eq(next, spec_reg_a(x, y, 0), lane, 0, 32);
        lemma_fpack_cells_eq(next, spec_reg_a(x, y, 0), lane, 32, 64);
        lemma_pack_half_bound(lane, 0);
        lemma_pack_half_bound(lane, 32);
        assert(local[spec_reg_a_prime_prime(x, y)] as int == pack(chi_lane(s, x, y), 0, 32));
        assert(out_lo(local, x, y) == pack(lane, 0, 32));
        assert(out_hi(local, x, y) == pack(lane, 32, 64));
        lemma_sub_self(pack(lane, 0, 32));
        lemma_sub_self(pack(lane, 32, 64));
    }
}

proof fn lemma_keccak_state_is_state(input: Seq<u64>, r: nat)
    requires
        input.len() == 25,
    ensures
        is_state(keccak_state(input, r)),
    decreases r,
{
    if r == 0 {
        assert forall|j: int| 0 <= j < 1600 implies is_bit(#[trigger] keccak_state(input, 0)[j]) by {
            let w = input[5 * (j / 320) + (j % 320) / 64];
            let zz = (j % 64) as u64;
            assert((w >> zz) & 1u64 <= 1) by (bit_vector);
        }
    } else {
        lemma_keccak_state_is_state(input, (r - 1) as nat);
    }
}

#[verifier::rlimit(50)]
proof fn lemma_trace_local_at(inputs: Seq<[u64; 25]>, row: Seq<u64>, i: int)
    requires
        0 <= i,
        row_matches(row, trace_row_spec(inputs, i).0, trace_row_spec(inputs, i).1),
    ensures
        local_constraints(row),
{
    let input = if i < inputs.len() * 24 { inputs[i / 24]@ } else { zero_input() };
    lemma_keccak_state_is_state(input, (i % 24) as nat);
    lemma_row_satisfies_local(row, trace_row_spec(inputs, i).0, i % 24);
}

#[verifier::rlimit(50)]
proof fn lemma_trace_transition_at(inputs: Seq<[u64; 25]>, row: Seq<u64>, next: Seq<u64>, i: int)
    requires
        0 <= i,
        row_matches(row, trace_row_spec(inputs, i).0, trace_row_spec(inputs, i).1),
        row_matches(next, trace_row_spec(inputs, i + 1).0, trace_row_spec(inputs, i + 1).1),
    ensures
        transition_constraints(row, next),
{
    let r = i % 24;
    assert((i + 1) % 24 == (r + 1) % 24);
    if r < 23 {
        assert((i + 1) % 24 == r + 1);
        assert((i + 1) / 24 == i / 24);
        let input = if i < inputs.len() * 24 { inputs[i / 24]@ } else { zero_input() };
        assert(i + 1 < inputs.len() * 24 <==> i < inputs.len() * 24);
        assert(keccak_state(input, (r + 1) as nat) == keccak_round(keccak_state(input, r as nat), r));
    }
    lemma_rows_satisfy_transition(row, next, trace_row_spec(inputs, i).0, trace_row_spec(inputs, i + 1).0, r);
}

/// Every trace that the generator produces satisfies every identity of the
/// constraint set on every row: a round of a preimage's permutation follows its
/// predecessor, and the tail repeats the permutation of the zero state.
#[verifier::rlimit(50)]
pub proof fn lemma_generated_trace_satisfies(inputs: Seq<[u64; 25]>, rows: Seq<Seq<u64>>)
    requires
        forall|i: int|
            0 <= i < rows.len() ==> row_matches(
                #[trigger] rows[i],
                trace_row_spec(inputs, i).0,
                trace_row_spec(inputs, i).1,
            ),
    ensures
        trace_satisfies(rows),
{
    assert forall|i: int| 0 <= i < rows.len() implies local_constraints(#[trigger] rows[i]) by {
        lemma_trace_local_at(inputs, rows[i], i);
    }
    assert forall|i: int| 0 <= i < rows.len() - 1 implies transition_constraints(#[trigger] rows[i], rows[i + 1]) by {
        assert(row_matches(rows[i + 1], trace_row_spec(inputs, i + 1).0, trace_row_spec(inputs, i + 1).1));
        lemma_trace_transition_at(inputs, rows[i], rows[i + 1], i);
    }
}


// ---------------------------------------------------------------------------
// Evaluation.

/// Every cell of the row is a canonical field element.
pub open spec fn row_canonical(row: Seq<u64>) -> bool {
    forall|i: int| 0 <= i < row.len() ==> #[trigger] row[i] < ORDER
}

fn fchi_exec(row: &Vec<u64>, x: usize, y: usize, z: usize) -> (r: u64)
    requires
        row@.len() == NUM_REGISTERS,
        row_canonical(row@),
        x < 5,
        y < 5,
        z < 64,
    ensures
        r == fchi(row@, x as int, y as int, z as int),
        r < ORDER,
{
    let b0 = row[crate::keccak_registers::reg_b(x, y, z)];
    let b1 = row[crate::keccak_registers::reg_b((x + 1) % 5, y, z)];
    let b2 = row[crate::keccak_registers::reg_b((x + 2) % 5, y, z)];
    field_xor(b0, field_andn(b1, b2))
}

fn fpack_chi_exec(row: &Vec<u64>, x: usize, y: usize, lo: usize) -> (r: u64)
    requires
        row@.len() == NUM_REGISTERS,
        row_canonical(row@),
        x < 5,
        y < 5,
        lo == 0 || lo == 32,
    ensures
        r == fpack_chi(row@, x as int, y as int, lo as int, lo + 32),
        r < ORDER,
{
    let hi = lo + 32;
    let mut acc: u64 = 0;
    let mut z: usize = hi;
    while z > lo
        invariant
            row@.len() == NUM_REGISTERS,
            row_canonical(row@),
            x < 5,
            y < 5,
            lo == 0 || lo == 32,
            hi == lo + 32,
            lo <= z <= hi,
            acc == fpack_chi(row@, x as int, y as int, z as int, hi as int),
            acc < ORDER,
        decreases z,
    {
        z = z - 1;
        let b = fchi_exec(row, x, y, z);
        let d = field_add(acc, acc);
        acc = field_add(d, b);
    }
    acc
}

fn fpack_cells_exec(row: &Vec<u64>, start: usize, lo: usize) -> (r: u64)
    requires
        row_canonical(row@),
        lo == 0 || lo == 32,
        start + 64 <= row@.len(),
        start + 64 <= usize::MAX,
    ensures
        r == fpack_cells(row@, start as int, lo as int, lo + 32),
        r < ORDER,
{
    let hi = lo + 32;
    let mut acc: u64 = 0;
    let mut z: usize = hi;
    while z > lo
        invariant
            row_canonical(row@),
            start + 64 <= row@.len(),
            start + 64 <= usize::MAX,
            lo == 0 || lo == 32,
            hi == lo + 32,
            lo <= z <= hi,
            acc == fpack_cells(row@, start as int, z as int, hi as int),
            acc < ORDER,
        decreases z,
    {
        z = z - 1;
        let b = row[start + z];
        let d = field_add(acc, acc);
        acc = field_add(d, b);
    }
    acc
}

fn rc_select_exec(row: &Vec<u64>, i: usize) -> (r: u64)
    requires
        row@.len() == NUM_REGISTERS,
        row_canonical(row@),
        i < 64,
    ensures
        r == rc_select(row@, i as int, 24),
        r < ORDER,
{
    let mut acc: u64 = 0;
    let mut k: usize = 0;
    while k < 24
        invariant
            row@.len() == NUM_REGISTERS,
            row_canonical(row@),
            i < 64,
            k <= 24,
            acc == rc_select(row@, i as int, k as int),
            acc < ORDER,
        decreases 24 - k,
    {
        let c = crate::keccak_registers::rc_value_bit(k, i);
        let t = field_mul(row[k], c);
        acc = field_add(acc, t);
        k = k + 1;
    }
    acc
}

fn fpack_iota_exec(row: &Vec<u64>, lo: usize) -> (r: u64)
    requires
        row@.len() == NUM_REGISTERS,
        row_canonical(row@),
        lo == 0 || lo == 32,
    ensures
        r == fpack_iota(row@, lo as int, lo + 32),
        r < ORDER,
{
    let hi = lo + 32;
    let mut acc: u64 = 0;
    let mut z: usize = hi;
    while z > lo
        invariant
            row@.len() == NUM_REGISTERS,
            row_canonical(row@),
            lo == 0 || lo == 32,
            hi == lo + 32,
            lo <= z <= hi,
            acc == fpack_iota(row@, z as int, hi as int),
            acc < ORDER,
        decreases z,
    {
        z = z - 1;
        let sel = rc_select_exec(row, z);
        let b = field_xor(row[START_A_PRIME_PRIME_0_0_BITS + z], sel);
        let d = field_add(acc, acc);
        acc = field_add(d, b);
    }
    acc
}

fn eval_round_flags(row: &Vec<u64>) -> (r: bool)
    requires
        row@.len() == NUM_REGISTERS,
        row_canonical(row@),
    ensures
        r == ((forall|k: int| 0 <= k < 24 ==> #[trigger] step_bool_holds(row@, k)) && step_sum_holds(row@)),
{
    let mut sum: u64 = 0;
    let mut k: usize = 0;
    while k < 24
        invariant
            row@.len() == NUM_REGISTERS,
            row_canonical(row@),
            k <= 24,
            sum == step_sum(row@, k as int),
            sum < ORDER,
            forall|j: int| 0 <= j < k ==> #[trigger] step_bool_holds(row@, j),
        decreases 24 - k,
    {
        let v = row[k];
        let t = field_mul(v, field_sub(1, v));
        if t != 0 {
            assert(!step_bool_holds(row@, k as int));
            return false;
        }
        sum = field_add(sum, v);
        k = k + 1;
    }
    field_sub(sum, 1) == 0
}

fn eval_theta(row: &Vec<u64>) -> (r: bool)
    requires
        row@.len() == NUM_REGISTERS,
        row_canonical(row@),
    ensures
        r == ((forall|x: int, z: int| 0 <= x < 5 && 0 <= z < 64 ==> #[trigger] c_partial_holds(row@, x, z))
            && (forall|x: int, z: int| 0 <= x < 5 && 0 <= z < 64 ==> #[trigger] c_holds(row@, x, z))
            && (forall|x: int, y: int, z: int|
            0 <= x < 5 && 0 <= y < 5 && 0 <= z < 64 ==> #[trigger] a_prime_holds(row@, x, y, z))),
{
    let mut i: usize = 0;
    while i < 320
        invariant
            row@.len() == NUM_REGISTERS,
            row_canonical(row@),
            i <= 320,
            forall|x: int, z: int| 0 <= x < 5 && 0 <= z < 64 && x * 64 + z < i ==> #[trigger] c_partial_holds(row@, x, z),
            forall|x: int, z: int| 0 <= x < 5 && 0 <= z < 64 && x * 64 + z < i ==> #[trigger] c_holds(row@, x, z),
        decreases 320 - i,
    {
        let x = i / 64;
        let z = i % 64;
        let a0 = row[reg_a(x, 0, z)];
        let a1 = row[reg_a(x, 1, z)];
        let a2 = row[reg_a(x, 2, z)];
        let a3 = row[reg_a(x, 3, z)];
        let a4 = row[reg_a(x, 4, z)];
        let c_partial = row[reg_c_partial(x, z)];
        let c = row[reg_c(x, z)];
        let t0 = field_sub(c_partial, field_xor(field_xor(a0, a1), a2));
        if t0 != 0 {
            assert(!c_partial_holds(row@, x as int, z as int));
            return false;
        }
        let t1 = field_sub(c, field_xor(field_xor(c_partial, a3), a4));
        if t1 != 0 {
            assert(!c_holds(row@, x as int, z as int));
            return false;
        }
        i = i + 1;
    }
    let mut i: usize = 0;
    while i < 1600
        invariant
            row@.len() == NUM_REGISTERS,
            row_canonical(row@),
            i <= 1600,
            forall|x: int, y: int, z: int|
                0 <= x < 5 && 0 <= y < 5 && 0 <= z < 64 && x * 320 + y * 64 + z < i
                    ==> #[trigger] a_prime_holds(row@, x, y, z),
        decreases 1600 - i,
    {
        let x = i / 320;
        let y = (i % 320) / 64;
        let z = i % 64;
        let c_left = row[reg_c((x + 4) % 5, z)];
        let c_right = row[reg_c((x + 1) % 5, (z + 63) % 64)];
        let d = field_xor(c_left, c_right);
        let a = row[reg_a(x, y, z)];
        let a_prime = row[reg_a_prime(x, y, z)];
        let t = field_sub(a_prime, field_xor(d, a));
        if t != 0 {
            assert(!a_prime_holds(row@, x as int, y as int, z as int));
            return false;
        }
        i = i + 1;
    }
    true
}

fn eval_chi_iota(row: &Vec<u64>) -> (r: bool)
    requires
        row@.len() == NUM_REGISTERS,
        row_canonical(row@),
    ensures
        r == ((forall|x: int, y: int| 0 <= x < 5 && 0 <= y < 5 ==> #[trigger] a_prime_prime_holds(row@, x, y))
            && (forall|i: int| 0 <= i < 64 ==> #[trigger] bit_bool_holds(row@, i))
            && bits_pack_holds(row@) && iota_holds(row@)),
{
    let mut i: usize = 0;
    while i < 25
        invariant
            row@.len() == NUM_REGISTERS,
            row_canonical(row@),
            i <= 25,
            forall|x: int, y: int| 0 <= x < 5 && 0 <= y < 5 && x * 5 + y < i ==> #[trigger] a_prime_prime_holds(row@, x, y),
        decreases 25 - i,
    {
        let x = i / 5;
        let y = i % 5;
        let reg_lo = reg_a_prime_prime(x, y);
        let lo = fpack_chi_exec(row, x, y, 0);
        let hi = fpack_chi_exec(row, x, y, 32);
        if field_sub(lo, row[reg_lo]) != 0 || field_sub(hi, row[reg_lo + 1]) != 0 {
            assert(!a_prime_prime_holds(row@, x as int, y as int));
            return false;
        }
        i = i + 1;
    }
    let mut i: usize = 0;
    while i < 64
        invariant
            row@.len() == NUM_REGISTERS,
            row_canonical(row@),
            i <= 64,
            forall|j: int| 0 <= j < i ==> #[trigger] bit_bool_holds(row@, j),
        decreases 64 - i,
    {
        let v = row[START_A_PRIME_PRIME_0_0_BITS + i];
        if field_mul(v, field_sub(1, v)) != 0 {
            assert(!bit_bool_holds(row@, i as int));
            return false;
        }
        i = i + 1;
    }
    let reg_lo = reg_a_prime_prime(0, 0);
    let bits_lo = fpack_cells_exec(row, START_A_PRIME_PRIME_0_0_BITS, 0);
    let bits_hi = fpack_cells_exec(row, START_A_PRIME_PRIME_0_0_BITS, 32);
    let iota_lo = fpack_iota_exec(row, 0);
    let iota_hi = fpack_iota_exec(row, 32);
    field_sub(bits_lo, row[reg_lo]) == 0 && field_sub(bits_hi, row[reg_lo + 1]) == 0
        && field_sub(iota_lo, row[REG_A_PRIME_PRIME_PRIME_0_0_LO]) == 0
        && field_sub(iota_hi, row[REG_A_PRIME_PRIME_PRIME_0_0_HI]) == 0
}

impl Default for Keccak {
    fn default() -> (r: Self) {
        Keccak
    }
}

impl Keccak {
    /// The largest degree of an identity: xor of three bits, and chi, are cubic.
    pub fn constraint_degree(&self) -> (r: usize)
        ensures
            r == 3,
    {
        3
    }

    /// Evaluates every single-row identity on `row`; true when all vanish.
    pub fn eval_row_constraints(&self, row: &Vec<u64>) -> (r: bool)
        requires
            row_canonical(row@),
        ensures
            r == local_constraints(row@),
    {
        if row.len() != NUM_REGISTERS {
            return false;
        }
        eval_round_flags(row) && eval_theta(row) && eval_chi_iota(row)
    }

    /// Evaluates every identity over `local` and the row after it; true when all vanish.
    pub fn eval_transition_constraints(&self, local: &Vec<u64>, next: &Vec<u64>) -> (r: bool)
        requires
            row_canonical(local@),
            row_canonical(next@),
        ensures
            r == transition_constraints(local@, next@),
    {
        if local.len() != NUM_REGISTERS || next.len() != NUM_REGISTERS {
            return false;
        }
        let mut k: usize = 0;
        while k < 24
            invariant
                local@.len() == NUM_REGISTERS,
                next@.len() == NUM_REGISTERS,
                row_canonical(local@),
                row_canonical(next@),
                k <= 24,
                forall|j: int| 0 <= j < k ==> #[trigger] step_transition_holds(local@, next@, j),
            decreases 24 - k,
        {
            if field_sub(next[(k + 1) % 24], local[k]) != 0 {
                assert(!step_transition_holds(local@, next@, k as int));
                return false;
            }
            k = k + 1;
        }
        let gate = field_sub(1, local[23]);
        let mut i: usize = 0;
        while i < 25
            invariant
                local@.len() == NUM_REGISTERS,
                next@.len() == NUM_REGISTERS,
                row_canonical(local@),
                row_canonical(next@),
                gate == fsub(1, val(local@, 23)),
                gate < ORDER,
                i <= 25,
                forall|j: int| 0 <= j < 24 ==> #[trigger] step_transition_holds(local@, next@, j),
                forall|x: int, y: int| 0 <= x < 5 && 0 <= y < 5 && x * 5 + y < i ==> #[trigger] link_holds(local@, next@, x, y),
            decreases 25 - i,
        {
            let x = i / 5;
            let y = i % 5;
            let (out_lo_v, out_hi_v) = if x == 0 && y == 0 {
                (local[REG_A_PRIME_PRIME_PRIME_0_0_LO], local[REG_A_PRIME_PRIME_PRIME_0_0_HI])
            } else {
                let reg = reg_a_prime_prime(x, y);
                (local[reg], local[reg + 1])
            };
            let start = reg_a(x, y, 0);
            let in_lo = fpack_cells_exec(next, start, 0);
            let in_hi = fpack_cells_exec(next, start, 32);
            let t_lo = field_mul(gate, field_sub(in_lo, out_lo_v));
            let t_hi = field_mul(gate, field_sub(in_hi, out_hi_v));
            if t_lo != 0 || t_hi != 0 {
                assert(!link_holds(local@, next@, x as int, y as int));
                return false;
            }
            i = i + 1;
        }
        true
    }

    /// Checks a whole trace against the constraint set.
    pub fn check_trace(&self, rows: &Vec<Vec<u64>>) -> (r: bool)
        requires
            forall|i: int| 0 <= i < rows@.len() ==> row_canonical(#[trigger] rows@[i]@),
        ensures
            r == trace_satisfies(rows_view(rows@)),
    {
        let ghost view = rows_view(rows@);
        let mut i: usize = 0;
        while i < rows.len()
            invariant
                view == rows_view(rows@),
                forall|t: int| 0 <= t < rows@.len() ==> row_canonical(#[trigger] rows@[t]@),
                i <= rows@.len(),
                forall|t: int| 0 <= t < i ==> local_constraints(#[trigger] view[t]),
                forall|t: int| 0 <= t < i && t + 1 < rows@.len() ==> transition_constraints(#[trigger] view[t], view[t + 1]),
            decreases rows@.len() - i,
        {
            if !self.eval_row_constraints(&rows[i]) {
                assert(!local_constraints(view[i as int]));
                return false;
            }
            if i + 1 < rows.len() {
                if !self.eval_transition_constraints(&rows[i], &rows[i + 1]) {
                    assert(!transition_constraints(view[i as int], view[i + 1]));
                    return false;
                }
            }
            i = i + 1;
        }
        true
    }
}

} // verus!

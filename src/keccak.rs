//! Keccak-f[1600] as an algebraic execution trace: one row per round.
use crate::field::{bandn, bxor, is_bit};
use crate::keccak_registers::{
    rc_value_bit, reg_a, reg_a_prime, reg_a_prime_prime, reg_b, reg_c, reg_c_partial,
    rho_offset, spec_rc_bit, spec_reg_a, spec_reg_a_prime, spec_reg_a_prime_prime,
    spec_reg_c, spec_reg_c_partial, INPUT_LIMBS, NUM_REGISTERS, NUM_ROUNDS,
    REG_A_PRIME_PRIME_PRIME_0_0_HI, REG_A_PRIME_PRIME_PRIME_0_0_LO, START_A,
    START_A_PRIME_PRIME_0_0_BITS,
};
use crate::keccak_stark::{lemma_generated_trace_satisfies, trace_satisfies};
use vstd::arithmetic::power2::{lemma2_to64, lemma_pow2_unfold, pow2};
use vstd::prelude::*;

verus! {

/// The Keccak-f[1600] STARK: its trace generator and its constraint set.
#[derive(Copy, Clone)]
pub struct Keccak;

// ---------------------------------------------------------------------------
// The permutation, bit by bit. A state is 1600 bits; bit z of lane (x, y) is at
// index 320x + 64y + z.

pub open spec fn state_at(s: Seq<int>, x: int, y: int, z: int) -> int {
    s[x * 320 + y * 64 + z]
}

pub open spec fn is_state(s: Seq<int>) -> bool {
    s.len() == 1600 && forall|i: int| 0 <= i < 1600 ==> is_bit(#[trigger] s[i])
}

/// `C_partial[x] = A[x, 0] ^ A[x, 1] ^ A[x, 2]`.
pub open spec fn theta_c_partial(s: Seq<int>, x: int, z: int) -> int {
    bxor(bxor(state_at(s, x, 0, z), state_at(s, x, 1, z)), state_at(s, x, 2, z))
}

/// `C[x] = C_partial[x] ^ A[x, 3] ^ A[x, 4]`.
pub open spec fn theta_c(s: Seq<int>, x: int, z: int) -> int {
    bxor(bxor(theta_c_partial(s, x, z), state_at(s, x, 3, z)), state_at(s, x, 4, z))
}

/// `D[x, z] = C[x - 1, z] ^ C[x + 1, z - 1]`.
pub open spec fn theta_d(s: Seq<int>, x: int, z: int) -> int {
    bxor(theta_c(s, (x + 4) % 5, z), theta_c(s, (x + 1) % 5, (z + 63) % 64))
}

/// `A'[x, y, z] = A[x, y, z] ^ D[x, z]`.
pub open spec fn theta(s: Seq<int>, x: int, y: int, z: int) -> int {
    bxor(theta_d(s, x, z), state_at(s, x, y, z))
}

/// `B[x, y, z]`: rho and pi applied to A'.
pub open spec fn rho_pi(s: Seq<int>, x: int, y: int, z: int) -> int {
    let a = (x + 3 * y) % 5;
    theta(s, a, x, (z + 64 - rho_offset(a, x)) % 64)
}

/// `A''[x, y, z] = B[x, y, z] ^ (!B[x + 1, y, z] & B[x + 2, y, z])`.
pub open spec fn chi(s: Seq<int>, x: int, y: int, z: int) -> int {
    bxor(rho_pi(s, x, y, z), bandn(rho_pi(s, (x + 1) % 5, y, z), rho_pi(s, (x + 2) % 5, y, z)))
}

/// `A'''`: iota adds the round constant to lane (0, 0).
pub open spec fn iota(s: Seq<int>, x: int, y: int, z: int, r: int) -> int {
    if x == 0 && y == 0 {
        bxor(chi(s, 0, 0, z), spec_rc_bit(r, z))
    } else {
        chi(s, x, y, z)
    }
}

/// One round of Keccak-f[1600].
pub open spec fn keccak_round(s: Seq<int>, r: int) -> Seq<int> {
    Seq::new(1600, |i: int| iota(s, i / 320, (i % 320) / 64, i % 64, r))
}

/// Bit z of a 64-bit lane.
pub open spec fn lane_bit(w: u64, z: int) -> int {
    ((w >> (z as u64)) & 1u64) as int
}

/// The state that a preimage gives: limb `5x + y` is lane (x, y).
pub open spec fn input_state(input: Seq<u64>) -> Seq<int> {
    Seq::new(1600, |i: int| lane_bit(input[5 * (i / 320) + (i % 320) / 64], i % 64))
}

/// The state after the first `r` rounds.
pub open spec fn keccak_state(input: Seq<u64>, r: nat) -> Seq<int>
    decreases r,
{
    if r == 0 {
        input_state(input)
    } else {
        keccak_round(keccak_state(input, (r - 1) as nat), r - 1)
    }
}

pub open spec fn chi_lane(s: Seq<int>, x: int, y: int) -> Seq<int> {
    Seq::new(64, |z: int| chi(s, x, y, z))
}

pub open spec fn iota_lane(s: Seq<int>, r: int) -> Seq<int> {
    Seq::new(64, |z: int| iota(s, 0, 0, z, r))
}

/// `sum_{lo <= z < hi} 2^(z - lo) * bits[z]`.
pub open spec fn pack(bits: Seq<int>, lo: int, hi: int) -> int
    decreases hi - lo,
{
    if lo >= hi {
        0
    } else {
        bits[lo] + 2 * pack(bits, lo + 1, hi)
    }
}

// ---------------------------------------------------------------------------
// What a generated row holds.

/// The round input bits held in a row.
pub open spec fn row_state(row: Seq<u64>) -> Seq<int> {
    Seq::new(1600, |i: int| row[START_A + i] as int)
}

pub open spec fn steps_ok(row: Seq<u64>, r: int) -> bool {
    forall|k: int| 0 <= k < 24 ==> #[trigger] row[k] as int == if k == r { 1int } else { 0int }
}

pub open spec fn a_ok(row: Seq<u64>, s: Seq<int>) -> bool {
    forall|x: int, y: int, z: int|
        0 <= x < 5 && 0 <= y < 5 && 0 <= z < 64 ==> row[#[trigger] spec_reg_a(x, y, z)] as int
            == state_at(s, x, y, z)
}

pub open spec fn c_partial_ok(row: Seq<u64>, s: Seq<int>) -> bool {
    forall|x: int, z: int|
        0 <= x < 5 && 0 <= z < 64 ==> row[#[trigger] spec_reg_c_partial(x, z)] as int
            == theta_c_partial(s, x, z)
}

pub open spec fn c_ok(row: Seq<u64>, s: Seq<int>) -> bool {
    forall|x: int, z: int|
        0 <= x < 5 && 0 <= z < 64 ==> row[#[trigger] spec_reg_c(x, z)] as int == theta_c(s, x, z)
}

pub open spec fn a_prime_ok(row: Seq<u64>, s: Seq<int>) -> bool {
    forall|x: int, y: int, z: int|
        0 <= x < 5 && 0 <= y < 5 && 0 <= z < 64 ==> row[#[trigger] spec_reg_a_prime(x, y, z)] as int
            == theta(s, x, y, z)
}

pub open spec fn a_prime_prime_ok(row: Seq<u64>, s: Seq<int>) -> bool {
    forall|x: int, y: int|
        0 <= x < 5 && 0 <= y < 5 ==> {
            &&& row[#[trigger] spec_reg_a_prime_prime(x, y)] as int == pack(chi_lane(s, x, y), 0, 32)
            &&& row[spec_reg_a_prime_prime(x, y) + 1] as int == pack(chi_lane(s, x, y), 32, 64)
        }
}

pub open spec fn a_prime_prime_bits_ok(row: Seq<u64>, s: Seq<int>) -> bool {
    forall|i: int|
        0 <= i < 64 ==> #[trigger] row[START_A_PRIME_PRIME_0_0_BITS + i] as int == chi(s, 0, 0, i)
}

pub open spec fn iota_ok(row: Seq<u64>, s: Seq<int>, r: int) -> bool {
    &&& row[REG_A_PRIME_PRIME_PRIME_0_0_LO as int] as int == pack(iota_lane(s, r), 0, 32)
    &&& row[REG_A_PRIME_PRIME_PRIME_0_0_HI as int] as int == pack(iota_lane(s, r), 32, 64)
}

/// `row` is the trace row of round `r` applied to state `s`: every register holds
/// the value that its definition gives.
#[verifier::opaque]
pub open spec fn row_matches(row: Seq<u64>, s: Seq<int>, r: int) -> bool {
    &&& row.len() == NUM_REGISTERS
    &&& steps_ok(row, r)
    &&& a_ok(row, s)
    &&& c_partial_ok(row, s)
    &&& c_ok(row, s)
    &&& a_prime_ok(row, s)
    &&& a_prime_prime_ok(row, s)
    &&& a_prime_prime_bits_ok(row, s)
    &&& iota_ok(row, s, r)
}

// ---------------------------------------------------------------------------
// Facts about the model.

pub proof fn lemma_row_matches_a_prime(row: Seq<u64>, s: Seq<int>, r: int)
    requires
        row_matches(row, s, r),
    ensures
        row.len() == NUM_REGISTERS,
        a_prime_ok(row, s),
{
    reveal(row_matches);
}

pub proof fn lemma_state_index(x: int, y: int, z: int)
    requires
        0 <= x < 5,
        0 <= y < 5,
        0 <= z < 64,
    ensures
        (x * 320 + y * 64 + z) / 320 == x,
        ((x * 320 + y * 64 + z) % 320) / 64 == y,
        (x * 320 + y * 64 + z) % 64 == z,
{
}

pub proof fn lemma_pack_bound(bits: Seq<int>, lo: int, hi: int)
    requires
        0 <= lo <= hi <= bits.len(),
        forall|i: int| lo <= i < hi ==> is_bit(#[trigger] bits[i]),
    ensures
        0 <= pack(bits, lo, hi) < pow2((hi - lo) as nat),
    decreases hi - lo,
{
    if lo < hi {
        lemma_pack_bound(bits, lo + 1, hi);
        lemma_pow2_unfold((hi - lo) as nat);
    } else {
        lemma2_to64();
    }
}

pub proof fn lemma_pack_half_bound(bits: Seq<int>, lo: int)
    requires
        0 <= lo,
        lo + 32 <= bits.len(),
        forall|i: int| lo <= i < lo + 32 ==> is_bit(#[trigger] bits[i]),
    ensures
        0 <= pack(bits, lo, lo + 32) < 0x1_0000_0000,
{
    lemma_pack_bound(bits, lo, lo + 32);
    lemma2_to64();
}

pub proof fn lemma_chi_lane_bits(s: Seq<int>, x: int, y: int)
    ensures
        forall|i: int| 0 <= i < 64 ==> is_bit(#[trigger] chi_lane(s, x, y)[i]),
{
}

pub proof fn lemma_iota_lane_bits(s: Seq<int>, r: int)
    ensures
        forall|i: int| 0 <= i < 64 ==> is_bit(#[trigger] iota_lane(s, r)[i]),
{
}

// ---------------------------------------------------------------------------
// Trace generation.

fn bit_xor(a: u64, b: u64) -> (r: u64)
    ensures
        r == bxor(a as int, b as int),
{
    if a == b {
        0
    } else {
        1
    }
}

fn bit_andn(a: u64, b: u64) -> (r: u64)
    ensures
        r == bandn(a as int, b as int),
{
    if a == 0 && b == 1 {
        1
    } else {
        0
    }
}

fn zero_row() -> (row: Vec<u64>)
    ensures
        row@.len() == NUM_REGISTERS,
        forall|i: int| 0 <= i < NUM_REGISTERS ==> #[trigger] row@[i] == 0,
{
    let mut row: Vec<u64> = Vec::new();
    while row.len() < NUM_REGISTERS
        invariant
            row@.len() <= NUM_REGISTERS,
            forall|i: int| 0 <= i < row@.len() ==> #[trigger] row@[i] == 0,
        decreases NUM_REGISTERS - row@.len(),
    {
        row.push(0);
    }
    row
}

/// Bit z of `A''[x, y]`, read from the A' registers of `row`.
fn chi_bit(row: &Vec<u64>, x: usize, y: usize, z: usize, Ghost(s): Ghost<Seq<int>>) -> (r: u64)
    requires
        row@.len() == NUM_REGISTERS,
        a_prime_ok(row@, s),
        x < 5,
        y < 5,
        z < 64,
    ensures
        r == chi(s, x as int, y as int, z as int),
{
    let b0 = row[reg_b(x, y, z)];
    let b1 = row[reg_b((x + 1) % 5, y, z)];
    let b2 = row[reg_b((x + 2) % 5, y, z)];
    let n = bit_andn(b1, b2);
    bit_xor(b0, n)
}

/// `pack(chi_lane(s, x, y), lo, hi)`, folded from the top bit down.
fn pack_chi(row: &Vec<u64>, x: usize, y: usize, lo: usize, Ghost(s): Ghost<Seq<int>>) -> (r: u64)
    requires
        row@.len() == NUM_REGISTERS,
        a_prime_ok(row@, s),
        x < 5,
        y < 5,
        lo == 0 || lo == 32,
    ensures
        r as int == pack(chi_lane(s, x as int, y as int), lo as int, lo + 32),
{
    let hi = lo + 32;
    let mut acc: u64 = 0;
    let mut z: usize = hi;
    proof {
        lemma_chi_lane_bits(s, x as int, y as int);
    }
    while z > lo
        invariant
            row@.len() == NUM_REGISTERS,
            a_prime_ok(row@, s),
            x < 5,
            y < 5,
            lo == 0 || lo == 32,
            hi == lo + 32,
            lo <= z <= hi,
            acc as int == pack(chi_lane(s, x as int, y as int), z as int, hi as int),
            forall|i: int| 0 <= i < 64 ==> is_bit(#[trigger] chi_lane(s, x as int, y as int)[i]),
        decreases z,
    {
        proof {
            lemma_pack_bound(chi_lane(s, x as int, y as int), z as int, hi as int);
            lemma_pow2_unfold((hi - z + 1) as nat);
            vstd::arithmetic::power2::lemma_pow2_strictly_increases((hi - z) as nat, 32);
            lemma2_to64();
        }
        z = z - 1;
        let b = chi_bit(row, x, y, z, Ghost(s));
        acc = 2 * acc + b;
    }
    acc
}

/// Bit z of `A'''[x, y]`: the round's output, that is the next round's input.
fn iota_bit(row: &Vec<u64>, x: usize, y: usize, z: usize, round: usize, Ghost(s): Ghost<Seq<int>>) -> (r: u64)
    requires
        row@.len() == NUM_REGISTERS,
        a_prime_ok(row@, s),
        x < 5,
        y < 5,
        z < 64,
        round < NUM_ROUNDS,
    ensures
        r == iota(s, x as int, y as int, z as int, round as int),
{
    let b = chi_bit(row, x, y, z, Ghost(s));
    if x == 0 && y == 0 {
        bit_xor(b, rc_value_bit(round, z))
    } else {
        b
    }
}

/// `pack(iota_lane(s, round), lo, lo + 32)`, folded from the top bit down.
fn pack_iota(row: &Vec<u64>, round: usize, lo: usize, Ghost(s): Ghost<Seq<int>>) -> (r: u64)
    requires
        row@.len() == NUM_REGISTERS,
        a_prime_ok(row@, s),
        round < NUM_ROUNDS,
        lo == 0 || lo == 32,
    ensures
        r as int == pack(iota_lane(s, round as int), lo as int, lo + 32),
{
    let hi = lo + 32;
    let mut acc: u64 = 0;
    let mut z: usize = hi;
    proof {
        lemma_iota_lane_bits(s, round as int);
    }
    while z > lo
        invariant
            row@.len() == NUM_REGISTERS,
            a_prime_ok(row@, s),
            round < NUM_ROUNDS,
            lo == 0 || lo == 32,
            hi == lo + 32,
            lo <= z <= hi,
            acc as int == pack(iota_lane(s, round as int), z as int, hi as int),
            forall|i: int| 0 <= i < 64 ==> is_bit(#[trigger] iota_lane(s, round as int)[i]),
        decreases z,
    {
        proof {
            lemma_pack_bound(iota_lane(s, round as int), z as int, hi as int);
            lemma_pow2_unfold((hi - z + 1) as nat);
            vstd::arithmetic::power2::lemma_pow2_strictly_increases((hi - z) as nat, 32);
            lemma2_to64();
        }
        z = z - 1;
        let b = iota_bit(row, 0, 0, z, round, Ghost(s));
        acc = 2 * acc + b;
    }
    acc
}

/// A row whose A registers hold the bits of a preimage.
fn input_row(input: &[u64; INPUT_LIMBS]) -> (row: Vec<u64>)
    ensures
        row@.len() == NUM_REGISTERS,
        row_state(row@) == input_state(input@),
        is_state(row_state(row@)),
{
    let mut row = zero_row();
    let mut i: usize = 0;
    while i < 1600
        invariant
            row@.len() == NUM_REGISTERS,
            i <= 1600,
            forall|j: int| 0 <= j < i ==> #[trigger] row@[START_A + j] as int == input_state(input@)[j],
        decreases 1600 - i,
    {
        let x = i / 320;
        let y = (i % 320) / 64;
        let z = i % 64;
        let limb = input[5 * x + y];
        let b = (limb >> (z as u64)) & 1u64;
        row.set(START_A + i, b);
        i = i + 1;
    }
    assert(row_state(row@) =~= input_state(input@));
    assert forall|j: int| 0 <= j < 1600 implies is_bit(#[trigger] row_state(row@)[j]) by {
        let w = input@[5 * (j / 320) + (j % 320) / 64];
        let zz = (j % 64) as u64;
        assert((w >> zz) & 1u64 <= 1) by (bit_vector);
    }
    row
}

/// A row whose A registers hold the output of round `round` of `prev`.
fn next_round_input(prev: &Vec<u64>, round: usize, Ghost(s): Ghost<Seq<int>>) -> (row: Vec<u64>)
    requires
        prev@.len() == NUM_REGISTERS,
        a_prime_ok(prev@, s),
        round < NUM_ROUNDS,
    ensures
        row@.len() == NUM_REGISTERS,
        row_state(row@) == keccak_round(s, round as int),
        is_state(row_state(row@)),
{
    let mut row = zero_row();
    let mut i: usize = 0;
    while i < 1600
        invariant
            row@.len() == NUM_REGISTERS,
            prev@.len() == NUM_REGISTERS,
            a_prime_ok(prev@, s),
            round < NUM_ROUNDS,
            i <= 1600,
            forall|j: int|
                0 <= j < i ==> #[trigger] row@[START_A + j] as int == keccak_round(s, round as int)[j],
        decreases 1600 - i,
    {
        let x = i / 320;
        let y = (i % 320) / 64;
        let z = i % 64;
        let b = iota_bit(prev, x, y, z, round, Ghost(s));
        row.set(START_A + i, b);
        i = i + 1;
    }
    assert(row_state(row@) =~= keccak_round(s, round as int));
    row
}

impl Keccak {
    /// Fills every register of `row` but A from its A registers, as round `round`.
    #[verifier::rlimit(50)]
    pub fn generate_trace_rows_for_round(&self, row: &mut Vec<u64>, round: usize)
        requires
            old(row)@.len() == NUM_REGISTERS,
            round < NUM_ROUNDS,
            is_state(row_state(old(row)@)),
        ensures
            row_matches(final(row)@, row_state(old(row)@), round as int),
    {
        reveal(row_matches);
        let ghost s = row_state(row@);
        assert(a_ok(row@, s));

        let mut k: usize = 0;
        while k < NUM_ROUNDS
            invariant
                row@.len() == NUM_REGISTERS,
                a_ok(row@, s),
                k <= NUM_ROUNDS,
                forall|j: int| 0 <= j < k ==> #[trigger] row@[j] as int == if j == round { 1int } else { 0int },
            decreases NUM_ROUNDS - k,
        {
            let v: u64 = if k == round { 1 } else { 0 };
            row.set(k, v);
            k = k + 1;
        }

        // C_partial and C.
        let mut i: usize = 0;
        while i < 320
            invariant
                row@.len() == NUM_REGISTERS,
                a_ok(row@, s),
                steps_ok(row@, round as int),
                i <= 320,
                forall|x: int, z: int|
                    0 <= x < 5 && 0 <= z < 64 && x * 64 + z < i ==> row@[#[trigger] spec_reg_c_partial(x, z)] as int
                        == theta_c_partial(s, x, z),
                forall|x: int, z: int|
                    0 <= x < 5 && 0 <= z < 64 && x * 64 + z < i ==> row@[#[trigger] spec_reg_c(x, z)] as int
                        == theta_c(s, x, z),
            decreases 320 - i,
        {
            let x = i / 64;
            let z = i % 64;
            let a0 = row[reg_a(x, 0, z)];
            let a1 = row[reg_a(x, 1, z)];
            let a2 = row[reg_a(x, 2, z)];
            let a3 = row[reg_a(x, 3, z)];
            let a4 = row[reg_a(x, 4, z)];
            let c_partial = bit_xor(bit_xor(a0, a1), a2);
            let c = bit_xor(bit_xor(c_partial, a3), a4);
            row.set(reg_c_partial(x, z), c_partial);
            row.set(reg_c(x, z), c);
            i = i + 1;
        }

        // A'.
        let mut i: usize = 0;
        while i < 1600
            invariant
                row@.len() == NUM_REGISTERS,
                a_ok(row@, s),
                steps_ok(row@, round as int),
                c_partial_ok(row@, s),
                c_ok(row@, s),
                i <= 1600,
                forall|x: int, y: int, z: int|
                    0 <= x < 5 && 0 <= y < 5 && 0 <= z < 64 && x * 320 + y * 64 + z < i
                        ==> row@[#[trigger] spec_reg_a_prime(x, y, z)] as int == theta(s, x, y, z),
            decreases 1600 - i,
        {
            let x = i / 320;
            let y = (i % 320) / 64;
            let z = i % 64;
            let a = row[reg_a(x, y, z)];
            let c_left = row[reg_c((x + 4) % 5, z)];
            let c_right = row[reg_c((x + 1) % 5, (z + 63) % 64)];
            let d = bit_xor(c_left, c_right);
            row.set(reg_a_prime(x, y, z), bit_xor(d, a));
            i = i + 1;
        }

        // A'', packed in two halves.
        let mut i: usize = 0;
        while i < 25
            invariant
                row@.len() == NUM_REGISTERS,
                a_ok(row@, s),
                steps_ok(row@, round as int),
                c_partial_ok(row@, s),
                c_ok(row@, s),
                a_prime_ok(row@, s),
                i <= 25,
                forall|x: int, y: int|
                    0 <= x < 5 && 0 <= y < 5 && x * 5 + y < i ==> {
                        &&& row@[#[trigger] spec_reg_a_prime_prime(x, y)] as int == pack(chi_lane(s, x, y), 0, 32)
                        &&& row@[spec_reg_a_prime_prime(x, y) + 1] as int == pack(chi_lane(s, x, y), 32, 64)
                    },
            decreases 25 - i,
        {
            let x = i / 5;
            let y = i % 5;
            let lo = pack_chi(row, x, y, 0, Ghost(s));
            let hi = pack_chi(row, x, y, 32, Ghost(s));
            let reg_lo = reg_a_prime_prime(x, y);
            row.set(reg_lo, lo);
            row.set(reg_lo + 1, hi);
            i = i + 1;
        }

        // The bits of A''[0, 0].
        let mut i: usize = 0;
        while i < 64
            invariant
                row@.len() == NUM_REGISTERS,
                a_ok(row@, s),
                steps_ok(row@, round as int),
                c_partial_ok(row@, s),
                c_ok(row@, s),
                a_prime_ok(row@, s),
                a_prime_prime_ok(row@, s),
                i <= 64,
                forall|j: int| 0 <= j < i ==> #[trigger] row@[START_A_PRIME_PRIME_0_0_BITS + j] as int == chi(s, 0, 0, j),
            decreases 64 - i,
        {
            let b = chi_bit(row, 0, 0, i, Ghost(s));
            row.set(START_A_PRIME_PRIME_0_0_BITS + i, b);
            i = i + 1;
        }

        // A''[0, 0] is additionally xor'd with RC.
        let lo = pack_iota(row, round, 0, Ghost(s));
        let hi = pack_iota(row, round, 32, Ghost(s));
        row.set(REG_A_PRIME_PRIME_PRIME_0_0_LO, lo);
        row.set(REG_A_PRIME_PRIME_PRIME_0_0_HI, hi);
    }
}

fn copy_row(row: &Vec<u64>) -> (r: Vec<u64>)
    ensures
        r@ == row@,
{
    let mut r: Vec<u64> = Vec::new();
    let mut i: usize = 0;
    while i < row.len()
        invariant
            i <= row@.len(),
            r@ == row@.subrange(0, i as int),
        decreases row@.len() - i,
    {
        r.push(row[i]);
        i = i + 1;
        assert(r@ =~= row@.subrange(0, i as int));
    }
    assert(r@ =~= row@);
    r
}

/// The preimage whose rows fill a trace's tail.
pub open spec fn zero_input() -> Seq<u64> {
    Seq::new(25, |i: int| 0u64)
}

/// Row `i` of the trace of `inputs` padded to `n` rows: a round of one of the
/// preimages, or in the tail a round of the permutation of the zero state.
pub open spec fn trace_row_spec(inputs: Seq<[u64; 25]>, i: int) -> (Seq<int>, int) {
    if i < inputs.len() * 24 {
        (keccak_state(inputs[i / 24]@, (i % 24) as nat), i % 24)
    } else {
        (keccak_state(zero_input(), (i % 24) as nat), i % 24)
    }
}

/// The rows of a trace, each as a sequence of field elements.
pub open spec fn rows_view(rows: Seq<Vec<u64>>) -> Seq<Seq<u64>> {
    Seq::new(rows.len(), |i: int| rows[i]@)
}

pub open spec fn is_pow2(n: int) -> bool {
    exists|k: nat| pow2(k) == n
}

/// The number of rows of a trace of `n_inputs` permutations: the least power of two
/// that is at least `24 * n_inputs`.
pub open spec fn num_rows_ok(n_inputs: int, n: int) -> bool {
    &&& is_pow2(n)
    &&& n >= n_inputs * 24
    &&& (n == 1 || n < 2 * (n_inputs * 24))
}

impl Keccak {
    /// The 24 rows of one permutation: row `r` is round `r` applied to the state
    /// after the first `r` rounds.
    pub fn generate_trace_rows_for_perm(&self, input: [u64; INPUT_LIMBS]) -> (rows: Vec<Vec<u64>>)
        ensures
            rows@.len() == NUM_ROUNDS,
            forall|r: int|
                0 <= r < 24 ==> row_matches(#[trigger] rows@[r]@, keccak_state(input@, r as nat), r),
    {
        let mut rows: Vec<Vec<u64>> = Vec::new();
        let mut first = input_row(&input);
        self.generate_trace_rows_for_round(&mut first, 0);
        rows.push(first);
        let mut round: usize = 1;
        while round < NUM_ROUNDS
            invariant
                1 <= round <= NUM_ROUNDS,
                rows@.len() == round,
                forall|r: int|
                    0 <= r < round ==> row_matches(#[trigger] rows@[r]@, keccak_state(input@, r as nat), r),
            decreases NUM_ROUNDS - round,
        {
            let ghost s = keccak_state(input@, (round - 1) as nat);
            proof {
                lemma_row_matches_a_prime(rows@[round - 1]@, s, round - 1);
            }
            let mut row = next_round_input(&rows[round - 1], round - 1, Ghost(s));
            assert(keccak_state(input@, round as nat) == keccak_round(s, round - 1));
            self.generate_trace_rows_for_round(&mut row, round);
            rows.push(row);
            round = round + 1;
        }
        rows
    }

    /// The trace rows of a batch of preimages: 24 rows for each, then rows of the
    /// permutation of the zero state, round after round, up to a power of two.
    #[verifier::rlimit(50)]
    pub fn generate_trace_rows(&self, inputs: Vec<[u64; INPUT_LIMBS]>) -> (rows: Vec<Vec<u64>>)
        requires
            inputs@.len() * 24 <= usize::MAX / 2,
        ensures
            num_rows_ok(inputs@.len() as int, rows@.len() as int),
            forall|i: int|
                0 <= i < rows@.len() ==> row_matches(
                    #[trigger] rows@[i]@,
                    trace_row_spec(inputs@, i).0,
                    trace_row_spec(inputs@, i).1,
                ),
            trace_satisfies(rows_view(rows@)),
    {
        let n = inputs.len() * NUM_ROUNDS;
        let mut num_rows: usize = 1;
        let ghost mut k: nat = 0;
        proof {
            lemma2_to64();
        }
        while num_rows < n
            invariant
                n == inputs@.len() * 24,
                n <= usize::MAX / 2,
                num_rows == pow2(k),
                num_rows == 1 || num_rows < 2 * n,
                1 <= num_rows,
            decreases usize::MAX - num_rows,
        {
            proof {
                lemma_pow2_unfold(k + 1);
            }
            num_rows = num_rows * 2;
            proof {
                k = k + 1;
            }
        }

        let mut rows: Vec<Vec<u64>> = Vec::new();
        let mut j: usize = 0;
        while j < inputs.len()
            invariant
                n == inputs@.len() * 24,
                j <= inputs@.len(),
                rows@.len() == j * 24,
                forall|i: int|
                    0 <= i < rows@.len() ==> row_matches(
                        #[trigger] rows@[i]@,
                        trace_row_spec(inputs@, i).0,
                        trace_row_spec(inputs@, i).1,
                    ),
            decreases inputs@.len() - j,
        {
            let mut perm = self.generate_trace_rows_for_perm(inputs[j]);
            let ghost old_rows = rows@;
            let ghost perm_rows = perm@;
            rows.append(&mut perm);
            assert forall|i: int| 0 <= i < rows@.len() implies row_matches(
                #[trigger] rows@[i]@,
                trace_row_spec(inputs@, i).0,
                trace_row_spec(inputs@, i).1,
            ) by {
                if i >= j * 24 {
                    assert(rows@[i] == perm_rows[i - j * 24]);
                    assert(i / 24 == j as int);
                    assert(i % 24 == i - j * 24);
                } else {
                    assert(rows@[i] == old_rows[i]);
                }
            }
            j = j + 1;
        }

        let pad = self.generate_trace_rows_for_perm([0u64; INPUT_LIMBS]);
        assert([0u64; INPUT_LIMBS]@ =~= zero_input());
        let mut i: usize = rows.len();
        while i < num_rows
            invariant
                n == inputs@.len() * 24,
                n <= i,
                rows@.len() == i,
                i <= num_rows,
                pad@.len() == 24,
                forall|r: int|
                    0 <= r < 24 ==> row_matches(#[trigger] pad@[r]@, keccak_state(zero_input(), r as nat), r),
                forall|t: int|
                    0 <= t < rows@.len() ==> row_matches(
                        #[trigger] rows@[t]@,
                        trace_row_spec(inputs@, t).0,
                        trace_row_spec(inputs@, t).1,
                    ),
            decreases num_rows - i,
        {
            let row = copy_row(&pad[i % NUM_ROUNDS]);
            rows.push(row);
            i = i + 1;
        }
        proof {
            lemma_generated_trace_satisfies(inputs@, rows_view(rows@));
        }
        rows
    }
}


/// Row `i` of a column-major trace.
pub open spec fn column_row(cols: Seq<Vec<u64>>, i: int) -> Seq<u64> {
    Seq::new(cols.len(), |c: int| cols[c]@[i])
}

/// The rows of a column-major trace of `n` rows.
pub open spec fn columns_rows(cols: Seq<Vec<u64>>, n: int) -> Seq<Seq<u64>> {
    Seq::new(n as nat, |i: int| column_row(cols, i))
}

/// Turns rows of width `NUM_REGISTERS` into columns.
pub fn trace_rows_to_columns(rows: &Vec<Vec<u64>>) -> (cols: Vec<Vec<u64>>)
    requires
        forall|i: int| 0 <= i < rows@.len() ==> (#[trigger] rows@[i])@.len() == NUM_REGISTERS,
    ensures
        cols@.len() == NUM_REGISTERS,
        forall|c: int| 0 <= c < NUM_REGISTERS ==> (#[trigger] cols@[c])@.len() == rows@.len(),
        forall|c: int, i: int| 0 <= c < NUM_REGISTERS && 0 <= i < rows@.len() ==> #[trigger] cols@[c]@[i] == rows@[i]@[c],
{
    let mut cols: Vec<Vec<u64>> = Vec::new();
    let mut c: usize = 0;
    while c < NUM_REGISTERS
        invariant
            forall|i: int| 0 <= i < rows@.len() ==> (#[trigger] rows@[i])@.len() == NUM_REGISTERS,
            c <= NUM_REGISTERS,
            cols@.len() == c,
            forall|d: int| 0 <= d < c ==> (#[trigger] cols@[d])@.len() == rows@.len(),
            forall|d: int, i: int| 0 <= d < c && 0 <= i < rows@.len() ==> #[trigger] cols@[d]@[i] == rows@[i]@[d],
        decreases NUM_REGISTERS - c,
    {
        let mut col: Vec<u64> = Vec::new();
        let mut i: usize = 0;
        while i < rows.len()
            invariant
                forall|t: int| 0 <= t < rows@.len() ==> (#[trigger] rows@[t])@.len() == NUM_REGISTERS,
                c < NUM_REGISTERS,
                i <= rows@.len(),
                col@.len() == i,
                forall|t: int| 0 <= t < i ==> #[trigger] col@[t] == rows@[t]@[c as int],
            decreases rows@.len() - i,
        {
            col.push(rows[i][c]);
            i = i + 1;
        }
        cols.push(col);
        c = c + 1;
    }
    cols
}

impl Keccak {
    /// The trace of a batch of preimages, column by column.
    pub fn generate_trace(&self, inputs: Vec<[u64; INPUT_LIMBS]>) -> (cols: Vec<Vec<u64>>)
        requires
            inputs@.len() * 24 <= usize::MAX / 2,
        ensures
            cols@.len() == NUM_REGISTERS,
            forall|c: int| 0 <= c < NUM_REGISTERS ==> (#[trigger] cols@[c])@.len() == cols@[0]@.len(),
            num_rows_ok(inputs@.len() as int, cols@[0]@.len() as int),
            forall|i: int|
                0 <= i < cols@[0]@.len() ==> row_matches(
                    #[trigger] column_row(cols@, i),
                    trace_row_spec(inputs@, i).0,
                    trace_row_spec(inputs@, i).1,
                ),
            trace_satisfies(columns_rows(cols@, cols@[0]@.len() as int)),
    {
        let ghost ins = inputs@;
        let rows = self.generate_trace_rows(inputs);
        proof {
            assert forall|i: int| 0 <= i < rows@.len() implies (#[trigger] rows@[i])@.len() == NUM_REGISTERS by {
                lemma_row_matches_a_prime(rows@[i]@, trace_row_spec(ins, i).0, trace_row_spec(ins, i).1);
            }
        }
        let cols = trace_rows_to_columns(&rows);
        proof {
            assert forall|i: int| 0 <= i < rows@.len() implies column_row(cols@, i) == rows@[i]@ by {
                assert(column_row(cols@, i) =~= rows@[i]@);
            }
            assert(columns_rows(cols@, rows@.len() as int) =~= rows_view(rows@));
        }
        cols
    }
}

} // verus!

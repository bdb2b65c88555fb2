//! Column layout of the Keccak trace.
use vstd::prelude::*;

verus! {

/// Number of rounds in a Keccak permutation.
pub const NUM_ROUNDS: usize = 24;

/// Number of 64-bit limbs in a preimage of the Keccak permutation.
pub const INPUT_LIMBS: usize = 25;

pub const START_A: usize = 24;

pub const START_C_PARTIAL: usize = 1624;

pub const START_C: usize = 1944;

pub const START_A_PRIME: usize = 2264;

pub const START_A_PRIME_PRIME: usize = 3864;

pub const START_A_PRIME_PRIME_0_0_BITS: usize = 3914;

/// Low 32 bits of the post-iota lane (0, 0).
pub const REG_A_PRIME_PRIME_PRIME_0_0_LO: usize = 3978;

/// High 32 bits of the post-iota lane (0, 0).
pub const REG_A_PRIME_PRIME_PRIME_0_0_HI: usize = 3979;

/// Width of a Keccak trace row.
pub const NUM_REGISTERS: usize = 3980;

pub open spec fn spec_reg_a(x: int, y: int, z: int) -> int {
    START_A + x * 320 + y * 64 + z
}

pub open spec fn spec_reg_c_partial(x: int, z: int) -> int {
    START_C_PARTIAL + x * 64 + z
}

pub open spec fn spec_reg_c(x: int, z: int) -> int {
    START_C + x * 64 + z
}

pub open spec fn spec_reg_a_prime(x: int, y: int, z: int) -> int {
    START_A_PRIME + x * 320 + y * 64 + z
}

pub open spec fn spec_reg_a_prime_prime(x: int, y: int) -> int {
    START_A_PRIME_PRIME + x * 10 + y * 2
}

/// The rotation offsets of rho: entry `5x + y` is the left rotation of lane (x, y).
pub open spec fn rho_table() -> Seq<int> {
    seq![
        0, 36, 3, 41, 18,
        1, 44, 10, 45, 2,
        62, 6, 43, 15, 61,
        28, 55, 25, 21, 56,
        27, 20, 39, 8, 14,
    ]
}

pub open spec fn rho_offset(x: int, y: int) -> int {
    rho_table()[5 * x + y]
}

/// The round constants of iota.
pub open spec fn rc_table() -> Seq<u64> {
    seq![
        0x0000000000000001u64, 0x0000000000008082u64, 0x800000000000808Au64,
        0x8000000080008000u64, 0x000000000000808Bu64, 0x0000000080000001u64,
        0x8000000080008081u64, 0x8000000000008009u64, 0x000000000000008Au64,
        0x0000000000000088u64, 0x0000000080008009u64, 0x000000008000000Au64,
        0x000000008000808Bu64, 0x800000000000008Bu64, 0x8000000000008089u64,
        0x8000000000008003u64, 0x8000000000008002u64, 0x8000000000000080u64,
        0x000000000000800Au64, 0x800000008000000Au64, 0x8000000080008081u64,
        0x8000000000008080u64, 0x0000000080000001u64, 0x8000000080008008u64,
    ]
}

/// Bit `i` of the round constant of round `r`.
pub open spec fn spec_rc_bit(r: int, i: int) -> int {
    ((rc_table()[r] >> (i as u64)) & 1u64) as int
}

/// B is rho then pi of A': `B[x, y]` is lane `A'[(x + 3y) % 5, x]` rotated left by its offset,
/// so bit z of B is bit `z - offset` of that lane.
pub open spec fn spec_reg_b(x: int, y: int, z: int) -> int {
    let a = (x + 3 * y) % 5;
    let b = x;
    spec_reg_a_prime(a, b, (z + 64 - rho_offset(a, b)) % 64)
}

/// A register which is set to 1 if we are in the `i`th round, otherwise 0.
pub fn reg_step(i: usize) -> (r: usize)
    requires
        i < NUM_ROUNDS,
    ensures
        r == i,
{
    i
}

pub fn reg_a(x: usize, y: usize, z: usize) -> (r: usize)
    requires
        x < 5,
        y < 5,
        z < 64,
    ensures
        r == spec_reg_a(x as int, y as int, z as int),
        START_A <= r < START_C_PARTIAL,
{
    START_A + x * 64 * 5 + y * 64 + z
}

/// `C_partial[x] = xor(A[x, 0], A[x, 1], A[x, 2])`.
pub fn reg_c_partial(x: usize, z: usize) -> (r: usize)
    requires
        x < 5,
        z < 64,
    ensures
        r == spec_reg_c_partial(x as int, z as int),
        START_C_PARTIAL <= r < START_C,
{
    START_C_PARTIAL + x * 64 + z
}

/// `C[x] = xor(C_partial[x], A[x, 3], A[x, 4])`.
pub fn reg_c(x: usize, z: usize) -> (r: usize)
    requires
        x < 5,
        z < 64,
    ensures
        r == spec_reg_c(x as int, z as int),
        START_C <= r < START_A_PRIME,
{
    START_C + x * 64 + z
}

/// `A'[x, y] = xor(A[x, y], C[x - 1], ROT(C[x + 1], 1))`.
pub fn reg_a_prime(x: usize, y: usize, z: usize) -> (r: usize)
    requires
        x < 5,
        y < 5,
        z < 64,
    ensures
        r == spec_reg_a_prime(x as int, y as int, z as int),
        START_A_PRIME <= r < START_A_PRIME_PRIME,
{
    START_A_PRIME + x * 64 * 5 + y * 64 + z
}

/// The left rotation that rho applies to lane (x, y).
pub fn rotation_offset(x: usize, y: usize) -> (r: usize)
    requires
        x < 5,
        y < 5,
    ensures
        r == rho_offset(x as int, y as int),
        r < 64,
{
    let table: [usize; 25] = [
        0, 36, 3, 41, 18,
        1, 44, 10, 45, 2,
        62, 6, 43, 15, 61,
        28, 55, 25, 21, 56,
        27, 20, 39, 8, 14,
    ];
    assert(table@.map_values(|v: usize| v as int) =~= rho_table());
    let r = table[5 * x + y];
    assert(r as int == table@.map_values(|v: usize| v as int)[5 * x + y]);
    r
}

/// B is an alias of A' registers: no column of its own.
pub fn reg_b(x: usize, y: usize, z: usize) -> (r: usize)
    requires
        x < 5,
        y < 5,
        z < 64,
    ensures
        r == spec_reg_b(x as int, y as int, z as int),
        START_A_PRIME <= r < START_A_PRIME_PRIME,
{
    let a = (x + 3 * y) % 5;
    let b = x;
    let rot = rotation_offset(a, b);
    reg_a_prime(a, b, (z + 64 - rot) % 64)
}

/// `A''[x, y] = xor(B[x, y], andn(B[x + 1, y], B[x + 2, y]))`, as a low and a high
/// 32-bit half; the high half is the next register.
pub fn reg_a_prime_prime(x: usize, y: usize) -> (r: usize)
    requires
        x < 5,
        y < 5,
    ensures
        r == spec_reg_a_prime_prime(x as int, y as int),
        START_A_PRIME_PRIME <= r && r + 1 < START_A_PRIME_PRIME_0_0_BITS,
{
    START_A_PRIME_PRIME + x * 2 * 5 + y * 2
}

/// Bit `i` of `A''[0, 0]`, re-expanded.
pub fn reg_a_prime_prime_0_0_bit(i: usize) -> (r: usize)
    requires
        i < 64,
    ensures
        r == START_A_PRIME_PRIME_0_0_BITS + i,
        r < REG_A_PRIME_PRIME_PRIME_0_0_LO,
{
    START_A_PRIME_PRIME_0_0_BITS + i
}

/// Bit `i` of the round constant of round `r`.
pub fn rc_value_bit(r: usize, i: usize) -> (b: u64)
    requires
        r < NUM_ROUNDS,
        i < 64,
    ensures
        b == spec_rc_bit(r as int, i as int),
        b <= 1,
{
    let table: [u64; 24] = [
        0x0000000000000001u64, 0x0000000000008082u64, 0x800000000000808Au64,
        0x8000000080008000u64, 0x000000000000808Bu64, 0x0000000080000001u64,
        0x8000000080008081u64, 0x8000000000008009u64, 0x000000000000008Au64,
        0x0000000000000088u64, 0x0000000080008009u64, 0x000000008000000Au64,
        0x000000008000808Bu64, 0x800000000000008Bu64, 0x8000000000008089u64,
        0x8000000000008003u64, 0x8000000000008002u64, 0x8000000000000080u64,
        0x000000000000800Au64, 0x800000008000000Au64, 0x8000000080008081u64,
        0x8000000000008080u64, 0x0000000080000001u64, 0x8000000080008008u64,
    ];
    assert(table@ =~= rc_table());
    let c = table[r];
    let b = (c >> (i as u64)) & 1u64;
    assert(b <= 1) by (bit_vector)
        requires
            b == (c >> (i as u64)) & 1u64,
    ;
    b
}

} // verus!

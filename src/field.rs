//! Arithmetic in the Goldilocks field, on canonical representatives held as `u64`.
use vstd::prelude::*;

verus! {

/// The order of the Goldilocks field, `2^64 - 2^32 + 1`.
pub const ORDER: u64 = 0xFFFF_FFFF_0000_0001;

#[verifier::opaque]
pub open spec fn fadd(a: int, b: int) -> int {
    (a + b) % (ORDER as int)
}

#[verifier::opaque]
pub open spec fn fsub(a: int, b: int) -> int {
    (a - b) % (ORDER as int)
}

#[verifier::opaque]
pub open spec fn fmul(a: int, b: int) -> int {
    (a * b) % (ORDER as int)
}

/// `xor(a, b) = a + b - 2ab`, exact on `{0, 1}`.
pub open spec fn fxor(a: int, b: int) -> int {
    fsub(fadd(a, b), fmul(2, fmul(a, b)))
}

/// `andn(a, b) = b - ab`, that is `!a & b` on `{0, 1}`.
pub open spec fn fandn(a: int, b: int) -> int {
    fsub(b, fmul(a, b))
}

/// Xor on bits.
pub open spec fn bxor(a: int, b: int) -> int {
    if a == b {
        0
    } else {
        1
    }
}

/// `!a & b` on bits.
pub open spec fn bandn(a: int, b: int) -> int {
    if a == 0 && b == 1 {
        1
    } else {
        0
    }
}

pub open spec fn is_bit(a: int) -> bool {
    a == 0 || a == 1
}

pub fn field_add(a: u64, b: u64) -> (r: u64)
    requires
        a < ORDER,
        b < ORDER,
    ensures
        r == fadd(a as int, b as int),
        r < ORDER,
{
    reveal(fadd);
    if a >= ORDER - b {
        a - (ORDER - b)
    } else {
        a + b
    }
}

pub fn field_sub(a: u64, b: u64) -> (r: u64)
    requires
        a < ORDER,
        b < ORDER,
    ensures
        r == fsub(a as int, b as int),
        r < ORDER,
{
    reveal(fsub);
    if a >= b {
        a - b
    } else {
        (ORDER - b) + a
    }
}

pub fn field_mul(a: u64, b: u64) -> (r: u64)
    requires
        a < ORDER,
        b < ORDER,
    ensures
        r == fmul(a as int, b as int),
        r < ORDER,
{
    reveal(fmul);
    assert((a as int) * (b as int) < 0x1_0000_0000_0000_0000_0000_0000_0000_0000int) by (nonlinear_arith)
        requires
            a < ORDER,
            b < ORDER,
    ;
    let p: u128 = (a as u128) * (b as u128);
    (p % (ORDER as u128)) as u64
}

pub proof fn lemma_field_results_canonical(a: int, b: int)
    ensures
        0 <= fadd(a, b) < ORDER,
        0 <= fsub(a, b) < ORDER,
        0 <= fmul(a, b) < ORDER,
{
    reveal(fadd);
    reveal(fsub);
    reveal(fmul);
}

pub fn field_xor(a: u64, b: u64) -> (r: u64)
    requires
        a < ORDER,
        b < ORDER,
    ensures
        r == fxor(a as int, b as int),
        r < ORDER,
{
    let s = field_add(a, b);
    let p = field_mul(a, b);
    proof {
        lemma_field_results_canonical(a as int, b as int);
    }
    let p2 = field_mul(2, p);
    proof {
        lemma_field_results_canonical(2, p as int);
    }
    proof {
        lemma_field_results_canonical(s as int, p2 as int);
    }
    field_sub(s, p2)
}

pub fn field_andn(a: u64, b: u64) -> (r: u64)
    requires
        a < ORDER,
        b < ORDER,
    ensures
        r == fandn(a as int, b as int),
        r < ORDER,
{
    let p = field_mul(a, b);
    proof {
        lemma_field_results_canonical(a as int, b as int);
    }
    proof {
        lemma_field_results_canonical(b as int, p as int);
    }
    field_sub(b, p)
}

/// On bits the algebraic xor and andn are the boolean ones.
pub proof fn lemma_bit_ops(a: int, b: int)
    requires
        is_bit(a),
        is_bit(b),
    ensures
        fxor(a, b) == bxor(a, b),
        fandn(a, b) == bandn(a, b),
{
    reveal(fadd);
    reveal(fsub);
    reveal(fmul);
}

/// A canonical value minus itself vanishes.
pub proof fn lemma_sub_self(a: int)
    requires
        0 <= a < ORDER,
    ensures
        fsub(a, a) == 0,
{
    reveal(fsub);
}

pub proof fn lemma_fadd_small(a: int, b: int)
    requires
        0 <= a,
        0 <= b,
        a + b < ORDER,
    ensures
        fadd(a, b) == a + b,
{
    reveal(fadd);
}

pub proof fn lemma_fsub_small(a: int, b: int)
    requires
        0 <= b <= a < ORDER,
    ensures
        fsub(a, b) == a - b,
{
    reveal(fsub);
}

pub proof fn lemma_fmul_bits(a: int, b: int)
    requires
        is_bit(a),
        is_bit(b),
    ensures
        fmul(a, b) == if a == 1 && b == 1 { 1int } else { 0int },
{
    reveal(fmul);
}

pub proof fn lemma_fmul_one(a: int)
    requires
        0 <= a < ORDER,
    ensures
        fmul(1, a) == a,
{
    reveal(fmul);
}

pub proof fn lemma_fmul_zero(a: int)
    ensures
        fmul(0, a) == 0,
        fmul(a, 0) == 0,
{
    reveal(fmul);
}

} // verus!

//! The parts of the FRI commit and query phases that are arithmetic on indices and
//! coefficients: folding, leaf layout, query indices, the final polynomial and the
//! proof-of-work bar.
use crate::field::{fadd, field_add, field_mul, fmul, lemma_fadd_small, lemma_fmul_zero, ORDER};
use plonky2_util::reverse_index_bits_in_place;
use vstd::arithmetic::power2::{lemma2_to64, lemma_pow2_pos, lemma_pow2_strictly_increases, pow2};
use vstd::bits::lemma_u64_shr_is_div;
use vstd::prelude::*;
use vstd::slice::slice_subrange;

verus! {

/// An element `c0 + c1 X` of the quadratic extension `F[X] / (X^2 - 7)`.
pub type Ext = (u64, u64);

/// The non-residue that defines the extension.
pub const EXT_W: u64 = 7;

pub open spec fn ext_canonical(a: Ext) -> bool {
    a.0 < ORDER && a.1 < ORDER
}

pub open spec fn ext_add_spec(a: Ext, b: Ext) -> Ext {
    (fadd(a.0 as int, b.0 as int) as u64, fadd(a.1 as int, b.1 as int) as u64)
}

/// `(a0 + a1 X)(b0 + b1 X) = a0 b0 + W a1 b1 + (a0 b1 + a1 b0) X`.
pub open spec fn ext_mul_spec(a: Ext, b: Ext) -> Ext {
    (
        fadd(fmul(a.0 as int, b.0 as int), fmul(fmul(EXT_W as int, a.1 as int), b.1 as int)) as u64,
        fadd(fmul(a.0 as int, b.1 as int), fmul(a.1 as int, b.0 as int)) as u64,
    )
}

pub fn ext_add(a: Ext, b: Ext) -> (r: Ext)
    requires
        ext_canonical(a),
        ext_canonical(b),
    ensures
        r == ext_add_spec(a, b),
        ext_canonical(r),
{
    (field_add(a.0, b.0), field_add(a.1, b.1))
}

pub fn ext_mul(a: Ext, b: Ext) -> (r: Ext)
    requires
        ext_canonical(a),
        ext_canonical(b),
    ensures
        r == ext_mul_spec(a, b),
        ext_canonical(r),
{
    let c0 = field_add(field_mul(a.0, b.0), field_mul(field_mul(EXT_W, a.1), b.1));
    let c1 = field_add(field_mul(a.0, b.1), field_mul(a.1, b.0));
    (c0, c1)
}

/// `sum_{k <= i < len} terms[i] * alpha^(i - k)`, by Horner's rule from the last term.
pub open spec fn reduce_spec(terms: Seq<Ext>, alpha: Ext, k: int) -> Ext
    decreases terms.len() - k,
{
    if k >= terms.len() {
        (0, 0)
    } else {
        ext_add_spec(ext_mul_spec(reduce_spec(terms, alpha, k + 1), alpha), terms[k])
    }
}

proof fn lemma_reduce_canonical(terms: Seq<Ext>, alpha: Ext, k: int)
    requires
        0 <= k,
        forall|i: int| 0 <= i < terms.len() ==> ext_canonical(#[trigger] terms[i]),
    ensures
        ext_canonical(reduce_spec(terms, alpha, k)),
    decreases terms.len() - k,
{
    if k < terms.len() {
        lemma_reduce_canonical(terms, alpha, k + 1);
        let p = reduce_spec(terms, alpha, k + 1);
        crate::field::lemma_field_results_canonical(0, 0);
        crate::field::lemma_field_results_canonical(fmul(p.0 as int, alpha.0 as int), fmul(fmul(EXT_W as int, p.1 as int), alpha.1 as int));
        crate::field::lemma_field_results_canonical(fmul(p.0 as int, alpha.1 as int), fmul(p.1 as int, alpha.0 as int));
        let m = ext_mul_spec(p, alpha);
        crate::field::lemma_field_results_canonical(m.0 as int, terms[k].0 as int);
        crate::field::lemma_field_results_canonical(m.1 as int, terms[k].1 as int);
    }
}

/// `sum_i terms[i] * alpha^i`.
pub fn reduce_with_powers(terms: &[Ext], alpha: Ext) -> (r: Ext)
    requires
        forall|i: int| 0 <= i < terms@.len() ==> ext_canonical(#[trigger] terms@[i]),
        ext_canonical(alpha),
    ensures
        r == reduce_spec(terms@, alpha, 0),
        ext_canonical(r),
{
    let mut sum: Ext = (0, 0);
    let mut k: usize = terms.len();
    while k > 0
        invariant
            k <= terms@.len(),
            forall|i: int| 0 <= i < terms@.len() ==> ext_canonical(#[trigger] terms@[i]),
            ext_canonical(alpha),
            sum == reduce_spec(terms@, alpha, k as int),
            ext_canonical(sum),
        decreases k,
    {
        k = k - 1;
        sum = ext_add(ext_mul(sum, alpha), terms[k]);
    }
    sum
}

/// Coefficient `j` of the folded polynomial: `P(x) = sum_{i < a} x^i P_i(x^a)` becomes
/// `sum_{i < a} beta^i P_i(x)`.
pub open spec fn folded_coeff(coeffs: Seq<Ext>, arity: int, beta: Ext, j: int) -> Ext {
    reduce_spec(coeffs.subrange(j * arity, (j + 1) * arity), beta, 0)
}

/// One reduction step of the commit phase on the coefficients, for arity `2^arity_bits`.
pub fn fold_coefficients(coeffs: &Vec<Ext>, arity_bits: usize, beta: Ext) -> (r: Vec<Ext>)
    requires
        arity_bits < 32,
        coeffs@.len() % pow2(arity_bits as nat) == 0,
        forall|i: int| 0 <= i < coeffs@.len() ==> ext_canonical(#[trigger] coeffs@[i]),
        ext_canonical(beta),
    ensures
        r@.len() * pow2(arity_bits as nat) == coeffs@.len(),
        forall|j: int| 0 <= j < r@.len() ==> #[trigger] r@[j] == folded_coeff(coeffs@, pow2(arity_bits as nat) as int, beta, j),
        forall|j: int| 0 <= j < r@.len() ==> ext_canonical(#[trigger] r@[j]),
{
    proof {
        lemma_pow2_strictly_increases(arity_bits as nat, 32);
        lemma_pow2_pos(arity_bits as nat);
        lemma2_to64();
    }
    let arity: usize = 1usize << arity_bits;
    proof {
        vstd::bits::lemma_usize_shl_is_mul(1, arity_bits);
    }
    let n = coeffs.len();
    let m = n / arity;
    proof {
        let nn = n as int;
        let aa = arity as int;
        let mm = m as int;
        assert(mm * aa == nn) by (nonlinear_arith)
            requires
                nn % aa == 0,
                mm == nn / aa,
                aa > 0,
        ;
    }
    let mut r: Vec<Ext> = Vec::new();
    let mut j: usize = 0;
    while j < m
        invariant
            arity as int == pow2(arity_bits as nat),
            arity > 0,
            n == coeffs@.len(),
            m * arity == n,
            forall|i: int| 0 <= i < coeffs@.len() ==> ext_canonical(#[trigger] coeffs@[i]),
            ext_canonical(beta),
            j <= m,
            r@.len() == j,
            forall|t: int| 0 <= t < j ==> #[trigger] r@[t] == folded_coeff(coeffs@, arity as int, beta, t),
            forall|t: int| 0 <= t < j ==> ext_canonical(#[trigger] r@[t]),
        decreases m - j,
    {
        proof {
            let jj = j as int;
            let aa = arity as int;
            let mm = m as int;
            assert(jj * aa + aa <= mm * aa) by (nonlinear_arith)
                requires
                    jj < mm,
                    aa > 0,
            ;
            assert((jj + 1) * aa == jj * aa + aa) by (nonlinear_arith);
        }
        let lo = j * arity;
        let hi = lo + arity;
        let chunk = slice_subrange(coeffs.as_slice(), lo, hi);
        assert forall|i: int| 0 <= i < chunk@.len() implies ext_canonical(#[trigger] chunk@[i]) by {
            assert(chunk@[i] == coeffs@[lo + i]);
        }
        r.push(reduce_with_powers(chunk, beta));
        j = j + 1;
    }
    r
}


proof fn lemma_reduce_zeros(terms: Seq<Ext>, alpha: Ext, k: int)
    requires
        0 <= k,
        forall|i: int| 0 <= i < terms.len() ==> #[trigger] terms[i] == (0u64, 0u64),
    ensures
        reduce_spec(terms, alpha, k) == (0u64, 0u64),
    decreases terms.len() - k,
{
    if k < terms.len() {
        lemma_reduce_zeros(terms, alpha, k + 1);
        lemma_fmul_zero(alpha.0 as int);
        lemma_fmul_zero(alpha.1 as int);
        lemma_fmul_zero(EXT_W as int);
        lemma_fadd_small(0, 0);
    }
}

/// Folding keeps a low degree: when every coefficient from index `d * arity` on is
/// zero, every folded coefficient from index `d` on is zero.
pub proof fn lemma_fold_preserves_low_degree(coeffs: Seq<Ext>, arity: int, beta: Ext, d: int, j: int)
    requires
        arity > 0,
        0 <= d <= j,
        (j + 1) * arity <= coeffs.len(),
        forall|i: int| d * arity <= i < coeffs.len() ==> #[trigger] coeffs[i] == (0u64, 0u64),
    ensures
        folded_coeff(coeffs, arity, beta, j) == (0u64, 0u64),
{
    assert(d * arity <= j * arity) by (nonlinear_arith)
        requires
            d <= j,
            arity > 0,
    ;
    assert((j + 1) * arity == j * arity + arity) by (nonlinear_arith);
    let chunk = coeffs.subrange(j * arity, (j + 1) * arity);
    assert forall|i: int| 0 <= i < chunk.len() implies #[trigger] chunk[i] == (0u64, 0u64) by {
        assert(chunk[i] == coeffs[j * arity + i]);
    }
    lemma_reduce_zeros(chunk, beta, 0);
}

// ---------------------------------------------------------------------------
// Leaves of a commit-phase tree.

pub open spec fn log2(n: nat) -> nat
    decreases n,
{
    if n <= 1 {
        0
    } else {
        1 + log2(n / 2)
    }
}

/// The `k` low bits of `i`, in reverse order.
pub open spec fn reverse_bits(i: int, k: nat) -> int
    decreases k,
{
    if k == 0 {
        0
    } else {
        (i % 2) * pow2((k - 1) as nat) + reverse_bits(i / 2, (k - 1) as nat)
    }
}

/// Relies on `plonky2_util::reverse_index_bits_in_place`: for a length `n = 2^k`, the
/// value at index `i` moves to the index whose `k` bits are those of `i` reversed.
#[verifier::external_body]
fn reverse_index_bits(values: &mut Vec<Ext>)
    requires
        old(values)@.len() >= 1,
        pow2(log2(old(values)@.len())) == old(values)@.len(),
    ensures
        final(values)@.len() == old(values)@.len(),
        forall|i: int|
            0 <= i < old(values)@.len() ==> #[trigger] final(values)@[i] == old(values)@[reverse_bits(i, log2(old(values)@.len()))],
{
    reverse_index_bits_in_place(values.as_mut_slice());
}

/// The leaves that a commit-phase tree commits to: the values in bit-reversed order,
/// cut into cosets of `2^arity_bits` and each coset flattened into base-field
/// elements `c0, c1, c0, c1, ...`.
pub fn fri_commit_leaves(values: Vec<Ext>, arity_bits: usize) -> (r: Vec<Vec<u64>>)
    requires
        values@.len() >= 1,
        pow2(log2(values@.len())) == values@.len(),
        arity_bits < 32,
        values@.len() % pow2(arity_bits as nat) == 0,
    ensures
        r@.len() * pow2(arity_bits as nat) == values@.len(),
        forall|j: int| 0 <= j < r@.len() ==> (#[trigger] r@[j])@.len() == 2 * pow2(arity_bits as nat),
        forall|j: int, t: int|
            0 <= j < r@.len() && 0 <= t < pow2(arity_bits as nat) ==> {
                let src = reverse_bits(j * pow2(arity_bits as nat) + t, log2(values@.len()));
                &&& (#[trigger] r@[j]@[2 * t]) == values@[src].0
                &&& r@[j]@[2 * t + 1] == values@[src].1
            },
{
    let ghost orig = values@;
    let mut values = values;
    reverse_index_bits(&mut values);
    proof {
        lemma_pow2_strictly_increases(arity_bits as nat, 32);
        lemma_pow2_pos(arity_bits as nat);
        lemma2_to64();
        vstd::bits::lemma_usize_shl_is_mul(1, arity_bits);
    }
    let arity: usize = 1usize << arity_bits;
    let n = values.len();
    let m = n / arity;
    proof {
        let nn = n as int;
        let aa = arity as int;
        let mm = m as int;
        assert(mm * aa == nn) by (nonlinear_arith)
            requires
                nn % aa == 0,
                mm == nn / aa,
                aa > 0,
        ;
    }
    let mut r: Vec<Vec<u64>> = Vec::new();
    let mut j: usize = 0;
    while j < m
        invariant
            arity as int == pow2(arity_bits as nat),
            arity > 0,
            arity <= 0x8000_0000,
            n == values@.len(),
            n == orig.len(),
            m * arity == n,
            forall|i: int| 0 <= i < n ==> #[trigger] values@[i] == orig[reverse_bits(i, log2(orig.len()))],
            j <= m,
            r@.len() == j,
            forall|s: int| 0 <= s < j ==> (#[trigger] r@[s])@.len() == 2 * arity,
            forall|s: int, t: int|
                0 <= s < j && 0 <= t < arity ==> {
                    let src = reverse_bits(s * arity + t, log2(orig.len()));
                    &&& (#[trigger] r@[s]@[2 * t]) == orig[src].0
                    &&& r@[s]@[2 * t + 1] == orig[src].1
                },
        decreases m - j,
    {
        proof {
            let jj = j as int;
            let aa = arity as int;
            let mm = m as int;
            assert(jj * aa + aa <= mm * aa) by (nonlinear_arith)
                requires
                    jj < mm,
                    aa > 0,
            ;
        }
        let mut leaf: Vec<u64> = Vec::new();
        let mut t: usize = 0;
        while t < arity
            invariant
                arity > 0,
                arity <= 0x8000_0000,
                n == values@.len(),
                j * arity + arity <= n,
                forall|i: int| 0 <= i < n ==> #[trigger] values@[i] == orig[reverse_bits(i, log2(orig.len()))],
                t <= arity,
                leaf@.len() == 2 * t,
                forall|u: int|
                    0 <= u < t ==> {
                        let src = reverse_bits(j * arity + u, log2(orig.len()));
                        &&& (#[trigger] leaf@[2 * u]) == orig[src].0
                        &&& leaf@[2 * u + 1] == orig[src].1
                    },
            decreases arity - t,
        {
            let e = values[j * arity + t];
            leaf.push(e.0);
            leaf.push(e.1);
            t = t + 1;
        }
        r.push(leaf);
        j = j + 1;
    }
    r
}

// ---------------------------------------------------------------------------
// Query phase.

/// The index that a query round opens after `i` reduction steps: the drawn element
/// reduced modulo the initial domain size, shifted right by each arity taken so far.
pub open spec fn query_index(x: u64, n: u64, arity_bits: Seq<usize>, i: int) -> int
    decreases i,
{
    if i <= 0 {
        (x % n) as int
    } else {
        query_index(x, n, arity_bits, i - 1) / pow2(arity_bits[i - 1] as nat) as int
    }
}

/// The indices that one query round opens: entry 0 in the initial trees, entry
/// `i + 1` in the tree of reduction step `i`.
pub fn fri_query_indices(x: u64, n: u64, arity_bits: &Vec<usize>) -> (r: Vec<u64>)
    requires
        n > 0,
        forall|i: int| 0 <= i < arity_bits@.len() ==> #[trigger] arity_bits@[i] < 64,
    ensures
        r@.len() == arity_bits@.len() + 1,
        forall|i: int| 0 <= i < r@.len() ==> #[trigger] r@[i] as int == query_index(x, n, arity_bits@, i),
{
    let mut x_index: u64 = x % n;
    let mut r: Vec<u64> = Vec::new();
    r.push(x_index);
    let mut i: usize = 0;
    while i < arity_bits.len()
        invariant
            n > 0,
            forall|t: int| 0 <= t < arity_bits@.len() ==> #[trigger] arity_bits@[t] < 64,
            i <= arity_bits@.len(),
            r@.len() == i + 1,
            x_index as int == query_index(x, n, arity_bits@, i as int),
            forall|t: int| 0 <= t < r@.len() ==> #[trigger] r@[t] as int == query_index(x, n, arity_bits@, t),
        decreases arity_bits@.len() - i,
    {
        let b = arity_bits[i] as u64;
        proof {
            lemma_u64_shr_is_div(x_index, b);
        }
        x_index = x_index >> b;
        r.push(x_index);
        i = i + 1;
    }
    r
}

// ---------------------------------------------------------------------------
// The final polynomial and the proof-of-work bar.

/// The coefficients that must vanish on a low-degree polynomial: those from
/// `len >> rate_bits` on.
pub fn final_poly_tail_is_zero(coeffs: &Vec<Ext>, rate_bits: usize) -> (r: bool)
    requires
        rate_bits < 32,
    ensures
        r == forall|i: int| (coeffs.len() >> rate_bits) <= i < coeffs@.len() ==> #[trigger] coeffs@[i] == (0u64, 0u64),
{
    let keep = coeffs.len() >> rate_bits;
    proof {
        let len = coeffs.len();
        assert(len >> rate_bits <= len) by (bit_vector);
    }
    let mut i: usize = keep;
    while i < coeffs.len()
        invariant
            keep == coeffs.len() >> rate_bits,
            keep <= i <= coeffs@.len(),
            forall|t: int| keep <= t < i ==> #[trigger] coeffs@[t] == (0u64, 0u64),
        decreases coeffs@.len() - i,
    {
        let c = coeffs[i];
        if c.0 != 0 || c.1 != 0 {
            return false;
        }
        i = i + 1;
    }
    true
}

/// Cuts the final polynomial to its first `len >> rate_bits` coefficients.
pub fn truncate_final_poly(coeffs: &mut Vec<Ext>, rate_bits: usize)
    requires
        rate_bits < 32,
    ensures
        final(coeffs)@ == old(coeffs)@.subrange(0, (old(coeffs).len() >> rate_bits) as int),
{
    let keep = coeffs.len() >> rate_bits;
    proof {
        let len = coeffs.len();
        assert(len >> rate_bits <= len) by (bit_vector);
    }
    coeffs.truncate(keep);
}

/// A proof-of-work response passes when it has at least `bits` leading zeros,
/// that is when it is below `2^(64 - bits)`.
pub fn pow_accepted(h: u64, bits: u32) -> (r: bool)
    ensures
        r == (bits <= 64 && (h as int) < pow2((64 - bits) as nat)),
{
    proof {
        lemma2_to64();
    }
    if bits > 64 {
        return false;
    }
    if bits == 0 {
        return true;
    }
    let s = (64 - bits) as u64;
    proof {
        lemma_u64_shr_is_div(h, s);
        lemma_pow2_pos(s as nat);
        let p = pow2(s as nat) as int;
        let hh = h as int;
        assert((hh / p == 0) == (hh < p)) by (nonlinear_arith)
            requires
                p > 0,
                hh >= 0,
        ;
    }
    (h >> s) == 0
}

} // verus!

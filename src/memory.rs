//! The read/write memory argument: the sorted view of the memory log, its
//! first-change flags, and the identities between adjacent sorted rows.
use crate::field::{
    fadd, field_add, field_mul, field_sub, fmul, fsub, lemma_fadd_small, lemma_field_results_canonical,
    lemma_fmul_bits, lemma_fmul_one, lemma_fmul_zero, lemma_fsub_small, lemma_sub_self, ORDER,
};
use crate::memory_registers::{
    memory_value_limb, sorted_memory_value_limb, MEMORY_ADDR_CONTEXT, MEMORY_ADDR_SEGMENT,
    MEMORY_ADDR_VIRTUAL, MEMORY_CONTEXT_FIRST_CHANGE, MEMORY_IS_READ, MEMORY_RANGE_CHECK,
    MEMORY_SEGMENT_FIRST_CHANGE, MEMORY_TIMESTAMP, MEMORY_VALUE_START, MEMORY_VIRTUAL_FIRST_CHANGE,
    NUM_MEMORY_COLUMNS, NUM_VALUE_LIMBS, SORTED_MEMORY_ADDR_CONTEXT, SORTED_MEMORY_ADDR_SEGMENT,
    SORTED_MEMORY_ADDR_VIRTUAL, SORTED_MEMORY_IS_READ, SORTED_MEMORY_TIMESTAMP,
    SORTED_MEMORY_VALUE_START,
};
use crate::circuit::{
    gates_wf, lemma_rows_extend, lemma_wire_value_bound, lemma_wires_extend, row_of, wire_value,
    CircuitBuilder, Gate, Target,
};
use vstd::prelude::*;

verus! {

pub struct TransactionMemory {
    pub calls: Vec<ContractMemory>,
}

/// A virtual memory space specific to the current contract call.
pub struct ContractMemory {
    pub code: MemorySegment,
    pub main: MemorySegment,
    pub calldata: MemorySegment,
    pub returndata: MemorySegment,
}

pub struct MemorySegment {
    pub content: Vec<u8>,
}

impl Default for TransactionMemory {
    fn default() -> (r: Self)
        ensures
            r.calls@.len() == 0,
    {
        TransactionMemory { calls: Vec::new() }
    }
}

// ---------------------------------------------------------------------------
// Sorting the log.

/// An operation of the log keyed for sorting: context, segment, virtual address,
/// timestamp, and its position in the log.
pub type SortKey = (u64, u64, u64, u64, u64);

/// Lexicographic order on keys, the order of Rust's tuples.
pub open spec fn key_le(a: SortKey, b: SortKey) -> bool {
    a.0 < b.0 || (a.0 == b.0 && (a.1 < b.1 || (a.1 == b.1 && (a.2 < b.2 || (a.2 == b.2 && (a.3
        < b.3 || (a.3 == b.3 && a.4 <= b.4)))))))
}

/// The address and timestamp part of the order.
pub open spec fn addr_ts_le(c1: u64, s1: u64, v1: u64, t1: u64, c2: u64, s2: u64, v2: u64, t2: u64) -> bool {
    c1 < c2 || (c1 == c2 && (s1 < s2 || (s1 == s2 && (v1 < v2 || (v1 == v2 && t1 <= t2)))))
}

/// Relies on `slice::sort` of std: a stable sort of the keys by the order of tuples.
#[verifier::external_body]
fn sort_keys(keys: &mut Vec<SortKey>)
    ensures
        final(keys)@.to_multiset() == old(keys)@.to_multiset(),
        forall|i: int, j: int|
            0 <= i < j < final(keys)@.len() ==> key_le(#[trigger] final(keys)@[i], #[trigger] final(keys)@[j]),
{
    keys.sort();
}

/// `perm` is a permutation of `0..n`.
pub open spec fn is_permutation(perm: Seq<int>, n: int) -> bool {
    &&& perm.len() == n
    &&& forall|i: int| 0 <= i < n ==> 0 <= #[trigger] perm[i] < n
    &&& forall|i: int, j: int| 0 <= i < n && 0 <= j < n && i != j ==> #[trigger] perm[i] != #[trigger] perm[j]
}

fn copy_vec(v: &Vec<u64>) -> (r: Vec<u64>)
    ensures
        r@ == v@,
{
    let mut r: Vec<u64> = Vec::new();
    let mut i: usize = 0;
    while i < v.len()
        invariant
            i <= v@.len(),
            r@ == v@.subrange(0, i as int),
        decreases v@.len() - i,
    {
        r.push(v[i]);
        i = i + 1;
        assert(r@ =~= v@.subrange(0, i as int));
    }
    assert(r@ =~= v@);
    r
}


/// `perm` sorts the log by (context, segment, virtual address, timestamp), and keeps
/// the order of the log among operations with equal keys.
pub open spec fn is_stable_sort(perm: Seq<int>, context: Seq<u64>, segment: Seq<u64>, virtuals: Seq<u64>, timestamp: Seq<u64>) -> bool {
    let n = context.len() as int;
    &&& is_permutation(perm, n)
    &&& forall|i: int, j: int|
        0 <= i < j < n ==> addr_ts_le(
            context[#[trigger] perm[i]],
            segment[perm[i]],
            virtuals[perm[i]],
            timestamp[perm[i]],
            context[#[trigger] perm[j]],
            segment[perm[j]],
            virtuals[perm[j]],
            timestamp[perm[j]],
        )
    &&& forall|i: int, j: int|
        0 <= i < j < n && context[#[trigger] perm[i]] == context[#[trigger] perm[j]] && segment[perm[i]]
            == segment[perm[j]] && virtuals[perm[i]] == virtuals[perm[j]] && timestamp[perm[i]]
            == timestamp[perm[j]] ==> perm[i] < perm[j]
}

/// `out` is `col` taken in the order `perm`.
pub open spec fn gathered<T>(out: Seq<T>, col: Seq<T>, perm: Seq<int>) -> bool {
    out.len() == perm.len() && forall|i: int| 0 <= i < perm.len() ==> #[trigger] out[i] == col[perm[i]]
}

pub open spec fn views(v: Seq<Vec<u64>>) -> Seq<Seq<u64>> {
    Seq::new(v.len(), |i: int| v[i]@)
}

/// Sorts the operations of the log by (context, segment, virtual address, timestamp),
/// stably; operation `i` is `context[i]`, `segment[i]`, `virtuals[i]`, the limbs
/// `values[i]`, `is_read[i]`, `timestamp[i]`.
#[verifier::rlimit(50)]
pub fn sort_memory_ops(
    context: &[u64],
    segment: &[u64],
    virtuals: &[u64],
    values: &[Vec<u64>],
    is_read: &[u64],
    timestamp: &[u64],
) -> (r: (Vec<u64>, Vec<u64>, Vec<u64>, Vec<Vec<u64>>, Vec<u64>, Vec<u64>))
    requires
        segment@.len() == context@.len(),
        virtuals@.len() == context@.len(),
        values@.len() == context@.len(),
        is_read@.len() == context@.len(),
        timestamp@.len() == context@.len(),
    ensures
        exists|perm: Seq<int>| {
            &&& is_stable_sort(perm, context@, segment@, virtuals@, timestamp@)
            &&& gathered(r.0@, context@, perm)
            &&& gathered(r.1@, segment@, perm)
            &&& gathered(r.2@, virtuals@, perm)
            &&& gathered(views(r.3@), views(values@), perm)
            &&& gathered(r.4@, is_read@, perm)
            &&& gathered(r.5@, timestamp@, perm)
        },
{
    let n = context.len();
    let mut keys: Vec<SortKey> = Vec::new();
    let mut j: usize = 0;
    while j < n
        invariant
            n == context@.len(),
            segment@.len() == n,
            virtuals@.len() == n,
            timestamp@.len() == n,
            j <= n,
            keys@.len() == j,
            forall|t: int|
                0 <= t < j ==> #[trigger] keys@[t] == (context@[t], segment@[t], virtuals@[t], timestamp@[t], t as u64),
        decreases n - j,
    {
        keys.push((context[j], segment[j], virtuals[j], timestamp[j], j as u64));
        j = j + 1;
    }
    let ghost orig = keys@;
    sort_keys(&mut keys);
    proof {
        assert(orig.no_duplicates()) by {
            assert forall|a: int, b: int| 0 <= a < orig.len() && 0 <= b < orig.len() && a != b implies orig[a] != orig[b] by {
                assert(orig[a].4 == a as u64);
                assert(orig[b].4 == b as u64);
            }
        }
        orig.lemma_multiset_has_no_duplicates();
        keys@.lemma_multiset_has_no_duplicates_conv();
        orig.to_multiset_ensures();
        keys@.to_multiset_ensures();
        assert forall|i: int| 0 <= i < n implies (#[trigger] keys@[i]).4 < n && keys@[i] == orig[keys@[i].4 as int] by {
            assert(keys@.contains(keys@[i]));
            assert(keys@.to_multiset().count(keys@[i]) > 0);
            assert(orig.contains(keys@[i]));
            let t = choose|t: int| 0 <= t < orig.len() && orig[t] == keys@[i];
            assert(orig[t].4 == t as u64);
        }
    }
    let ghost perm = Seq::new(n as nat, |i: int| keys@[i].4 as int);
    let mut out_context: Vec<u64> = Vec::new();
    let mut out_segment: Vec<u64> = Vec::new();
    let mut out_virtuals: Vec<u64> = Vec::new();
    let mut out_values: Vec<Vec<u64>> = Vec::new();
    let mut out_is_read: Vec<u64> = Vec::new();
    let mut out_timestamp: Vec<u64> = Vec::new();
    let mut i: usize = 0;
    while i < n
        invariant
            n == context@.len(),
            segment@.len() == n,
            virtuals@.len() == n,
            values@.len() == n,
            is_read@.len() == n,
            timestamp@.len() == n,
            keys@.len() == n,
            perm == Seq::new(n as nat, |t: int| keys@[t].4 as int),
            forall|t: int| 0 <= t < n ==> (#[trigger] keys@[t]).4 < n && keys@[t] == orig[keys@[t].4 as int],
            i <= n,
            out_context@.len() == i,
            out_segment@.len() == i,
            out_virtuals@.len() == i,
            out_values@.len() == i,
            out_is_read@.len() == i,
            out_timestamp@.len() == i,
            forall|t: int| 0 <= t < i ==> #[trigger] out_context@[t] == context@[perm[t]],
            forall|t: int| 0 <= t < i ==> #[trigger] out_segment@[t] == segment@[perm[t]],
            forall|t: int| 0 <= t < i ==> #[trigger] out_virtuals@[t] == virtuals@[perm[t]],
            forall|t: int| 0 <= t < i ==> #[trigger] out_values@[t]@ == values@[perm[t]]@,
            forall|t: int| 0 <= t < i ==> #[trigger] out_is_read@[t] == is_read@[perm[t]],
            forall|t: int| 0 <= t < i ==> #[trigger] out_timestamp@[t] == timestamp@[perm[t]],
        decreases n - i,
    {
        let src = keys[i].4 as usize;
        out_context.push(context[src]);
        out_segment.push(segment[src]);
        out_virtuals.push(virtuals[src]);
        out_values.push(copy_vec(&values[src]));
        out_is_read.push(is_read[src]);
        out_timestamp.push(timestamp[src]);
        i = i + 1;
    }
    proof {
        assert forall|a: int, b: int| 0 <= a < n && 0 <= b < n && a != b implies #[trigger] perm[a] != #[trigger] perm[b] by {
            if perm[a] == perm[b] {
                assert(keys@[a] == keys@[b]);
            }
        }
        assert forall|a: int, b: int| 0 <= a < b < n implies addr_ts_le(
            context@[#[trigger] perm[a]],
            segment@[perm[a]],
            virtuals@[perm[a]],
            timestamp@[perm[a]],
            context@[#[trigger] perm[b]],
            segment@[perm[b]],
            virtuals@[perm[b]],
            timestamp@[perm[b]],
        ) by {
            assert(key_le(keys@[a], keys@[b]));
        }
        assert forall|a: int, b: int|
            0 <= a < b < n && context@[#[trigger] perm[a]] == context@[#[trigger] perm[b]] && segment@[perm[a]]
                == segment@[perm[b]] && virtuals@[perm[a]] == virtuals@[perm[b]] && timestamp@[perm[a]]
                == timestamp@[perm[b]] implies perm[a] < perm[b] by {
            assert(key_le(keys@[a], keys@[b]));
            assert(keys@[a] != keys@[b]);
        }
        assert(gathered(views(out_values@), views(values@), perm));
        assert(is_stable_sort(perm, context@, segment@, virtuals@, timestamp@));
        assert(gathered(out_context@, context@, perm));
        assert(gathered(out_segment@, segment@, perm));
        assert(gathered(out_virtuals@, virtuals@, perm));
        assert(gathered(out_is_read@, is_read@, perm));
        assert(gathered(out_timestamp@, timestamp@, perm));
    }
    let r = (out_context, out_segment, out_virtuals, out_values, out_is_read, out_timestamp);
    assert({
        &&& is_stable_sort(perm, context@, segment@, virtuals@, timestamp@)
        &&& gathered(r.0@, context@, perm)
        &&& gathered(r.1@, segment@, perm)
        &&& gathered(r.2@, virtuals@, perm)
        &&& gathered(views(r.3@), views(values@), perm)
        &&& gathered(r.4@, is_read@, perm)
        &&& gathered(r.5@, timestamp@, perm)
    });
    r
}


// ---------------------------------------------------------------------------
// First-change flags.

/// 1 where the next row has another context.
pub open spec fn context_first_change(c: Seq<u64>, i: int) -> u64 {
    if i + 1 < c.len() && c[i] != c[i + 1] {
        1
    } else {
        0
    }
}

/// 1 where the next row has the same context and another segment.
pub open spec fn segment_first_change(c: Seq<u64>, s: Seq<u64>, i: int) -> u64 {
    if i + 1 < c.len() && c[i] == c[i + 1] && s[i] != s[i + 1] {
        1
    } else {
        0
    }
}

/// 1 where the next row has the same context and segment and another virtual address.
pub open spec fn virtual_first_change(c: Seq<u64>, s: Seq<u64>, v: Seq<u64>, i: int) -> u64 {
    if i + 1 < c.len() && c[i] == c[i + 1] && s[i] == s[i + 1] && v[i] != v[i + 1] {
        1
    } else {
        0
    }
}

/// The first-change flags of a sorted log: on each row, a one-hot mark of the first
/// address column that changes to the next row; all zero on the last row.
pub fn generate_first_change_flags(context: &[u64], segment: &[u64], virtuals: &[u64]) -> (r: (
    Vec<u64>,
    Vec<u64>,
    Vec<u64>,
))
    requires
        segment@.len() == context@.len(),
        virtuals@.len() == context@.len(),
    ensures
        r.0@ == Seq::new(context@.len(), |i: int| context_first_change(context@, i)),
        r.1@ == Seq::new(context@.len(), |i: int| segment_first_change(context@, segment@, i)),
        r.2@ == Seq::new(context@.len(), |i: int| virtual_first_change(context@, segment@, virtuals@, i)),
{
    let num_ops = context.len();
    let mut context_first_change_col: Vec<u64> = Vec::new();
    let mut segment_first_change_col: Vec<u64> = Vec::new();
    let mut virtual_first_change_col: Vec<u64> = Vec::new();
    let mut idx: usize = 0;
    while idx < num_ops
        invariant
            num_ops == context@.len(),
            segment@.len() == num_ops,
            virtuals@.len() == num_ops,
            idx <= num_ops,
            context_first_change_col@ == Seq::new(idx as nat, |i: int| context_first_change(context@, i)),
            segment_first_change_col@ == Seq::new(idx as nat, |i: int| segment_first_change(context@, segment@, i)),
            virtual_first_change_col@ == Seq::new(
                idx as nat,
                |i: int| virtual_first_change(context@, segment@, virtuals@, i),
            ),
        decreases num_ops - idx,
    {
        let (c, s, v): (u64, u64, u64) = if idx + 1 < num_ops {
            if context[idx] != context[idx + 1] {
                (1, 0, 0)
            } else if segment[idx] != segment[idx + 1] {
                (0, 1, 0)
            } else if virtuals[idx] != virtuals[idx + 1] {
                (0, 0, 1)
            } else {
                (0, 0, 0)
            }
        } else {
            (0, 0, 0)
        };
        context_first_change_col.push(c);
        segment_first_change_col.push(s);
        virtual_first_change_col.push(v);
        idx = idx + 1;
        assert(context_first_change_col@ =~= Seq::new(idx as nat, |i: int| context_first_change(context@, i)));
        assert(segment_first_change_col@ =~= Seq::new(idx as nat, |i: int| segment_first_change(context@, segment@, i)));
        assert(virtual_first_change_col@ =~= Seq::new(
            idx as nat,
            |i: int| virtual_first_change(context@, segment@, virtuals@, i),
        ));
    }
    (context_first_change_col, segment_first_change_col, virtual_first_change_col)
}

// ---------------------------------------------------------------------------
// The identities between a sorted row and the next.

pub open spec fn cell(row: Seq<u64>, c: int) -> int {
    row[c] as int
}

/// `1 - ctx_fc - seg_fc - virt_fc`: 1 where only the timestamp changes.
pub open spec fn timestamp_first_change(row: Seq<u64>) -> int {
    fsub(
        fsub(fsub(1, cell(row, MEMORY_CONTEXT_FIRST_CHANGE as int)), cell(row, MEMORY_SEGMENT_FIRST_CHANGE as int)),
        cell(row, MEMORY_VIRTUAL_FIRST_CHANGE as int),
    )
}

pub open spec fn delta(local: Seq<u64>, next: Seq<u64>, c: int) -> int {
    fsub(cell(next, c), cell(local, c))
}

pub open spec fn delta_minus_one(local: Seq<u64>, next: Seq<u64>, c: int) -> int {
    fsub(delta(local, next, c), 1)
}

/// The difference, less one, of the column that the flags select.
pub open spec fn range_check_value(local: Seq<u64>, next: Seq<u64>) -> int {
    fadd(
        fadd(
            fadd(
                fmul(cell(local, MEMORY_CONTEXT_FIRST_CHANGE as int), delta_minus_one(local, next, SORTED_MEMORY_ADDR_CONTEXT as int)),
                fmul(cell(local, MEMORY_SEGMENT_FIRST_CHANGE as int), delta_minus_one(local, next, SORTED_MEMORY_ADDR_SEGMENT as int)),
            ),
            fmul(cell(local, MEMORY_VIRTUAL_FIRST_CHANGE as int), delta_minus_one(local, next, SORTED_MEMORY_ADDR_VIRTUAL as int)),
        ),
        fmul(timestamp_first_change(local), delta_minus_one(local, next, SORTED_MEMORY_TIMESTAMP as int)),
    )
}

pub open spec fn is_boolean(f: int) -> bool {
    fmul(f, fsub(1, f)) == 0
}

/// The flags are bits, and at most one of them is set.
pub open spec fn flags_hold(local: Seq<u64>) -> bool {
    &&& is_boolean(cell(local, MEMORY_CONTEXT_FIRST_CHANGE as int))
    &&& is_boolean(cell(local, MEMORY_SEGMENT_FIRST_CHANGE as int))
    &&& is_boolean(cell(local, MEMORY_VIRTUAL_FIRST_CHANGE as int))
    &&& is_boolean(timestamp_first_change(local))
}

/// A column before the flagged one does not change.
pub open spec fn unchanged_hold(local: Seq<u64>, next: Seq<u64>) -> bool {
    let ctx_fc = cell(local, MEMORY_CONTEXT_FIRST_CHANGE as int);
    let seg_fc = cell(local, MEMORY_SEGMENT_FIRST_CHANGE as int);
    &&& fmul(fsub(1, ctx_fc), delta(local, next, SORTED_MEMORY_ADDR_CONTEXT as int)) == 0
    &&& fmul(fsub(fsub(1, ctx_fc), seg_fc), delta(local, next, SORTED_MEMORY_ADDR_SEGMENT as int)) == 0
    &&& fmul(timestamp_first_change(local), delta(local, next, SORTED_MEMORY_ADDR_VIRTUAL as int)) == 0
}

pub open spec fn range_check_holds(local: Seq<u64>, next: Seq<u64>) -> bool {
    fsub(cell(local, MEMORY_RANGE_CHECK as int), range_check_value(local, next)) == 0
}

/// At an unchanged address, a read returns the value of the row before.
pub open spec fn read_holds(local: Seq<u64>, next: Seq<u64>, l: int) -> bool {
    fmul(
        fmul(cell(next, SORTED_MEMORY_IS_READ as int), timestamp_first_change(local)),
        delta(local, next, SORTED_MEMORY_VALUE_START + l),
    ) == 0
}

pub open spec fn memory_constraints(local: Seq<u64>, next: Seq<u64>) -> bool {
    &&& local.len() == NUM_MEMORY_COLUMNS
    &&& next.len() == NUM_MEMORY_COLUMNS
    &&& flags_hold(local)
    &&& unchanged_hold(local, next)
    &&& range_check_holds(local, next)
    &&& forall|l: int| 0 <= l < 8 ==> #[trigger] read_holds(local, next, l)
}

pub open spec fn memory_row_canonical(row: Seq<u64>) -> bool {
    forall|i: int| 0 <= i < row.len() ==> #[trigger] row[i] < ORDER
}

fn is_boolean_exec(f: u64) -> (r: bool)
    requires
        f < ORDER,
    ensures
        r == is_boolean(f as int),
{
    field_mul(f, field_sub(1, f)) == 0
}

/// The value that the range-checked cell of `local` must hold.
pub fn memory_range_check_value(local: &Vec<u64>, next: &Vec<u64>) -> (r: u64)
    requires
        local@.len() == NUM_MEMORY_COLUMNS,
        next@.len() == NUM_MEMORY_COLUMNS,
        forall|c: int| 0 <= c < MEMORY_RANGE_CHECK ==> #[trigger] local@[c] < ORDER,
        forall|c: int| 0 <= c < MEMORY_RANGE_CHECK ==> #[trigger] next@[c] < ORDER,
    ensures
        r == range_check_value(local@, next@),
        r < ORDER,
{
    let ctx_fc = local[MEMORY_CONTEXT_FIRST_CHANGE];
    let seg_fc = local[MEMORY_SEGMENT_FIRST_CHANGE];
    let virt_fc = local[MEMORY_VIRTUAL_FIRST_CHANGE];
    let ts_fc = field_sub(field_sub(field_sub(1, ctx_fc), seg_fc), virt_fc);
    let d_ctx = field_sub(field_sub(next[SORTED_MEMORY_ADDR_CONTEXT], local[SORTED_MEMORY_ADDR_CONTEXT]), 1);
    let d_seg = field_sub(field_sub(next[SORTED_MEMORY_ADDR_SEGMENT], local[SORTED_MEMORY_ADDR_SEGMENT]), 1);
    let d_virt = field_sub(field_sub(next[SORTED_MEMORY_ADDR_VIRTUAL], local[SORTED_MEMORY_ADDR_VIRTUAL]), 1);
    let d_ts = field_sub(field_sub(next[SORTED_MEMORY_TIMESTAMP], local[SORTED_MEMORY_TIMESTAMP]), 1);
    let a = field_add(field_mul(ctx_fc, d_ctx), field_mul(seg_fc, d_seg));
    let b = field_add(a, field_mul(virt_fc, d_virt));
    field_add(b, field_mul(ts_fc, d_ts))
}

/// Evaluates every identity over a sorted row and the next; true when all vanish.
pub fn eval_memory(local: &Vec<u64>, next: &Vec<u64>) -> (r: bool)
    requires
        memory_row_canonical(local@),
        memory_row_canonical(next@),
    ensures
        r == memory_constraints(local@, next@),
{
    if local.len() != NUM_MEMORY_COLUMNS || next.len() != NUM_MEMORY_COLUMNS {
        return false;
    }
    let ctx_fc = local[MEMORY_CONTEXT_FIRST_CHANGE];
    let seg_fc = local[MEMORY_SEGMENT_FIRST_CHANGE];
    let virt_fc = local[MEMORY_VIRTUAL_FIRST_CHANGE];
    let ts_fc = field_sub(field_sub(field_sub(1, ctx_fc), seg_fc), virt_fc);

    // First set of ordering constraints: the flags are boolean and one-hot.
    if !(is_boolean_exec(ctx_fc) && is_boolean_exec(seg_fc) && is_boolean_exec(virt_fc) && is_boolean_exec(ts_fc)) {
        return false;
    }

    // Second set: the columns before the flagged one do not change.
    let d_ctx = field_sub(next[SORTED_MEMORY_ADDR_CONTEXT], local[SORTED_MEMORY_ADDR_CONTEXT]);
    let d_seg = field_sub(next[SORTED_MEMORY_ADDR_SEGMENT], local[SORTED_MEMORY_ADDR_SEGMENT]);
    let d_virt = field_sub(next[SORTED_MEMORY_ADDR_VIRTUAL], local[SORTED_MEMORY_ADDR_VIRTUAL]);
    let not_ctx = field_sub(1, ctx_fc);
    if field_mul(not_ctx, d_ctx) != 0 || field_mul(field_sub(not_ctx, seg_fc), d_seg) != 0
        || field_mul(ts_fc, d_virt) != 0 {
        return false;
    }

    // Third set: the range-checked cell is the difference of the increasing column, less one.
    let value = memory_range_check_value(local, next);
    if field_sub(local[MEMORY_RANGE_CHECK], value) != 0 {
        return false;
    }

    // Reads return the value of the row before at the same address.
    let gate = field_mul(next[SORTED_MEMORY_IS_READ], ts_fc);
    let mut l: usize = 0;
    while l < NUM_VALUE_LIMBS
        invariant
            local@.len() == NUM_MEMORY_COLUMNS,
            next@.len() == NUM_MEMORY_COLUMNS,
            memory_row_canonical(local@),
            memory_row_canonical(next@),
            gate == fmul(cell(next@, SORTED_MEMORY_IS_READ as int), timestamp_first_change(local@)),
            gate < ORDER,
            l <= NUM_VALUE_LIMBS,
            forall|j: int| 0 <= j < l ==> #[trigger] read_holds(local@, next@, j),
        decreases NUM_VALUE_LIMBS - l,
    {
        let col = sorted_memory_value_limb(l);
        if field_mul(gate, field_sub(next[col], local[col])) != 0 {
            assert(!read_holds(local@, next@, l as int));
            return false;
        }
        l = l + 1;
    }
    true
}


// ---------------------------------------------------------------------------
// The memory trace.

/// Row `i` of a column-major memory trace.
pub open spec fn mem_row(cols: Seq<Vec<u64>>, i: int) -> Seq<u64> {
    Seq::new(NUM_MEMORY_COLUMNS as nat, |c: int| cols[c]@[i])
}

/// The columns of the log as executed: context, segment, virtual address, value
/// limbs, read flag, timestamp. The sorted log has the same columns, shifted by this.
pub const SORTED_OFFSET: usize = 13;

fn memory_row(cols: &Vec<Vec<u64>>, i: usize) -> (r: Vec<u64>)
    requires
        cols@.len() == NUM_MEMORY_COLUMNS,
        forall|c: int| 0 <= c < NUM_MEMORY_COLUMNS ==> i < (#[trigger] cols@[c])@.len(),
    ensures
        r@ == mem_row(cols@, i as int),
{
    let mut r: Vec<u64> = Vec::new();
    let mut c: usize = 0;
    while c < NUM_MEMORY_COLUMNS
        invariant
            cols@.len() == NUM_MEMORY_COLUMNS,
            forall|c: int| 0 <= c < NUM_MEMORY_COLUMNS ==> i < (#[trigger] cols@[c])@.len(),
            c <= NUM_MEMORY_COLUMNS,
            r@ == Seq::new(c as nat, |t: int| cols@[t]@[i as int]),
        decreases NUM_MEMORY_COLUMNS - c,
    {
        r.push(cols[c][i]);
        c = c + 1;
        assert(r@ =~= Seq::new(c as nat, |t: int| cols@[t]@[i as int]));
    }
    r
}

/// What the generator writes: the sorted log, its first-change flags, and the
/// range-checked differences, all determined by the log as executed.
pub open spec fn memory_generated(old_cols: Seq<Vec<u64>>, cols: Seq<Vec<u64>>) -> bool {
    let n = old_cols[0]@.len();
    &&& cols.len() == NUM_MEMORY_COLUMNS
    &&& forall|c: int| 0 <= c < NUM_MEMORY_COLUMNS ==> (#[trigger] cols[c])@.len() == n
    &&& forall|c: int| 0 <= c < SORTED_OFFSET ==> (#[trigger] cols[c])@ == old_cols[c]@
    &&& exists|perm: Seq<int>| {
        &&& is_stable_sort(
            perm,
            old_cols[MEMORY_ADDR_CONTEXT as int]@,
            old_cols[MEMORY_ADDR_SEGMENT as int]@,
            old_cols[MEMORY_ADDR_VIRTUAL as int]@,
            old_cols[MEMORY_TIMESTAMP as int]@,
        )
        &&& forall|c: int| 0 <= c < SORTED_OFFSET ==> gathered(#[trigger] cols[c + SORTED_OFFSET]@, old_cols[c]@, perm)
    }
    &&& cols[MEMORY_CONTEXT_FIRST_CHANGE as int]@ == Seq::new(
        n,
        |i: int| context_first_change(cols[SORTED_MEMORY_ADDR_CONTEXT as int]@, i),
    )
    &&& cols[MEMORY_SEGMENT_FIRST_CHANGE as int]@ == Seq::new(
        n,
        |i: int| segment_first_change(cols[SORTED_MEMORY_ADDR_CONTEXT as int]@, cols[SORTED_MEMORY_ADDR_SEGMENT as int]@, i),
    )
    &&& cols[MEMORY_VIRTUAL_FIRST_CHANGE as int]@ == Seq::new(
        n,
        |i: int| virtual_first_change(
            cols[SORTED_MEMORY_ADDR_CONTEXT as int]@,
            cols[SORTED_MEMORY_ADDR_SEGMENT as int]@,
            cols[SORTED_MEMORY_ADDR_VIRTUAL as int]@,
            i,
        ),
    )
    &&& forall|i: int| 0 <= i < n - 1 ==> #[trigger] cols[MEMORY_RANGE_CHECK as int]@[i] as int
        == range_check_value(mem_row(cols, i), mem_row(cols, i + 1))
    &&& n > 0 ==> cols[MEMORY_RANGE_CHECK as int]@[n - 1] == 0
}

/// Fills the sorted log, the first-change flags and the range-checked column from
/// the log as executed.
#[verifier::rlimit(50)]
pub fn generate_memory(trace_cols: &mut Vec<Vec<u64>>)
    requires
        old(trace_cols)@.len() == NUM_MEMORY_COLUMNS,
        forall|c: int| 0 <= c < NUM_MEMORY_COLUMNS ==> (#[trigger] old(trace_cols)@[c])@.len() == old(trace_cols)@[0]@.len(),
        forall|c: int, i: int| 0 <= c < SORTED_OFFSET && 0 <= i < old(trace_cols)@[0]@.len() ==> #[trigger] old(trace_cols)@[c]@[i] < ORDER,
    ensures
        memory_generated(old(trace_cols)@, final(trace_cols)@),
{
    let ghost old_cols = trace_cols@;
    let n = trace_cols[0].len();
    let mut values: Vec<Vec<u64>> = Vec::new();
    let mut i: usize = 0;
    while i < n
        invariant
            trace_cols@ == old_cols,
            old_cols.len() == NUM_MEMORY_COLUMNS,
            forall|c: int| 0 <= c < NUM_MEMORY_COLUMNS ==> (#[trigger] old_cols[c])@.len() == n,
            i <= n,
            values@.len() == i,
            forall|t: int| 0 <= t < i ==> (#[trigger] values@[t])@.len() == 8,
            forall|t: int, l: int| 0 <= t < i && 0 <= l < 8 ==> #[trigger] values@[t]@[l] == old_cols[MEMORY_VALUE_START + l]@[t],
        decreases n - i,
    {
        let mut v: Vec<u64> = Vec::new();
        let mut l: usize = 0;
        while l < NUM_VALUE_LIMBS
            invariant
                trace_cols@ == old_cols,
                old_cols.len() == NUM_MEMORY_COLUMNS,
                forall|c: int| 0 <= c < NUM_MEMORY_COLUMNS ==> (#[trigger] old_cols[c])@.len() == n,
                i < n,
                l <= 8,
                v@.len() == l,
                forall|k: int| 0 <= k < l ==> #[trigger] v@[k] == old_cols[MEMORY_VALUE_START + k]@[i as int],
            decreases NUM_VALUE_LIMBS - l,
        {
            v.push(trace_cols[memory_value_limb(l)][i]);
            l = l + 1;
        }
        values.push(v);
        i = i + 1;
    }
    let (sorted_context, sorted_segment, sorted_virtual, sorted_values, sorted_is_read, sorted_timestamp) =
        sort_memory_ops(
        trace_cols[MEMORY_ADDR_CONTEXT].as_slice(),
        trace_cols[MEMORY_ADDR_SEGMENT].as_slice(),
        trace_cols[MEMORY_ADDR_VIRTUAL].as_slice(),
        values.as_slice(),
        trace_cols[MEMORY_IS_READ].as_slice(),
        trace_cols[MEMORY_TIMESTAMP].as_slice(),
    );
    let ghost perm = choose|perm: Seq<int>| {
        &&& is_stable_sort(perm, old_cols[0]@, old_cols[1]@, old_cols[2]@, old_cols[12]@)
        &&& gathered(sorted_context@, old_cols[0]@, perm)
        &&& gathered(sorted_segment@, old_cols[1]@, perm)
        &&& gathered(sorted_virtual@, old_cols[2]@, perm)
        &&& gathered(views(sorted_values@), views(values@), perm)
        &&& gathered(sorted_is_read@, old_cols[11]@, perm)
        &&& gathered(sorted_timestamp@, old_cols[12]@, perm)
    };
    let (context_first_change_col, segment_first_change_col, virtual_first_change_col) =
        generate_first_change_flags(sorted_context.as_slice(), sorted_segment.as_slice(), sorted_virtual.as_slice());

    trace_cols.set(SORTED_MEMORY_ADDR_CONTEXT, sorted_context);
    trace_cols.set(SORTED_MEMORY_ADDR_SEGMENT, sorted_segment);
    trace_cols.set(SORTED_MEMORY_ADDR_VIRTUAL, sorted_virtual);
    trace_cols.set(SORTED_MEMORY_IS_READ, sorted_is_read);
    trace_cols.set(SORTED_MEMORY_TIMESTAMP, sorted_timestamp);
    let mut l: usize = 0;
    while l < NUM_VALUE_LIMBS
        invariant
            old_cols.len() == NUM_MEMORY_COLUMNS,
            forall|c: int| 0 <= c < NUM_MEMORY_COLUMNS ==> (#[trigger] old_cols[c])@.len() == n,
            trace_cols@.len() == NUM_MEMORY_COLUMNS,
            forall|c: int| 0 <= c < NUM_MEMORY_COLUMNS ==> (#[trigger] trace_cols@[c])@.len() == n,
            forall|c: int| 0 <= c < SORTED_OFFSET ==> (#[trigger] trace_cols@[c])@ == old_cols[c]@,
            perm.len() == n,
            forall|t: int| 0 <= t < n ==> 0 <= #[trigger] perm[t] < n,
            sorted_values@.len() == n,
            gathered(views(sorted_values@), views(values@), perm),
            values@.len() == n,
            forall|t: int| 0 <= t < n ==> (#[trigger] values@[t])@.len() == 8,
            forall|t: int, k: int| 0 <= t < n && 0 <= k < 8 ==> #[trigger] values@[t]@[k] == old_cols[MEMORY_VALUE_START + k]@[t],
            gathered(trace_cols@[SORTED_MEMORY_ADDR_CONTEXT as int]@, old_cols[0]@, perm),
            gathered(trace_cols@[SORTED_MEMORY_ADDR_SEGMENT as int]@, old_cols[1]@, perm),
            gathered(trace_cols@[SORTED_MEMORY_ADDR_VIRTUAL as int]@, old_cols[2]@, perm),
            gathered(trace_cols@[SORTED_MEMORY_IS_READ as int]@, old_cols[11]@, perm),
            gathered(trace_cols@[SORTED_MEMORY_TIMESTAMP as int]@, old_cols[12]@, perm),
            l <= 8,
            forall|k: int| 0 <= k < l ==> gathered(#[trigger] trace_cols@[SORTED_MEMORY_VALUE_START + k]@, old_cols[MEMORY_VALUE_START + k]@, perm),
        decreases NUM_VALUE_LIMBS - l,
    {
        let mut col: Vec<u64> = Vec::new();
        let mut i: usize = 0;
        while i < n
            invariant
                perm.len() == n,
                forall|t: int| 0 <= t < n ==> 0 <= #[trigger] perm[t] < n,
                sorted_values@.len() == n,
                gathered(views(sorted_values@), views(values@), perm),
                values@.len() == n,
                forall|t: int| 0 <= t < n ==> (#[trigger] values@[t])@.len() == 8,
                forall|t: int, k: int| 0 <= t < n && 0 <= k < 8 ==> #[trigger] values@[t]@[k] == old_cols[MEMORY_VALUE_START + k]@[t],
                l < 8,
                i <= n,
                col@.len() == i,
                forall|t: int| 0 <= t < i ==> #[trigger] col@[t] == old_cols[MEMORY_VALUE_START + l]@[perm[t]],
            decreases n - i,
        {
            assert(views(sorted_values@)[i as int] == views(values@)[perm[i as int]]);
            assert(values@[perm[i as int]]@.len() == 8);
            col.push(sorted_values[i][l]);
            i = i + 1;
        }
        trace_cols.set(sorted_memory_value_limb(l), col);
        l = l + 1;
    }
    trace_cols.set(MEMORY_CONTEXT_FIRST_CHANGE, context_first_change_col);
    trace_cols.set(MEMORY_SEGMENT_FIRST_CHANGE, segment_first_change_col);
    trace_cols.set(MEMORY_VIRTUAL_FIRST_CHANGE, virtual_first_change_col);

    proof {
        assert forall|c: int, t: int| 0 <= c < MEMORY_RANGE_CHECK && 0 <= t < n implies #[trigger] trace_cols@[c]@[t] < ORDER by {
            if c < SORTED_OFFSET {
            } else if c < MEMORY_CONTEXT_FIRST_CHANGE {
                let c0 = c - SORTED_OFFSET;
                if MEMORY_VALUE_START <= c0 < MEMORY_IS_READ {
                    assert(gathered(trace_cols@[SORTED_MEMORY_VALUE_START + (c0 - MEMORY_VALUE_START)]@, old_cols[MEMORY_VALUE_START + (c0 - MEMORY_VALUE_START)]@, perm));
                }
                assert(old_cols[c0]@[perm[t]] < ORDER);
            }
        }
    }
    let mut range_col: Vec<u64> = Vec::new();
    let mut i: usize = 0;
    while i < n
        invariant
            trace_cols@.len() == NUM_MEMORY_COLUMNS,
            forall|c: int| 0 <= c < NUM_MEMORY_COLUMNS ==> (#[trigger] trace_cols@[c])@.len() == n,
            forall|c: int, t: int| 0 <= c < MEMORY_RANGE_CHECK && 0 <= t < n ==> #[trigger] trace_cols@[c]@[t] < ORDER,
            i <= n,
            range_col@.len() == i,
            forall|t: int| 0 <= t < i && t < n - 1 ==> #[trigger] range_col@[t] as int
                == range_check_value(mem_row(trace_cols@, t), mem_row(trace_cols@, t + 1)),
            forall|t: int| 0 <= t < i && t == n - 1 ==> #[trigger] range_col@[t] == 0,
        decreases n - i,
    {
        if i + 1 < n {
            let local = memory_row(trace_cols, i);
            let next = memory_row(trace_cols, i + 1);
            range_col.push(memory_range_check_value(&local, &next));
        } else {
            range_col.push(0);
        }
        i = i + 1;
    }
    let ghost before = trace_cols@;
    trace_cols.set(MEMORY_RANGE_CHECK, range_col);
    proof {
        assert forall|t: int| 0 <= t < n - 1 implies #[trigger] trace_cols@[MEMORY_RANGE_CHECK as int]@[t] as int
            == range_check_value(mem_row(trace_cols@, t), mem_row(trace_cols@, t + 1)) by {
            lemma_range_value_ignores_range_cell(mem_row(before, t), mem_row(before, t + 1), mem_row(trace_cols@, t), mem_row(trace_cols@, t + 1));
        }
        assert forall|c: int| 0 <= c < SORTED_OFFSET implies gathered(#[trigger] trace_cols@[c + SORTED_OFFSET]@, old_cols[c]@, perm) by {
            if MEMORY_VALUE_START <= c < MEMORY_IS_READ {
                assert(trace_cols@[SORTED_MEMORY_VALUE_START + (c - MEMORY_VALUE_START)] == trace_cols@[c + SORTED_OFFSET]);
            }
        }
        let cols = trace_cols@;
        assert(cols[MEMORY_CONTEXT_FIRST_CHANGE as int]@ =~= Seq::new(
            n as nat,
            |i: int| context_first_change(cols[SORTED_MEMORY_ADDR_CONTEXT as int]@, i),
        ));
        assert(cols[MEMORY_SEGMENT_FIRST_CHANGE as int]@ =~= Seq::new(
            n as nat,
            |i: int| segment_first_change(cols[SORTED_MEMORY_ADDR_CONTEXT as int]@, cols[SORTED_MEMORY_ADDR_SEGMENT as int]@, i),
        ));
        assert(cols[MEMORY_VIRTUAL_FIRST_CHANGE as int]@ =~= Seq::new(
            n as nat,
            |i: int| virtual_first_change(
                cols[SORTED_MEMORY_ADDR_CONTEXT as int]@,
                cols[SORTED_MEMORY_ADDR_SEGMENT as int]@,
                cols[SORTED_MEMORY_ADDR_VIRTUAL as int]@,
                i,
            ),
        ));
        assert(is_stable_sort(perm, old_cols[0]@, old_cols[1]@, old_cols[2]@, old_cols[12]@));
    }
}

proof fn lemma_range_value_ignores_range_cell(a: Seq<u64>, b: Seq<u64>, a2: Seq<u64>, b2: Seq<u64>)
    requires
        a.len() == NUM_MEMORY_COLUMNS,
        b.len() == NUM_MEMORY_COLUMNS,
        a2.len() == NUM_MEMORY_COLUMNS,
        b2.len() == NUM_MEMORY_COLUMNS,
        forall|c: int| 0 <= c < MEMORY_RANGE_CHECK ==> a[c] == a2[c] && b[c] == b2[c],
    ensures
        range_check_value(a, b) == range_check_value(a2, b2),
{
    assert(a[MEMORY_CONTEXT_FIRST_CHANGE as int] == a2[MEMORY_CONTEXT_FIRST_CHANGE as int]);
    assert(a[MEMORY_SEGMENT_FIRST_CHANGE as int] == a2[MEMORY_SEGMENT_FIRST_CHANGE as int]);
    assert(a[MEMORY_VIRTUAL_FIRST_CHANGE as int] == a2[MEMORY_VIRTUAL_FIRST_CHANGE as int]);
    assert(a[SORTED_MEMORY_ADDR_CONTEXT as int] == a2[SORTED_MEMORY_ADDR_CONTEXT as int]);
    assert(a[SORTED_MEMORY_ADDR_SEGMENT as int] == a2[SORTED_MEMORY_ADDR_SEGMENT as int]);
    assert(a[SORTED_MEMORY_ADDR_VIRTUAL as int] == a2[SORTED_MEMORY_ADDR_VIRTUAL as int]);
    assert(a[SORTED_MEMORY_TIMESTAMP as int] == a2[SORTED_MEMORY_TIMESTAMP as int]);
    assert(b[SORTED_MEMORY_ADDR_CONTEXT as int] == b2[SORTED_MEMORY_ADDR_CONTEXT as int]);
    assert(b[SORTED_MEMORY_ADDR_SEGMENT as int] == b2[SORTED_MEMORY_ADDR_SEGMENT as int]);
    assert(b[SORTED_MEMORY_ADDR_VIRTUAL as int] == b2[SORTED_MEMORY_ADDR_VIRTUAL as int]);
    assert(b[SORTED_MEMORY_TIMESTAMP as int] == b2[SORTED_MEMORY_TIMESTAMP as int]);
}


// ---------------------------------------------------------------------------
// What holds of a generated memory trace.

/// The operations of the log have pairwise distinct (context, segment, virtual
/// address, timestamp).
pub open spec fn keys_distinct(cols: Seq<Vec<u64>>) -> bool {
    forall|a: int, b: int|
        0 <= a < cols[0]@.len() && 0 <= b < cols[0]@.len() && a != b ==> {
            ||| #[trigger] cols[MEMORY_ADDR_CONTEXT as int]@[a] != #[trigger] cols[MEMORY_ADDR_CONTEXT as int]@[b]
            ||| cols[MEMORY_ADDR_SEGMENT as int]@[a] != cols[MEMORY_ADDR_SEGMENT as int]@[b]
            ||| cols[MEMORY_ADDR_VIRTUAL as int]@[a] != cols[MEMORY_ADDR_VIRTUAL as int]@[b]
            ||| cols[MEMORY_TIMESTAMP as int]@[a] != cols[MEMORY_TIMESTAMP as int]@[b]
        }
}

/// The difference, less one, of the first sorted column that changes to the next row.
pub open spec fn first_increase(local: Seq<u64>, next: Seq<u64>) -> int {
    let c = SORTED_MEMORY_ADDR_CONTEXT as int;
    let s = SORTED_MEMORY_ADDR_SEGMENT as int;
    let v = SORTED_MEMORY_ADDR_VIRTUAL as int;
    let t = SORTED_MEMORY_TIMESTAMP as int;
    if local[c] != next[c] {
        next[c] - local[c] - 1
    } else if local[s] != next[s] {
        next[s] - local[s] - 1
    } else if local[v] != next[v] {
        next[v] - local[v] - 1
    } else {
        next[t] - local[t] - 1
    }
}

/// A read at the address of the row before returns that row's value.
pub open spec fn read_consistent(local: Seq<u64>, next: Seq<u64>) -> bool {
    (local[SORTED_MEMORY_ADDR_CONTEXT as int] == next[SORTED_MEMORY_ADDR_CONTEXT as int]
        && local[SORTED_MEMORY_ADDR_SEGMENT as int] == next[SORTED_MEMORY_ADDR_SEGMENT as int]
        && local[SORTED_MEMORY_ADDR_VIRTUAL as int] == next[SORTED_MEMORY_ADDR_VIRTUAL as int]
        && next[SORTED_MEMORY_IS_READ as int] == 1) ==> forall|l: int|
        0 <= l < 8 ==> #[trigger] next[SORTED_MEMORY_VALUE_START + l] == local[SORTED_MEMORY_VALUE_START + l]
}

#[verifier::rlimit(50)]
proof fn lemma_memory_pair(local: Seq<u64>, next: Seq<u64>)
    requires
        local.len() == NUM_MEMORY_COLUMNS,
        next.len() == NUM_MEMORY_COLUMNS,
        forall|c: int| 0 <= c < MEMORY_RANGE_CHECK ==> #[trigger] local[c] < ORDER,
        forall|c: int| 0 <= c < MEMORY_RANGE_CHECK ==> #[trigger] next[c] < ORDER,
        addr_ts_le(
            local[SORTED_MEMORY_ADDR_CONTEXT as int],
            local[SORTED_MEMORY_ADDR_SEGMENT as int],
            local[SORTED_MEMORY_ADDR_VIRTUAL as int],
            local[SORTED_MEMORY_TIMESTAMP as int],
            next[SORTED_MEMORY_ADDR_CONTEXT as int],
            next[SORTED_MEMORY_ADDR_SEGMENT as int],
            next[SORTED_MEMORY_ADDR_VIRTUAL as int],
            next[SORTED_MEMORY_TIMESTAMP as int],
        ),
        local[SORTED_MEMORY_ADDR_CONTEXT as int] != next[SORTED_MEMORY_ADDR_CONTEXT as int]
            || local[SORTED_MEMORY_ADDR_SEGMENT as int] != next[SORTED_MEMORY_ADDR_SEGMENT as int]
            || local[SORTED_MEMORY_ADDR_VIRTUAL as int] != next[SORTED_MEMORY_ADDR_VIRTUAL as int]
            || local[SORTED_MEMORY_TIMESTAMP as int] != next[SORTED_MEMORY_TIMESTAMP as int],
        local[MEMORY_CONTEXT_FIRST_CHANGE as int] == if local[SORTED_MEMORY_ADDR_CONTEXT as int]
            != next[SORTED_MEMORY_ADDR_CONTEXT as int] { 1u64 } else { 0u64 },
        local[MEMORY_SEGMENT_FIRST_CHANGE as int] == if local[SORTED_MEMORY_ADDR_CONTEXT as int]
            == next[SORTED_MEMORY_ADDR_CONTEXT as int] && local[SORTED_MEMORY_ADDR_SEGMENT as int]
            != next[SORTED_MEMORY_ADDR_SEGMENT as int] { 1u64 } else { 0u64 },
        local[MEMORY_VIRTUAL_FIRST_CHANGE as int] == if local[SORTED_MEMORY_ADDR_CONTEXT as int]
            == next[SORTED_MEMORY_ADDR_CONTEXT as int] && local[SORTED_MEMORY_ADDR_SEGMENT as int]
            == next[SORTED_MEMORY_ADDR_SEGMENT as int] && local[SORTED_MEMORY_ADDR_VIRTUAL as int]
            != next[SORTED_MEMORY_ADDR_VIRTUAL as int] { 1u64 } else { 0u64 },
        local[MEMORY_RANGE_CHECK as int] as int == range_check_value(local, next),
        is_bit_u64(next[SORTED_MEMORY_IS_READ as int]),
    ensures
        flags_hold(local),
        unchanged_hold(local, next),
        range_check_holds(local, next),
        local[MEMORY_RANGE_CHECK as int] as int == first_increase(local, next),
        first_increase(local, next) >= 0,
        (forall|l: int| 0 <= l < 8 ==> #[trigger] read_holds(local, next, l)) <==> read_consistent(local, next),
{
    let c = SORTED_MEMORY_ADDR_CONTEXT as int;
    let s = SORTED_MEMORY_ADDR_SEGMENT as int;
    let v = SORTED_MEMORY_ADDR_VIRTUAL as int;
    let t = SORTED_MEMORY_TIMESTAMP as int;
    let ctx_fc = cell(local, MEMORY_CONTEXT_FIRST_CHANGE as int);
    let seg_fc = cell(local, MEMORY_SEGMENT_FIRST_CHANGE as int);
    let virt_fc = cell(local, MEMORY_VIRTUAL_FIRST_CHANGE as int);
    lemma_sub_self(0);
    lemma_sub_self(1);
    lemma_fsub_small(1, 0);
    lemma_fadd_small(0, 0);
    lemma_fmul_bits(0, 1);
    lemma_fmul_bits(1, 0);
    lemma_fmul_bits(0, 0);
    let dc = delta(local, next, c);
    let ds = delta(local, next, s);
    let dv = delta(local, next, v);
    let dt = delta(local, next, t);
    lemma_field_results_canonical(cell(next, c), cell(local, c));
    lemma_field_results_canonical(cell(next, s), cell(local, s));
    lemma_field_results_canonical(cell(next, v), cell(local, v));
    lemma_field_results_canonical(cell(next, t), cell(local, t));
    let mc = delta_minus_one(local, next, c);
    let ms = delta_minus_one(local, next, s);
    let mv = delta_minus_one(local, next, v);
    let mt = delta_minus_one(local, next, t);
    lemma_field_results_canonical(dc, 1);
    lemma_field_results_canonical(ds, 1);
    lemma_field_results_canonical(dv, 1);
    lemma_field_results_canonical(dt, 1);
    lemma_fmul_zero(dc);
    lemma_fmul_zero(ds);
    lemma_fmul_zero(dv);
    lemma_fmul_zero(mc);
    lemma_fmul_zero(ms);
    lemma_fmul_zero(mv);
    lemma_fmul_zero(mt);
    let ts_fc = timestamp_first_change(local);
    if local[c] != next[c] {
        assert(ctx_fc == 1 && seg_fc == 0 && virt_fc == 0);
        assert(ts_fc == 0);
        lemma_fsub_small(cell(next, c), cell(local, c));
        lemma_fsub_small(dc, 1);
        lemma_fmul_one(mc);
        lemma_fadd_small(mc, 0);
        assert(range_check_value(local, next) == mc);
    } else if local[s] != next[s] {
        assert(ctx_fc == 0 && seg_fc == 1 && virt_fc == 0);
        lemma_sub_self(cell(local, c));
        assert(ts_fc == 0);
        lemma_fsub_small(cell(next, s), cell(local, s));
        lemma_fsub_small(ds, 1);
        lemma_fmul_one(ms);
        lemma_fadd_small(0, ms);
        lemma_fadd_small(ms, 0);
        assert(range_check_value(local, next) == ms);
    } else if local[v] != next[v] {
        assert(ctx_fc == 0 && seg_fc == 0 && virt_fc == 1);
        lemma_sub_self(cell(local, c));
        lemma_sub_self(cell(local, s));
        assert(ts_fc == 0);
        lemma_fsub_small(cell(next, v), cell(local, v));
        lemma_fsub_small(dv, 1);
        lemma_fmul_one(mv);
        lemma_fadd_small(0, mv);
        lemma_fadd_small(mv, 0);
        assert(range_check_value(local, next) == mv);
    } else {
        assert(ctx_fc == 0 && seg_fc == 0 && virt_fc == 0);
        lemma_sub_self(cell(local, c));
        lemma_sub_self(cell(local, s));
        lemma_sub_self(cell(local, v));
        assert(ts_fc == 1);
        lemma_fsub_small(cell(next, t), cell(local, t));
        lemma_fsub_small(dt, 1);
        lemma_fmul_one(mt);
        lemma_fadd_small(0, mt);
        assert(range_check_value(local, next) == mt);
    }
    lemma_sub_self(cell(local, MEMORY_RANGE_CHECK as int));
    let r = cell(next, SORTED_MEMORY_IS_READ as int);
    lemma_fmul_bits(r, ts_fc);
    let g = fmul(r, ts_fc);
    assert forall|l: int| 0 <= l < 8 implies #[trigger] read_holds(local, next, l) <==> (g == 1 ==> next[SORTED_MEMORY_VALUE_START + l] == local[SORTED_MEMORY_VALUE_START + l]) by {
        let col = SORTED_MEMORY_VALUE_START + l;
        lemma_field_results_canonical(cell(next, col), cell(local, col));
        lemma_fmul_zero(delta(local, next, col));
        lemma_fmul_one(delta(local, next, col));
        if next[col] == local[col] {
            lemma_sub_self(cell(local, col));
        } else {
            reveal(fsub);
        }
    }
    if read_consistent(local, next) {
        assert forall|l: int| 0 <= l < 8 implies #[trigger] read_holds(local, next, l) by {
            if g == 1 {
                assert(next[SORTED_MEMORY_VALUE_START + l] == local[SORTED_MEMORY_VALUE_START + l]);
            }
        }
    }
    if forall|l: int| 0 <= l < 8 ==> #[trigger] read_holds(local, next, l) {
        assert forall|l: int| 0 <= l < 8 && g == 1 implies #[trigger] next[SORTED_MEMORY_VALUE_START + l] == local[SORTED_MEMORY_VALUE_START + l] by {
            assert(read_holds(local, next, l));
        }
    }
}

pub open spec fn is_bit_u64(b: u64) -> bool {
    b == 0 || b == 1
}

/// In the trace that the generator writes for a log whose operations have
/// distinct (context, segment, virtual address, timestamp) and whose read flags are
/// bits, on every pair of adjacent sorted rows: the flags are boolean and one-hot,
/// the columns before the flagged one are unchanged, and the range-checked cell is
/// the exact non-negative difference, less one, of the first column that increases;
/// and the read identities hold exactly when every read at the address of the row
/// before returns that row's value.
#[verifier::rlimit(50)]
pub proof fn lemma_generated_memory_constraints(old_cols: Seq<Vec<u64>>, cols: Seq<Vec<u64>>, i: int)
    requires
        old_cols.len() == NUM_MEMORY_COLUMNS,
        forall|c: int| 0 <= c < NUM_MEMORY_COLUMNS ==> (#[trigger] old_cols[c])@.len() == old_cols[0]@.len(),
        forall|c: int, t: int| 0 <= c < SORTED_OFFSET && 0 <= t < old_cols[0]@.len() ==> #[trigger] old_cols[c]@[t] < ORDER,
        forall|t: int| 0 <= t < old_cols[0]@.len() ==> is_bit_u64(#[trigger] old_cols[MEMORY_IS_READ as int]@[t]),
        keys_distinct(old_cols),
        memory_generated(old_cols, cols),
        0 <= i < old_cols[0]@.len() - 1,
    ensures
        flags_hold(mem_row(cols, i)),
        unchanged_hold(mem_row(cols, i), mem_row(cols, i + 1)),
        range_check_holds(mem_row(cols, i), mem_row(cols, i + 1)),
        cols[MEMORY_RANGE_CHECK as int]@[i] as int == first_increase(mem_row(cols, i), mem_row(cols, i + 1)),
        first_increase(mem_row(cols, i), mem_row(cols, i + 1)) >= 0,
        memory_constraints(mem_row(cols, i), mem_row(cols, i + 1)) <==> read_consistent(mem_row(cols, i), mem_row(cols, i + 1)),
{
    let n = old_cols[0]@.len();
    let perm = choose|perm: Seq<int>| {
        &&& is_stable_sort(
            perm,
            old_cols[MEMORY_ADDR_CONTEXT as int]@,
            old_cols[MEMORY_ADDR_SEGMENT as int]@,
            old_cols[MEMORY_ADDR_VIRTUAL as int]@,
            old_cols[MEMORY_TIMESTAMP as int]@,
        )
        &&& forall|c: int| 0 <= c < SORTED_OFFSET ==> gathered(#[trigger] cols[c + SORTED_OFFSET]@, old_cols[c]@, perm)
    };
    let local = mem_row(cols, i);
    let next = mem_row(cols, i + 1);
    let a = perm[i];
    let b = perm[i + 1];
    assert forall|c: int| 0 <= c < SORTED_OFFSET implies local[c + SORTED_OFFSET] == (#[trigger] old_cols[c])@[a]
        && next[c + SORTED_OFFSET] == old_cols[c]@[b] by {
        assert(gathered(cols[c + SORTED_OFFSET]@, old_cols[c]@, perm));
    }
    assert(local[SORTED_MEMORY_ADDR_CONTEXT as int] == old_cols[0]@[a]);
    assert(local[SORTED_MEMORY_ADDR_SEGMENT as int] == old_cols[1]@[a]);
    assert(local[SORTED_MEMORY_ADDR_VIRTUAL as int] == old_cols[2]@[a]);
    assert(local[SORTED_MEMORY_TIMESTAMP as int] == old_cols[12]@[a]);
    assert(local[SORTED_MEMORY_IS_READ as int] == old_cols[11]@[a]);
    assert(next[SORTED_MEMORY_ADDR_CONTEXT as int] == old_cols[0]@[b]);
    assert(next[SORTED_MEMORY_ADDR_SEGMENT as int] == old_cols[1]@[b]);
    assert(next[SORTED_MEMORY_ADDR_VIRTUAL as int] == old_cols[2]@[b]);
    assert(next[SORTED_MEMORY_TIMESTAMP as int] == old_cols[12]@[b]);
    assert(next[SORTED_MEMORY_IS_READ as int] == old_cols[11]@[b]);
    assert(a != b);
    assert(old_cols[0]@[a] != old_cols[0]@[b] || old_cols[1]@[a] != old_cols[1]@[b] || old_cols[2]@[a] != old_cols[2]@[b] || old_cols[12]@[a] != old_cols[12]@[b]);
    assert forall|c: int| 0 <= c < MEMORY_RANGE_CHECK implies #[trigger] local[c] < ORDER && next[c] < ORDER by {
        if c < SORTED_OFFSET {
            assert(cols[c]@ == old_cols[c]@);
            assert(old_cols[c]@[i] < ORDER && old_cols[c]@[i + 1] < ORDER);
        } else if c < MEMORY_CONTEXT_FIRST_CHANGE {
            assert(local[(c - SORTED_OFFSET) + SORTED_OFFSET] == old_cols[c - SORTED_OFFSET]@[a]);
            assert(next[(c - SORTED_OFFSET) + SORTED_OFFSET] == old_cols[c - SORTED_OFFSET]@[b]);
        } else if c == MEMORY_CONTEXT_FIRST_CHANGE {
            assert(next[c] == context_first_change(cols[SORTED_MEMORY_ADDR_CONTEXT as int]@, i + 1));
        } else if c == MEMORY_SEGMENT_FIRST_CHANGE {
            assert(next[c] == segment_first_change(cols[SORTED_MEMORY_ADDR_CONTEXT as int]@, cols[SORTED_MEMORY_ADDR_SEGMENT as int]@, i + 1));
        } else {
            assert(next[c] == virtual_first_change(cols[SORTED_MEMORY_ADDR_CONTEXT as int]@, cols[SORTED_MEMORY_ADDR_SEGMENT as int]@, cols[SORTED_MEMORY_ADDR_VIRTUAL as int]@, i + 1));
        }
    }
    assert forall|c: int| 0 <= c < MEMORY_RANGE_CHECK implies #[trigger] next[c] < ORDER by {
        assert(local[c] < ORDER);
    }
    assert(local[MEMORY_CONTEXT_FIRST_CHANGE as int] == context_first_change(cols[SORTED_MEMORY_ADDR_CONTEXT as int]@, i));
    assert(local[MEMORY_SEGMENT_FIRST_CHANGE as int] == segment_first_change(cols[SORTED_MEMORY_ADDR_CONTEXT as int]@, cols[SORTED_MEMORY_ADDR_SEGMENT as int]@, i));
    assert(local[MEMORY_VIRTUAL_FIRST_CHANGE as int] == virtual_first_change(cols[SORTED_MEMORY_ADDR_CONTEXT as int]@, cols[SORTED_MEMORY_ADDR_SEGMENT as int]@, cols[SORTED_MEMORY_ADDR_VIRTUAL as int]@, i));
    assert(local[MEMORY_RANGE_CHECK as int] as int == range_check_value(local, next));
    lemma_memory_pair(local, next);
}


// ---------------------------------------------------------------------------
// The same identities, emitted as a circuit.

/// The value of the read identity on limb `l`.
pub open spec fn read_value(local: Seq<u64>, next: Seq<u64>, l: int) -> int {
    fmul(
        fmul(cell(next, SORTED_MEMORY_IS_READ as int), timestamp_first_change(local)),
        delta(local, next, SORTED_MEMORY_VALUE_START + l),
    )
}

/// The values of the memory identities, in the order they are emitted: flag
/// booleanity (4), unchanged columns (3), the range check (1), reads (8).
pub open spec fn memory_constraint_values(local: Seq<u64>, next: Seq<u64>) -> Seq<int> {
    let ctx_fc = cell(local, MEMORY_CONTEXT_FIRST_CHANGE as int);
    let seg_fc = cell(local, MEMORY_SEGMENT_FIRST_CHANGE as int);
    let virt_fc = cell(local, MEMORY_VIRTUAL_FIRST_CHANGE as int);
    let ts_fc = timestamp_first_change(local);
    seq![
        fmul(ctx_fc, fsub(1, ctx_fc)),
        fmul(seg_fc, fsub(1, seg_fc)),
        fmul(virt_fc, fsub(1, virt_fc)),
        fmul(ts_fc, fsub(1, ts_fc)),
        fmul(fsub(1, ctx_fc), delta(local, next, SORTED_MEMORY_ADDR_CONTEXT as int)),
        fmul(fsub(fsub(1, ctx_fc), seg_fc), delta(local, next, SORTED_MEMORY_ADDR_SEGMENT as int)),
        fmul(ts_fc, delta(local, next, SORTED_MEMORY_ADDR_VIRTUAL as int)),
        fsub(cell(local, MEMORY_RANGE_CHECK as int), range_check_value(local, next)),
        read_value(local, next, 0),
        read_value(local, next, 1),
        read_value(local, next, 2),
        read_value(local, next, 3),
        read_value(local, next, 4),
        read_value(local, next, 5),
        read_value(local, next, 6),
        read_value(local, next, 7),
    ]
}

/// The identities hold exactly when every emitted value vanishes.
pub proof fn lemma_memory_constraint_values(local: Seq<u64>, next: Seq<u64>)
    requires
        local.len() == NUM_MEMORY_COLUMNS,
        next.len() == NUM_MEMORY_COLUMNS,
    ensures
        memory_constraints(local, next) <==> forall|k: int| 0 <= k < 16 ==> #[trigger] memory_constraint_values(local, next)[k] == 0,
{
    let v = memory_constraint_values(local, next);
    if forall|k: int| 0 <= k < 16 ==> #[trigger] v[k] == 0 {
        assert forall|l: int| 0 <= l < 8 implies #[trigger] read_holds(local, next, l) by {
            assert(v[8 + l] == 0);
        }
    }
    if memory_constraints(local, next) {
        assert forall|k: int| 0 <= k < 16 implies #[trigger] v[k] == 0 by {
            if k >= 8 {
                assert(read_holds(local, next, k - 8));
            }
        }
    }
}

/// The first eight emitted wires carry the first eight identities, and `gate` the
/// factor of the read identities.
pub open spec fn emitted_prefix_ok(g: Seq<Gate>, inputs: Seq<u64>, local: Seq<Target>, next: Seq<Target>, r: Seq<Target>, gate: Target) -> bool {
    let lv = row_of(g, inputs, local);
    let nv = row_of(g, inputs, next);
    &&& forall|k: int| 0 <= k < 8 ==> #[trigger] wire_value(g, inputs, r[k] as int) == memory_constraint_values(lv, nv)[k]
    &&& wire_value(g, inputs, gate as int) == fmul(cell(nv, SORTED_MEMORY_IS_READ as int), timestamp_first_change(lv))
}

#[verifier::rlimit(100)]
fn emit_ordering_constraints(builder: &mut CircuitBuilder, local: &Vec<Target>, next: &Vec<Target>) -> (r: (Vec<Target>, Target))
    requires
        gates_wf(old(builder).gates@),
        local@.len() == NUM_MEMORY_COLUMNS,
        next@.len() == NUM_MEMORY_COLUMNS,
        forall|c: int| 0 <= c < NUM_MEMORY_COLUMNS ==> #[trigger] local@[c] < old(builder).gates@.len(),
        forall|c: int| 0 <= c < NUM_MEMORY_COLUMNS ==> #[trigger] next@[c] < old(builder).gates@.len(),
    ensures
        gates_wf(final(builder).gates@),
        old(builder).gates@.len() < final(builder).gates@.len(),
        final(builder).gates@.subrange(0, old(builder).gates@.len() as int) == old(builder).gates@,
        r.0@.len() == 8,
        forall|k: int| 0 <= k < 8 ==> #[trigger] r.0@[k] < final(builder).gates@.len(),
        r.1 < final(builder).gates@.len(),
        forall|inputs: Seq<u64>| #[trigger] emitted_prefix_ok(final(builder).gates@, inputs, local@, next@, r.0@, r.1),
{
    let ghost g0 = builder.gates@;
    let one = builder.constant(1);
    let ctx_fc = local[MEMORY_CONTEXT_FIRST_CHANGE];
    let seg_fc = local[MEMORY_SEGMENT_FIRST_CHANGE];
    let virt_fc = local[MEMORY_VIRTUAL_FIRST_CHANGE];

    // First set of ordering constraints: the flags are boolean and one-hot.
    let not_ctx = builder.sub_extension(one, ctx_fc);
    let not_seg = builder.sub_extension(one, seg_fc);
    let not_virt = builder.sub_extension(one, virt_fc);
    let c0 = builder.mul_extension(ctx_fc, not_ctx);
    let c1 = builder.mul_extension(seg_fc, not_seg);
    let c2 = builder.mul_extension(virt_fc, not_virt);
    let not_ctx_seg = builder.sub_extension(not_ctx, seg_fc);
    let ts_fc = builder.sub_extension(not_ctx_seg, virt_fc);
    let not_ts = builder.sub_extension(one, ts_fc);
    let c3 = builder.mul_extension(ts_fc, not_ts);

    // Second set: the columns before the flagged one do not change.
    let l_ctx = local[SORTED_MEMORY_ADDR_CONTEXT];
    let l_seg = local[SORTED_MEMORY_ADDR_SEGMENT];
    let l_virt = local[SORTED_MEMORY_ADDR_VIRTUAL];
    let l_ts = local[SORTED_MEMORY_TIMESTAMP];
    let n_ctx = next[SORTED_MEMORY_ADDR_CONTEXT];
    let n_seg = next[SORTED_MEMORY_ADDR_SEGMENT];
    let n_virt = next[SORTED_MEMORY_ADDR_VIRTUAL];
    let n_ts = next[SORTED_MEMORY_TIMESTAMP];
    let d_ctx = builder.sub_extension(n_ctx, l_ctx);
    let d_seg = builder.sub_extension(n_seg, l_seg);
    let d_virt = builder.sub_extension(n_virt, l_virt);
    let d_ts = builder.sub_extension(n_ts, l_ts);
    let c4 = builder.mul_extension(not_ctx, d_ctx);
    let c5 = builder.mul_extension(not_ctx_seg, d_seg);
    let c6 = builder.mul_extension(ts_fc, d_virt);

    // Third set: the range-checked cell.
    let m_ctx = builder.sub_extension(d_ctx, one);
    let m_seg = builder.sub_extension(d_seg, one);
    let m_virt = builder.sub_extension(d_virt, one);
    let m_ts = builder.sub_extension(d_ts, one);
    let r_ctx = builder.mul_extension(ctx_fc, m_ctx);
    let r_seg = builder.mul_extension(seg_fc, m_seg);
    let r_virt = builder.mul_extension(virt_fc, m_virt);
    let r_ts = builder.mul_extension(ts_fc, m_ts);
    let s1 = builder.add_extension(r_ctx, r_seg);
    let s2 = builder.add_extension(s1, r_virt);
    let s3 = builder.add_extension(s2, r_ts);
    let range_check = local[MEMORY_RANGE_CHECK];
    let c7 = builder.sub_extension(range_check, s3);

    // The factor of the read identities.
    let is_read = next[SORTED_MEMORY_IS_READ];
    let gate = builder.mul_extension(is_read, ts_fc);

    let mut r: Vec<Target> = Vec::new();
    r.push(c0);
    r.push(c1);
    r.push(c2);
    r.push(c3);
    r.push(c4);
    r.push(c5);
    r.push(c6);
    r.push(c7);
    let ghost g1 = builder.gates@;
    proof {
        assert(g1.subrange(0, g0.len() as int) =~= g0);
        assert(g1[one as int] == Gate::Constant(1));
        assert(g1[not_ctx as int] == Gate::Sub(one, ctx_fc));
        assert(g1[not_seg as int] == Gate::Sub(one, seg_fc));
        assert(g1[not_virt as int] == Gate::Sub(one, virt_fc));
        assert(g1[c0 as int] == Gate::Mul(ctx_fc, not_ctx));
        assert(g1[c1 as int] == Gate::Mul(seg_fc, not_seg));
        assert(g1[c2 as int] == Gate::Mul(virt_fc, not_virt));
        assert(g1[not_ctx_seg as int] == Gate::Sub(not_ctx, seg_fc));
        assert(g1[ts_fc as int] == Gate::Sub(not_ctx_seg, virt_fc));
        assert(g1[not_ts as int] == Gate::Sub(one, ts_fc));
        assert(g1[c3 as int] == Gate::Mul(ts_fc, not_ts));
        assert(g1[d_ctx as int] == Gate::Sub(n_ctx, l_ctx));
        assert(g1[d_seg as int] == Gate::Sub(n_seg, l_seg));
        assert(g1[d_virt as int] == Gate::Sub(n_virt, l_virt));
        assert(g1[d_ts as int] == Gate::Sub(n_ts, l_ts));
        assert(g1[c4 as int] == Gate::Mul(not_ctx, d_ctx));
        assert(g1[c5 as int] == Gate::Mul(not_ctx_seg, d_seg));
        assert(g1[c6 as int] == Gate::Mul(ts_fc, d_virt));
        assert(g1[m_ctx as int] == Gate::Sub(d_ctx, one));
        assert(g1[m_seg as int] == Gate::Sub(d_seg, one));
        assert(g1[m_virt as int] == Gate::Sub(d_virt, one));
        assert(g1[m_ts as int] == Gate::Sub(d_ts, one));
        assert(g1[r_ctx as int] == Gate::Mul(ctx_fc, m_ctx));
        assert(g1[r_seg as int] == Gate::Mul(seg_fc, m_seg));
        assert(g1[r_virt as int] == Gate::Mul(virt_fc, m_virt));
        assert(g1[r_ts as int] == Gate::Mul(ts_fc, m_ts));
        assert(g1[s1 as int] == Gate::Add(r_ctx, r_seg));
        assert(g1[s2 as int] == Gate::Add(s1, r_virt));
        assert(g1[s3 as int] == Gate::Add(s2, r_ts));
        assert(g1[c7 as int] == Gate::Sub(range_check, s3));
        assert(g1[gate as int] == Gate::Mul(is_read, ts_fc));
        let t = seq![
            one, not_ctx, not_seg, not_virt, c0, c1, c2, not_ctx_seg, ts_fc, not_ts, c3,
            d_ctx, d_seg, d_virt, d_ts, c4, c5, c6, m_ctx, m_seg, m_virt, m_ts,
            r_ctx, r_seg, r_virt, r_ts, s1, s2, s3, c7, gate,
        ];
        assert(r@ =~= seq![t[4], t[5], t[6], t[10], t[15], t[16], t[17], t[29]]);
        assert forall|inputs: Seq<u64>| #[trigger] emitted_prefix_ok(g1, inputs, local@, next@, r@, gate) by {
            lemma_ordering_wires(g1, inputs, local@, next@, t);
        }
    }
    (r, gate)
}

/// The wires that the ordering part of the memory identities allocates, in order:
/// `t[0]` the constant one, then the flags' complements and booleanity, the
/// timestamp flag, the differences, the range-checked sum, and the read factor.
#[verifier::rlimit(50)]
proof fn lemma_ordering_wires(g: Seq<Gate>, inputs: Seq<u64>, local: Seq<Target>, next: Seq<Target>, t: Seq<Target>)
    requires
        gates_wf(g),
        local.len() == NUM_MEMORY_COLUMNS,
        next.len() == NUM_MEMORY_COLUMNS,
        t.len() == 31,
        forall|c: int| 0 <= c < NUM_MEMORY_COLUMNS ==> #[trigger] local[c] < t[0],
        forall|c: int| 0 <= c < NUM_MEMORY_COLUMNS ==> #[trigger] next[c] < t[0],
        forall|k: int| 0 <= k < 30 ==> #[trigger] t[k] < t[k + 1],
        t[30] < g.len(),
        g[t[0] as int] == Gate::Constant(1),
        g[t[1] as int] == Gate::Sub(t[0], local[MEMORY_CONTEXT_FIRST_CHANGE as int]),
        g[t[2] as int] == Gate::Sub(t[0], local[MEMORY_SEGMENT_FIRST_CHANGE as int]),
        g[t[3] as int] == Gate::Sub(t[0], local[MEMORY_VIRTUAL_FIRST_CHANGE as int]),
        g[t[4] as int] == Gate::Mul(local[MEMORY_CONTEXT_FIRST_CHANGE as int], t[1]),
        g[t[5] as int] == Gate::Mul(local[MEMORY_SEGMENT_FIRST_CHANGE as int], t[2]),
        g[t[6] as int] == Gate::Mul(local[MEMORY_VIRTUAL_FIRST_CHANGE as int], t[3]),
        g[t[7] as int] == Gate::Sub(t[1], local[MEMORY_SEGMENT_FIRST_CHANGE as int]),
        g[t[8] as int] == Gate::Sub(t[7], local[MEMORY_VIRTUAL_FIRST_CHANGE as int]),
        g[t[9] as int] == Gate::Sub(t[0], t[8]),
        g[t[10] as int] == Gate::Mul(t[8], t[9]),
        g[t[11] as int] == Gate::Sub(next[SORTED_MEMORY_ADDR_CONTEXT as int], local[SORTED_MEMORY_ADDR_CONTEXT as int]),
        g[t[12] as int] == Gate::Sub(next[SORTED_MEMORY_ADDR_SEGMENT as int], local[SORTED_MEMORY_ADDR_SEGMENT as int]),
        g[t[13] as int] == Gate::Sub(next[SORTED_MEMORY_ADDR_VIRTUAL as int], local[SORTED_MEMORY_ADDR_VIRTUAL as int]),
        g[t[14] as int] == Gate::Sub(next[SORTED_MEMORY_TIMESTAMP as int], local[SORTED_MEMORY_TIMESTAMP as int]),
        g[t[15] as int] == Gate::Mul(t[1], t[11]),
        g[t[16] as int] == Gate::Mul(t[7], t[12]),
        g[t[17] as int] == Gate::Mul(t[8], t[13]),
        g[t[18] as int] == Gate::Sub(t[11], t[0]),
        g[t[19] as int] == Gate::Sub(t[12], t[0]),
        g[t[20] as int] == Gate::Sub(t[13], t[0]),
        g[t[21] as int] == Gate::Sub(t[14], t[0]),
        g[t[22] as int] == Gate::Mul(local[MEMORY_CONTEXT_FIRST_CHANGE as int], t[18]),
        g[t[23] as int] == Gate::Mul(local[MEMORY_SEGMENT_FIRST_CHANGE as int], t[19]),
        g[t[24] as int] == Gate::Mul(local[MEMORY_VIRTUAL_FIRST_CHANGE as int], t[20]),
        g[t[25] as int] == Gate::Mul(t[8], t[21]),
        g[t[26] as int] == Gate::Add(t[22], t[23]),
        g[t[27] as int] == Gate::Add(t[26], t[24]),
        g[t[28] as int] == Gate::Add(t[27], t[25]),
        g[t[29] as int] == Gate::Sub(local[MEMORY_RANGE_CHECK as int], t[28]),
        g[t[30] as int] == Gate::Mul(next[SORTED_MEMORY_IS_READ as int], t[8]),
    ensures
        emitted_prefix_ok(g, inputs, local, next, seq![t[4], t[5], t[6], t[10], t[15], t[16], t[17], t[29]], t[30]),
{
    assert forall|a: int, b: int| 0 <= a < b < 31 implies #[trigger] t[a] < #[trigger] t[b] by {
        lemma_increasing(t, a, b);
    }
    let lv = row_of(g, inputs, local);
    let nv = row_of(g, inputs, next);
    assert forall|c: int| 0 <= c < NUM_MEMORY_COLUMNS implies #[trigger] cell(lv, c) == wire_value(g, inputs, local[c] as int) by {
        lemma_wire_value_bound(g, inputs, local[c] as int);
    }
    assert forall|c: int| 0 <= c < NUM_MEMORY_COLUMNS implies #[trigger] cell(nv, c) == wire_value(g, inputs, next[c] as int) by {
        lemma_wire_value_bound(g, inputs, next[c] as int);
    }
    let w = |k: int| wire_value(g, inputs, t[k] as int);
    let ctx_fc = cell(lv, MEMORY_CONTEXT_FIRST_CHANGE as int);
    let seg_fc = cell(lv, MEMORY_SEGMENT_FIRST_CHANGE as int);
    let virt_fc = cell(lv, MEMORY_VIRTUAL_FIRST_CHANGE as int);
    assert(w(0) == 1);
    assert(w(1) == fsub(1, ctx_fc));
    assert(w(2) == fsub(1, seg_fc));
    assert(w(3) == fsub(1, virt_fc));
    assert(w(7) == fsub(fsub(1, ctx_fc), seg_fc));
    assert(w(8) == timestamp_first_change(lv));
    assert(w(9) == fsub(1, timestamp_first_change(lv)));
    assert(w(11) == delta(lv, nv, SORTED_MEMORY_ADDR_CONTEXT as int));
    assert(w(12) == delta(lv, nv, SORTED_MEMORY_ADDR_SEGMENT as int));
    assert(w(13) == delta(lv, nv, SORTED_MEMORY_ADDR_VIRTUAL as int));
    assert(w(14) == delta(lv, nv, SORTED_MEMORY_TIMESTAMP as int));
    assert(w(18) == delta_minus_one(lv, nv, SORTED_MEMORY_ADDR_CONTEXT as int));
    assert(w(19) == delta_minus_one(lv, nv, SORTED_MEMORY_ADDR_SEGMENT as int));
    assert(w(20) == delta_minus_one(lv, nv, SORTED_MEMORY_ADDR_VIRTUAL as int));
    assert(w(21) == delta_minus_one(lv, nv, SORTED_MEMORY_TIMESTAMP as int));
    assert(w(22) == fmul(ctx_fc, delta_minus_one(lv, nv, SORTED_MEMORY_ADDR_CONTEXT as int)));
    assert(w(23) == fmul(seg_fc, delta_minus_one(lv, nv, SORTED_MEMORY_ADDR_SEGMENT as int)));
    assert(w(24) == fmul(virt_fc, delta_minus_one(lv, nv, SORTED_MEMORY_ADDR_VIRTUAL as int)));
    assert(w(25) == fmul(timestamp_first_change(lv), delta_minus_one(lv, nv, SORTED_MEMORY_TIMESTAMP as int)));
    assert(w(26) == fadd(w(22), w(23)));
    assert(w(27) == fadd(w(26), w(24)));
    assert(w(28) == range_check_value(lv, nv));
    let v = memory_constraint_values(lv, nv);
    assert(w(4) == v[0]);
    assert(w(5) == v[1]);
    assert(w(6) == v[2]);
    assert(w(10) == v[3]);
    assert(w(15) == v[4]);
    assert(w(16) == v[5]);
    assert(w(17) == v[6]);
    assert(w(29) == v[7]);
    assert(w(30) == fmul(cell(nv, SORTED_MEMORY_IS_READ as int), timestamp_first_change(lv)));
    let r = seq![t[4], t[5], t[6], t[10], t[15], t[16], t[17], t[29]];
    assert(wire_value(g, inputs, r[0] as int) == v[0]);
    assert(wire_value(g, inputs, r[1] as int) == v[1]);
    assert(wire_value(g, inputs, r[2] as int) == v[2]);
    assert(wire_value(g, inputs, r[3] as int) == v[3]);
    assert(wire_value(g, inputs, r[4] as int) == v[4]);
    assert(wire_value(g, inputs, r[5] as int) == v[5]);
    assert(wire_value(g, inputs, r[6] as int) == v[6]);
    assert(wire_value(g, inputs, r[7] as int) == v[7]);
}

proof fn lemma_increasing(t: Seq<Target>, a: int, b: int)
    requires
        forall|k: int| 0 <= k < t.len() - 1 ==> #[trigger] t[k] < t[k + 1],
        0 <= a < b < t.len(),
    ensures
        t[a] < t[b],
    decreases b - a,
{
    if a + 1 < b {
        lemma_increasing(t, a + 1, b);
        assert(t[a] < t[a + 1]);
    }
}

/// Emits the memory identities over the targets of a row and the next; on every
/// witness, emitted wire `k` carries identity `k`'s value.
#[verifier::rlimit(100)]
pub fn eval_memory_recursively(builder: &mut CircuitBuilder, local: &Vec<Target>, next: &Vec<Target>) -> (r: Vec<Target>)
    requires
        gates_wf(old(builder).gates@),
        local@.len() == NUM_MEMORY_COLUMNS,
        next@.len() == NUM_MEMORY_COLUMNS,
        forall|c: int| 0 <= c < NUM_MEMORY_COLUMNS ==> #[trigger] local@[c] < old(builder).gates@.len(),
        forall|c: int| 0 <= c < NUM_MEMORY_COLUMNS ==> #[trigger] next@[c] < old(builder).gates@.len(),
    ensures
        gates_wf(final(builder).gates@),
        final(builder).gates@.subrange(0, old(builder).gates@.len() as int) == old(builder).gates@,
        r@.len() == 16,
        forall|k: int| 0 <= k < 16 ==> #[trigger] r@[k] < final(builder).gates@.len(),
        forall|inputs: Seq<u64>, k: int|
            0 <= k < 16 ==> #[trigger] wire_value(final(builder).gates@, inputs, r@[k] as int)
                == memory_constraint_values(
                row_of(final(builder).gates@, inputs, local@),
                row_of(final(builder).gates@, inputs, next@),
            )[k],
{
    let ghost g0 = builder.gates@;
    let (mut r, gate) = emit_ordering_constraints(builder, local, next);
    let ghost g1 = builder.gates@;
    let ghost first = r@;
    let mut l: usize = 0;
    while l < NUM_VALUE_LIMBS
        invariant
            gates_wf(builder.gates@),
            g1.len() <= builder.gates@.len(),
            builder.gates@.subrange(0, g1.len() as int) == g1,
            g0.len() < g1.len(),
            g1.subrange(0, g0.len() as int) == g0,
            local@.len() == NUM_MEMORY_COLUMNS,
            next@.len() == NUM_MEMORY_COLUMNS,
            forall|c: int| 0 <= c < NUM_MEMORY_COLUMNS ==> #[trigger] local@[c] < g0.len(),
            forall|c: int| 0 <= c < NUM_MEMORY_COLUMNS ==> #[trigger] next@[c] < g0.len(),
            gate < g1.len(),
            first.len() == 8,
            forall|k: int| 0 <= k < 8 ==> #[trigger] first[k] < g1.len(),
            forall|inputs: Seq<u64>| #[trigger] emitted_prefix_ok(g1, inputs, local@, next@, first, gate),
            l <= 8,
            r@.len() == 8 + l,
            r@.subrange(0, 8) == first,
            forall|k: int| 0 <= k < r@.len() ==> #[trigger] r@[k] < builder.gates@.len(),
            forall|inputs: Seq<u64>, k: int| 8 <= k < 8 + l ==> #[trigger] wire_value(builder.gates@, inputs, r@[k] as int)
                == read_value(row_of(builder.gates@, inputs, local@), row_of(builder.gates@, inputs, next@), k - 8),
        decreases NUM_VALUE_LIMBS - l,
    {
        let col = sorted_memory_value_limb(l);
        let ghost before = builder.gates@;
        let ghost r_before = r@;
        let dv = builder.sub_extension(next[col], local[col]);
        let ck = builder.mul_extension(gate, dv);
        r.push(ck);
        proof {
            let after = builder.gates@;
            assert(r@.subrange(0, 8) =~= r_before.subrange(0, 8));
            assert(after.subrange(0, before.len() as int) =~= before);
            assert(after.subrange(0, g1.len() as int) =~= g1);
            lemma_wires_extend(before, after);
            lemma_wires_extend(g1, after);
            assert forall|inputs: Seq<u64>, k: int| 8 <= k < 8 + l + 1 implies #[trigger] wire_value(after, inputs, r@[k] as int)
                == read_value(row_of(after, inputs, local@), row_of(after, inputs, next@), k - 8) by {
                lemma_rows_extend(before, after, inputs, local@);
                lemma_rows_extend(before, after, inputs, next@);
                lemma_rows_extend(g1, after, inputs, local@);
                lemma_rows_extend(g1, after, inputs, next@);
                if k == 8 + l {
                    let lv = row_of(after, inputs, local@);
                    let nv = row_of(after, inputs, next@);
                    assert(emitted_prefix_ok(g1, inputs, local@, next@, first, gate));
                    lemma_wire_value_bound(after, inputs, local@[col as int] as int);
                    lemma_wire_value_bound(after, inputs, next@[col as int] as int);
                    assert(wire_value(after, inputs, dv as int) == delta(lv, nv, SORTED_MEMORY_VALUE_START + l));
                    assert(wire_value(after, inputs, gate as int) == wire_value(g1, inputs, gate as int));
                    assert(wire_value(after, inputs, gate as int) == fmul(cell(nv, SORTED_MEMORY_IS_READ as int), timestamp_first_change(lv)));
                    assert(after[ck as int] == Gate::Mul(gate, dv));
                    assert(r@[k] == ck);
                } else {
                    assert(r@[k] == r_before[k]);
                }
            }
        }
        l = l + 1;
    }
    proof {
        let gf = builder.gates@;
        lemma_wires_extend(g1, gf);
        assert(gf.subrange(0, g0.len() as int) =~= g0);
        assert forall|inputs: Seq<u64>, k: int| 0 <= k < 16 implies #[trigger] wire_value(gf, inputs, r@[k] as int)
            == memory_constraint_values(row_of(gf, inputs, local@), row_of(gf, inputs, next@))[k] by {
            lemma_rows_extend(g1, gf, inputs, local@);
            lemma_rows_extend(g1, gf, inputs, next@);
            assert(emitted_prefix_ok(g1, inputs, local@, next@, first, gate));
            if k < 8 {
                assert(first[k] == r@[k]);
            }
        }
    }
    r
}

} // verus!

//! Column layout of the memory table.
use vstd::prelude::*;

verus! {

/// Number of 32-bit limbs of a memory value.
pub const NUM_VALUE_LIMBS: usize = 8;

pub const MEMORY_ADDR_CONTEXT: usize = 0;

pub const MEMORY_ADDR_SEGMENT: usize = MEMORY_ADDR_CONTEXT + 1;

pub const MEMORY_ADDR_VIRTUAL: usize = MEMORY_ADDR_SEGMENT + 1;

pub const MEMORY_VALUE_START: usize = MEMORY_ADDR_VIRTUAL + 1;

pub const MEMORY_IS_READ: usize = MEMORY_VALUE_START + 8;

pub const MEMORY_TIMESTAMP: usize = MEMORY_IS_READ + 1;

pub const SORTED_MEMORY_ADDR_CONTEXT: usize = MEMORY_TIMESTAMP + 1;

pub const SORTED_MEMORY_ADDR_SEGMENT: usize = SORTED_MEMORY_ADDR_CONTEXT + 1;

pub const SORTED_MEMORY_ADDR_VIRTUAL: usize = SORTED_MEMORY_ADDR_SEGMENT + 1;

pub const SORTED_MEMORY_VALUE_START: usize = SORTED_MEMORY_ADDR_VIRTUAL + 1;

pub const SORTED_MEMORY_IS_READ: usize = SORTED_MEMORY_VALUE_START + 8;

pub const SORTED_MEMORY_TIMESTAMP: usize = SORTED_MEMORY_IS_READ + 1;

/// 1 on a row of the sorted log whose successor has another context.
pub const MEMORY_CONTEXT_FIRST_CHANGE: usize = SORTED_MEMORY_TIMESTAMP + 1;

/// 1 on a row whose successor has the same context and another segment.
pub const MEMORY_SEGMENT_FIRST_CHANGE: usize = MEMORY_CONTEXT_FIRST_CHANGE + 1;

/// 1 on a row whose successor has the same context and segment and another virtual address.
pub const MEMORY_VIRTUAL_FIRST_CHANGE: usize = MEMORY_SEGMENT_FIRST_CHANGE + 1;

/// The difference, less one, of the column that increases to the next row.
pub const MEMORY_RANGE_CHECK: usize = MEMORY_VIRTUAL_FIRST_CHANGE + 1;

/// Width of the memory table.
pub const NUM_MEMORY_COLUMNS: usize = MEMORY_RANGE_CHECK + 1;

/// Column of limb `i` of the value in the log as executed.
pub fn memory_value_limb(i: usize) -> (r: usize)
    requires
        i < NUM_VALUE_LIMBS,
    ensures
        r == MEMORY_VALUE_START + i,
        MEMORY_VALUE_START <= r < MEMORY_IS_READ,
{
    MEMORY_VALUE_START + i
}

/// Column of limb `i` of the value in the sorted log.
pub fn sorted_memory_value_limb(i: usize) -> (r: usize)
    requires
        i < NUM_VALUE_LIMBS,
    ensures
        r == SORTED_MEMORY_VALUE_START + i,
        SORTED_MEMORY_VALUE_START <= r < SORTED_MEMORY_IS_READ,
{
    SORTED_MEMORY_VALUE_START + i
}

} // verus!

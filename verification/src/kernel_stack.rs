//! Placement of the kernel stack that holds the saved trap context: a
//! fixed region just below the end of physical memory, with one guard
//! page above it.

use vstd::prelude::*;
use crate::MEMORY_END;
use crate::addr::PAGE_BYTES;

verus! {

/// Size of the kernel stack in bytes: two pages.
pub const KERNEL_STACK_SIZE: u64 = 0x2000;

/// The bottom and top addresses of the kernel stack: the stack sits one
/// guard page and one stack size below the end of memory.
pub fn kernel_stack_position() -> (r: (u64, u64))
    ensures
        r.1 == MEMORY_END - KERNEL_STACK_SIZE - PAGE_BYTES,
        r.0 == r.1 - KERNEL_STACK_SIZE,
        r.0 < r.1,
{
    let top = MEMORY_END - (KERNEL_STACK_SIZE + PAGE_BYTES);
    let bottom = top - KERNEL_STACK_SIZE;
    (bottom, top)
}

} // verus!

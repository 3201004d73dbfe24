//! A model of a small RISC-V kernel's virtual-memory subsystem and
//! trap/syscall pipeline: sv39 page tables, a physical-frame allocator,
//! segments and address spaces, ELF loading, trap dispatch and syscalls.
//!
//! Hardware access (CSR writes, the trap trampoline, console firmware calls)
//! lives outside this crate; everything here works on plain values, so each
//! operation carries a contract that is checked by Verus.

use vstd::prelude::*;

pub mod addr;
pub mod frame;
pub mod page_table;
pub mod addr_space;
pub mod console;
pub mod disasm;
pub mod elf;
pub mod kernel_stack;
pub mod syscall;
pub mod trap;

verus! {

/// Size of one page in bytes.
pub const PAGE_SIZE: usize = 0x1000;

/// Number of bits of the in-page offset.
pub const PAGE_SIZE_BITS: usize = 12;

/// First byte address beyond the managed physical memory (platform constant).
pub const MEMORY_END: u64 = 0x8800_0000;

} // verus!

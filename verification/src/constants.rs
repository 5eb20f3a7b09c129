//! Fixed parameters of the kernel: page geometry, page-table entry
//! flag bits, process-table capacity, and the register-block sizes
//! used by the context-switch primitive and the trap trampoline.

use vstd::prelude::*;

verus! {

/// Size of one physical page in bytes.
pub const PAGE_SIZE: u32 = 4096;

/// Number of 32-bit words in one page.
pub const PAGE_WORDS: u32 = 1024;

/// Number of entries in one level of the two-level page table.
pub const NUM_PTE: u32 = 1024;

/// Capacity of the process table.
pub const PROCS_MAX: usize = 8;

/// Process state: the slot is free.
pub const PROC_UNUSED: i64 = 0;

/// Process state: the process is eligible for scheduling.
pub const PROC_READY: i64 = 1;

/// Mode bit of the address-translation register: paging enabled, Sv32.
pub const SATP_SV32: u32 = 0x8000_0000;

/// Page-table entry flag: entry is valid.
pub const PAGE_V: u32 = 1;

/// Page-table entry flag: readable.
pub const PAGE_R: u32 = 2;

/// Page-table entry flag: writable.
pub const PAGE_W: u32 = 4;

/// Page-table entry flag: executable.
pub const PAGE_X: u32 = 8;

/// Page-table entry flag: user-accessible.
pub const PAGE_S: u32 = 16;

/// Number of 32-bit words in one process stack (8 KiB).
pub const STACK_WORDS: usize = 2048;

/// Number of callee-saved registers transferred by the context-switch
/// primitive: the return address and the twelve saved registers.
pub const CTX_WORDS: usize = 13;

/// Number of registers spilled by the trap trampoline: the full
/// general-purpose file except the zero register, including the stack
/// pointer of the interrupted context.
pub const TRAP_WORDS: usize = 31;

} // verus!

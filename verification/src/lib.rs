//! A model of a minimal single-core cooperative kernel for a 32-bit
//! RISC-V machine: a bump allocator over a fixed free-memory region, a
//! two-level (Sv32-style) page-table manager, a fixed-capacity process
//! table with round-robin voluntary scheduling, and the register-block
//! layouts used by the context-switch primitive and the trap trampoline.
//!
//! The hardware-facing pieces (inline assembly, control registers, raw
//! physical memory) are modelled as explicitly owned, bounded data
//! structures: physical memory is a word arena indexed by physical
//! address, each process stack is a word arena with a cursor, and the
//! translation and trap-scratch control registers are fields of the
//! kernel object.  Every algorithm of the kernel proper runs on these
//! models and is verified against the contracts below.

pub mod constants;
pub mod error;
pub mod kernel;
pub mod paging;
pub mod process;
pub mod util;

//! The kernel's error taxonomy.  Every error is unrecoverable by
//! design: the caller that receives one halts the machine.  The
//! variants carry the diagnostic values that the fatal report shows.

use vstd::prelude::*;

verus! {

/// A fatal kernel condition.  No error in this kernel is recoverable:
/// there is no per-process isolation, so the only safe response to any
/// of these is to halt the whole machine.
#[derive(Clone, Copy, Debug, PartialEq, Eq, Structural)]
pub enum KernelError {
    /// The bump allocator's cursor would pass the end of the
    /// free-memory region.
    OutOfPhysicalMemory,
    /// A virtual or physical address handed to the page-table manager
    /// was not page-aligned.  Carries the offending address.
    MisalignedAddress { addr: u32 },
    /// Process creation found no slot in state `PROC_UNUSED`.
    NoFreeProcessSlot,
    /// A trap was taken; every trap is fatal in this design.  Carries
    /// the cause, faulting value and faulting program counter read
    /// from the fault registers.
    UnhandledTrap { scause: u32, stval: u32, sepc: u32 },
}

} // verus!

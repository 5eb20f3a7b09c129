//! The trap entry/exit trampoline model and the kernel bootstrap
//! sequence.
//!
//! On hardware the trampoline is the fixed-alignment routine the
//! processor vectors to: it spills the full register file to the
//! interrupted context's stack, calls the handler with a pointer to
//! the spilled frame, and (were the handler to return) reloads every
//! register and resumes.  Here the spill and reload are functions over
//! a stack arena with exact layout contracts, and the handler is the
//! decision it embodies: every trap is fatal in this design.

use vstd::prelude::*;

use crate::constants::{CTX_WORDS, PAGE_SIZE, PROCS_MAX, PROC_READY, PROC_UNUSED, SATP_SV32, STACK_WORDS, TRAP_WORDS};
use crate::error::KernelError;
use crate::paging::{ident_pages_needed, lemma_vpn1_monotone};
use crate::process::{first_unused, first_unused_from, lemma_scan_skip, ready_worker, scan_from, scan_slot, select_next, CalleeRegs, Kernel};
use crate::util::TrapFrame;

verus! {

/// The frame read from stack words `[base, base + TRAP_WORDS)`, in
/// the trampoline's spill order: return address, global and thread
/// pointers, the temporaries, the argument registers, the saved
/// registers, and last the interrupted stack pointer.
pub open spec fn frame_of(s: Seq<u32>, base: int) -> TrapFrame {
    TrapFrame {
        ra: s[base],
        gp: s[base + 1],
        tp: s[base + 2],
        t0: s[base + 3],
        t1: s[base + 4],
        t2: s[base + 5],
        t3: s[base + 6],
        t4: s[base + 7],
        t5: s[base + 8],
        t6: s[base + 9],
        a0: s[base + 10],
        a1: s[base + 11],
        a2: s[base + 12],
        a3: s[base + 13],
        a4: s[base + 14],
        a5: s[base + 15],
        a6: s[base + 16],
        a7: s[base + 17],
        s0: s[base + 18],
        s1: s[base + 19],
        s2: s[base + 20],
        s3: s[base + 21],
        s4: s[base + 22],
        s5: s[base + 23],
        s6: s[base + 24],
        s7: s[base + 25],
        s8: s[base + 26],
        s9: s[base + 27],
        s10: s[base + 28],
        s11: s[base + 29],
        sp: s[base + 30],
    }
}

/// Spill the interrupted context's register file onto its stack:
/// reserve `TRAP_WORDS` words below the cursor and store every
/// register in the trampoline's order.  Returns the new cursor, which
/// is also the base of the spilled frame.
pub fn trap_save(stack: &mut Vec<u32>, sp: usize, regs: &TrapFrame) -> (new_sp: usize)
    requires
        TRAP_WORDS <= sp <= old(stack).len(),
    ensures
        new_sp == sp - TRAP_WORDS,
        final(stack).len() == old(stack).len(),
        frame_of(final(stack)@, new_sp as int) == *regs,
        forall|j: int|
            0 <= j < old(stack).len() && !(new_sp <= j < sp) ==> final(stack)[j] == old(stack)[j],
{
    let base: usize = sp - TRAP_WORDS;
    stack[base] = regs.ra;
    stack[base + 1] = regs.gp;
    stack[base + 2] = regs.tp;
    stack[base + 3] = regs.t0;
    stack[base + 4] = regs.t1;
    stack[base + 5] = regs.t2;
    stack[base + 6] = regs.t3;
    stack[base + 7] = regs.t4;
    stack[base + 8] = regs.t5;
    stack[base + 9] = regs.t6;
    stack[base + 10] = regs.a0;
    stack[base + 11] = regs.a1;
    stack[base + 12] = regs.a2;
    stack[base + 13] = regs.a3;
    stack[base + 14] = regs.a4;
    stack[base + 15] = regs.a5;
    stack[base + 16] = regs.a6;
    stack[base + 17] = regs.a7;
    stack[base + 18] = regs.s0;
    stack[base + 19] = regs.s1;
    stack[base + 20] = regs.s2;
    stack[base + 21] = regs.s3;
    stack[base + 22] = regs.s4;
    stack[base + 23] = regs.s5;
    stack[base + 24] = regs.s6;
    stack[base + 25] = regs.s7;
    stack[base + 26] = regs.s8;
    stack[base + 27] = regs.s9;
    stack[base + 28] = regs.s10;
    stack[base + 29] = regs.s11;
    stack[base + 30] = regs.sp;
    base
}

/// Reload a register file from the frame spilled at `sp`: the exact
/// inverse of `trap_save`, slot for slot, so a resumed context sees
/// precisely the registers it was interrupted with.
pub fn trap_restore(stack: &Vec<u32>, sp: usize) -> (regs: TrapFrame)
    requires
        sp + TRAP_WORDS <= stack.len(),
    ensures
        regs == frame_of(stack@, sp as int),
{
    TrapFrame {
        ra: stack[sp],
        gp: stack[sp + 1],
        tp: stack[sp + 2],
        t0: stack[sp + 3],
        t1: stack[sp + 4],
        t2: stack[sp + 5],
        t3: stack[sp + 6],
        t4: stack[sp + 7],
        t5: stack[sp + 8],
        t6: stack[sp + 9],
        a0: stack[sp + 10],
        a1: stack[sp + 11],
        a2: stack[sp + 12],
        a3: stack[sp + 13],
        a4: stack[sp + 14],
        a5: stack[sp + 15],
        a6: stack[sp + 16],
        a7: stack[sp + 17],
        s0: stack[sp + 18],
        s1: stack[sp + 19],
        s2: stack[sp + 20],
        s3: stack[sp + 21],
        s4: stack[sp + 22],
        s5: stack[sp + 23],
        s6: stack[sp + 24],
        s7: stack[sp + 25],
        s8: stack[sp + 26],
        s9: stack[sp + 27],
        s10: stack[sp + 28],
        s11: stack[sp + 29],
        sp: stack[sp + 30],
    }
}

/// The trap handler's decision: read the cause, faulting value and
/// faulting program counter, and halt.  Every trap is fatal in this
/// design; the handler never resumes the faulting process.
pub fn handle_trap(frame: &TrapFrame, scause: u32, stval: u32, sepc: u32) -> (e: KernelError)
    ensures
        e == (KernelError::UnhandledTrap { scause, stval, sepc }),
{
    KernelError::UnhandledTrap { scause, stval, sepc }
}

/// The trap entry path: spill the interrupted register file onto the
/// stack, hand the spilled frame to the handler, and report its fatal
/// verdict.  Returns the frame base and the error; since every trap
/// is fatal, the reload half of the trampoline never runs.
pub fn kernel_entry(stack: &mut Vec<u32>, sp: usize, regs: &TrapFrame, scause: u32, stval: u32, sepc: u32) -> (r: (usize, KernelError))
    requires
        TRAP_WORDS <= sp <= old(stack).len(),
    ensures
        r.0 == sp - TRAP_WORDS,
        final(stack).len() == old(stack).len(),
        // The frame handed to the handler is exactly the interrupted
        // register file.
        frame_of(final(stack)@, r.0 as int) == *regs,
        forall|j: int|
            0 <= j < old(stack).len() && !(r.0 <= j < sp) ==> final(stack)[j] == old(stack)[j],
        r.1 == (KernelError::UnhandledTrap { scause, stval, sepc }),
{
    let base: usize = trap_save(stack, sp, regs);
    let frame: TrapFrame = trap_restore(stack, base);
    let e: KernelError = handle_trap(&frame, scause, stval, sepc);
    (base, e)
}

/// The kernel bootstrap: create the idle process with entry point 0
/// and force its pid to -1, make it current, create the two workers,
/// and yield.  The yield leaves the first worker current, its
/// page-table root in the translation register and its stack top in
/// the trap-scratch register, with its entry point in the live return
/// address.
pub fn kernel_main(k: &mut Kernel, regs: &mut CalleeRegs, sp: &mut usize, entry_a: u32, entry_b: u32) -> (r: Result<(), KernelError>)
    requires
        old(k).wf(),
        old(k).current is None,
        old(k).idle is None,
        forall|i: int| 0 <= i < PROCS_MAX ==> (#[trigger] old(k).procs[i]).state == PROC_UNUSED,
        CTX_WORDS <= *old(sp) <= STACK_WORDS,
    ensures
        final(k).wf(),
        // Bootstrap succeeds exactly when the allocator can build the
        // three page tables.
        r is Ok <==> old(k).mem.next + 3 * ident_pages_needed(old(k).kernel_base, old(k).mem.end)
            * PAGE_SIZE <= old(k).mem.end,
        r is Err ==> r == Result::<(), KernelError>::Err(KernelError::OutOfPhysicalMemory),
        r is Ok ==> {
            &&& final(k).idle == Some(0usize)
            &&& final(k).current == Some(1usize)
            &&& final(k).procs[0].pid == -1
            &&& final(k).procs[1].pid == 2
            &&& final(k).procs[2].pid == 3
            &&& final(k).procs[1].state == PROC_READY
            &&& final(k).procs[2].state == PROC_READY
            // The first worker's address space is active ...
            &&& final(k).satp == (final(k).procs[1].page_table / PAGE_SIZE) | SATP_SV32
            // ... its stack top is in the trap-scratch register ...
            &&& final(k).sscratch == Some(1usize)
            // ... and execution resumes at its entry point.
            &&& final(regs).ra == entry_a
        },
{
    let ghost kb = k.kernel_base;
    let ghost end0 = k.mem.end;
    let ghost n_pages = ident_pages_needed(kb, end0);
    proof {
        if kb < end0 {
            lemma_vpn1_monotone(kb, (end0 - PAGE_SIZE) as u32);
        }
        assert(n_pages >= 1);
        assert(old(k).procs@[0].state == PROC_UNUSED);
        assert(first_unused(old(k).procs@) == 0);
    }
    let ghost next0 = k.mem.next;
    let idle_slot: usize = match k.create_process(0) {
        Ok(i) => i,
        Err(_) => {
            proof {
                assert(next0 + n_pages * PAGE_SIZE > end0);
            }
            return Err(KernelError::OutOfPhysicalMemory);
        },
    };
    proof {
        assert(idle_slot == 0);
    }
    k.install_idle(idle_slot);
    proof {
        assert(k.procs@[0].state == PROC_READY);
        assert(k.procs@[1].state == PROC_UNUSED);
        assert(first_unused_from(k.procs@, 1) == 1);
        assert(first_unused(k.procs@) == 1);
        assert(k.mem.next == next0 + n_pages * PAGE_SIZE);
    }
    let ghost k1 = *k;
    let wa: usize = match k.create_process(entry_a) {
        Ok(i) => i,
        Err(_) => {
            proof {
                assert(k1.mem.next + n_pages * PAGE_SIZE > end0);
            }
            return Err(KernelError::OutOfPhysicalMemory);
        },
    };
    proof {
        assert(wa == 1);
        assert(k.procs@[1].state == PROC_READY);
        assert(k.procs@[2].state == PROC_UNUSED);
        assert(first_unused_from(k.procs@, 2) == 2);
        assert(first_unused_from(k.procs@, 1) == 2);
        assert(first_unused(k.procs@) == 2);
        assert(k.mem.next == next0 + 2 * (n_pages * PAGE_SIZE));
    }
    let ghost k2 = *k;
    let wb: usize = match k.create_process(entry_b) {
        Ok(i) => i,
        Err(_) => {
            proof {
                assert(k2.mem.next + n_pages * PAGE_SIZE > end0);
            }
            return Err(KernelError::OutOfPhysicalMemory);
        },
    };
    proof {
        assert(wb == 2);
        assert(k.mem.next == next0 + 3 * (n_pages * PAGE_SIZE));
        assert(k.mem.next <= end0);
    }
    let ghost k3 = *k;
    proof {
        // From the idle process, the scan passes the unused tail of
        // the table and the idle slot itself, then settles on the
        // first worker.
        let procs = k3.procs@;
        assert(k3.procs[0].pid == -1);
        assert((-1int) % (PROCS_MAX as int) == 7);
        assert forall|t: int| 0 <= t < 2 implies !ready_worker(
            procs[#[trigger] scan_slot(-1i64, t)],
        ) by {
            if t == 0 {
                assert(scan_slot(-1i64, 0) == 7);
                assert(procs[7].state == PROC_UNUSED);
            } else {
                assert(scan_slot(-1i64, 1) == 0);
                assert(procs[0].pid == -1);
            }
        }
        lemma_scan_skip(procs, -1i64, 2, 0);
        assert(scan_slot(-1i64, 2) == 1);
        assert(ready_worker(procs[1]));
        assert(scan_from(procs, -1i64, 2, 0) == 1);
        assert(select_next(procs, -1i64, 0) == 1);
    }
    k.yield_proc(regs, sp);
    proof {
        assert(k.current == Some(1usize));
        // The worker's initial saved block restores with its entry
        // point in the return address.
        assert(regs.ra == entry_a);
    }
    Ok(())
}

} // verus!

//! The process table, the context-switch primitive and the scheduler.
//!
//! A process's private 8 KiB stack is modelled as an explicitly
//! bounded word arena with a cursor: `stack` holds `STACK_WORDS`
//! 32-bit words and `sp` is a word index into it.  The context-switch
//! primitive transfers the callee-saved register set between two such
//! arenas, exactly as the hardware routine pushes and pops it; the
//! live register set of the running context travels alongside as an
//! explicit [`CalleeRegs`] value, and the live stack cursor as a plain
//! index.

use vstd::prelude::*;

use crate::constants::{CTX_WORDS, PAGE_SIZE, PROCS_MAX, PROC_READY, PROC_UNUSED, SATP_SV32, STACK_WORDS};
use crate::constants::{PAGE_R, PAGE_V, PAGE_W, PAGE_X};
use crate::error::KernelError;
use crate::paging::{ident_build_inv, ident_pages_needed, lemma_ident_oom, lemma_ident_step, lemma_pt_owns_below_next, lemma_pt_preserved, lemma_pt_wf_fresh, lemma_vpn1_monotone, map_page, page_aligned, pt_ident, pt_wf, PhysMem};

verus! {

/// A process control block.  `pid` 0 marks an unused slot, -1 the
/// reserved idle process, positive values real workers.  `sp` is the
/// saved stack cursor: while the process is not running it designates
/// the base of the callee-saved register block that the context
/// switch pushed onto `stack`.
pub struct Process {
    /// Process identity; never reused while the kernel runs.
    pub pid: i64,
    /// `PROC_UNUSED` or `PROC_READY`; running is implicit in the
    /// kernel's current-process reference.
    pub state: i64,
    /// Saved stack cursor, in words from the bottom of `stack`.
    pub sp: usize,
    /// Physical address of the process's top-level page table.
    pub page_table: u32,
    /// The process's private stack: `STACK_WORDS` 32-bit words.
    pub stack: Vec<u32>,
}

impl Process {
    /// A fresh, unused process slot with a zeroed stack.
    pub fn new() -> (p: Process)
        ensures
            p.pid == 0,
            p.state == PROC_UNUSED,
            p.sp == 0,
            p.page_table == 0,
            p.stack.len() == STACK_WORDS,
            forall|j: int| 0 <= j < STACK_WORDS ==> p.stack[j] == 0,
    {
        let mut stack: Vec<u32> = Vec::new();
        let mut j: usize = 0;
        while j < STACK_WORDS
            invariant
                j <= STACK_WORDS,
                stack.len() == j,
                forall|t: int| 0 <= t < j ==> stack[t] == 0,
            decreases STACK_WORDS - j,
        {
            stack.push(0);
            j = j + 1;
        }
        Process { pid: 0, state: PROC_UNUSED, sp: 0, page_table: 0, stack }
    }
}

/// The callee-saved register set the context-switch primitive
/// transfers: the return address and the twelve saved registers.
pub struct CalleeRegs {
    pub ra: u32,
    pub s0: u32,
    pub s1: u32,
    pub s2: u32,
    pub s3: u32,
    pub s4: u32,
    pub s5: u32,
    pub s6: u32,
    pub s7: u32,
    pub s8: u32,
    pub s9: u32,
    pub s10: u32,
    pub s11: u32,
}

/// The register block read from stack words `[sp, sp + CTX_WORDS)`:
/// the return address at the lowest address, then `s0` through `s11`,
/// the layout the context-switch primitive pushes and pops.
pub open spec fn regs_of(s: Seq<u32>, sp: int) -> CalleeRegs {
    CalleeRegs {
        ra: s[sp],
        s0: s[sp + 1],
        s1: s[sp + 2],
        s2: s[sp + 3],
        s3: s[sp + 4],
        s4: s[sp + 5],
        s5: s[sp + 6],
        s6: s[sp + 7],
        s7: s[sp + 8],
        s8: s[sp + 9],
        s9: s[sp + 10],
        s10: s[sp + 11],
        s11: s[sp + 12],
    }
}

/// The context-switch primitive: push the live callee-saved register
/// set onto the outgoing context's stack, record the resulting cursor
/// in its stack-pointer cell, then load the incoming context's cursor
/// and pop its register block.  It performs no scheduling decision and
/// touches no other kernel state; the caller guarantees the two
/// contexts are distinct.
///
/// `regs` and `sp` are the live register set and stack cursor of the
/// running context, `prev` the outgoing process (its stack receives
/// the block, its `sp` field is the outgoing stack-pointer cell), and
/// `next_stack`/`next_sp` the incoming context's stack and saved
/// cursor.  The incoming process's own `sp` cell is not written; it
/// goes stale until that context is switched away from again.
pub fn switch_context(
    regs: &mut CalleeRegs,
    sp: &mut usize,
    prev: &mut Process,
    next_stack: &Vec<u32>,
    next_sp: usize,
)
    requires
        old(prev).stack.len() == STACK_WORDS,
        CTX_WORDS <= *old(sp) <= STACK_WORDS,
        next_stack.len() == STACK_WORDS,
        next_sp + CTX_WORDS <= STACK_WORDS,
    ensures
        final(prev).pid == old(prev).pid,
        final(prev).state == old(prev).state,
        final(prev).page_table == old(prev).page_table,
        final(prev).stack.len() == STACK_WORDS,
        final(prev).sp == *old(sp) - CTX_WORDS,
        // The outgoing register set sits at the new cursor.
        regs_of(final(prev).stack@, final(prev).sp as int) == *old(regs),
        // The rest of the outgoing stack is untouched.
        forall|j: int|
            0 <= j < STACK_WORDS && !(*old(sp) - CTX_WORDS <= j < *old(sp))
                ==> final(prev).stack[j] == old(prev).stack[j],
        // The incoming context's block becomes the live register set,
        // and the live cursor sits just above it.
        *final(regs) == regs_of(next_stack@, next_sp as int),
        *final(sp) == next_sp + CTX_WORDS,
{
    let base: usize = *sp - CTX_WORDS;
    prev.stack[base] = regs.ra;
    prev.stack[base + 1] = regs.s0;
    prev.stack[base + 2] = regs.s1;
    prev.stack[base + 3] = regs.s2;
    prev.stack[base + 4] = regs.s3;
    prev.stack[base + 5] = regs.s4;
    prev.stack[base + 6] = regs.s5;
    prev.stack[base + 7] = regs.s6;
    prev.stack[base + 8] = regs.s7;
    prev.stack[base + 9] = regs.s8;
    prev.stack[base + 10] = regs.s9;
    prev.stack[base + 11] = regs.s10;
    prev.stack[base + 12] = regs.s11;
    prev.sp = base;
    *regs = CalleeRegs {
        ra: next_stack[next_sp],
        s0: next_stack[next_sp + 1],
        s1: next_stack[next_sp + 2],
        s2: next_stack[next_sp + 3],
        s3: next_stack[next_sp + 4],
        s4: next_stack[next_sp + 5],
        s5: next_stack[next_sp + 6],
        s6: next_stack[next_sp + 7],
        s7: next_stack[next_sp + 8],
        s8: next_stack[next_sp + 9],
        s9: next_stack[next_sp + 10],
        s10: next_stack[next_sp + 11],
        s11: next_stack[next_sp + 12],
    };
    *sp = next_sp + CTX_WORDS;
}


/// A process eligible for selection by the round-robin scan: READY
/// and a real worker (positive pid).  The idle process (pid -1) is
/// never picked by the scan, only as the fallback.
pub open spec fn ready_worker(p: Process) -> bool {
    p.state == PROC_READY && p.pid > 0
}

/// The slot the scheduler's scan visits at offset `k`, starting just
/// after the current process's pid (reduced modulo the table
/// capacity; the idle pid -1 reduces to the last slot, so its scan
/// begins at the table's end and wraps).
pub open spec fn scan_slot(cur_pid: i64, k: int) -> int {
    ((cur_pid as int) % (PROCS_MAX as int) + k) % (PROCS_MAX as int)
}

/// The slot the scan settles on when started at offset `k`: the first
/// ready worker from there on, or the idle slot when the remaining
/// scan finds none.
pub open spec fn scan_from(procs: Seq<Process>, cur_pid: i64, k: int, idle: int) -> int
    decreases PROCS_MAX - k,
{
    if k >= PROCS_MAX {
        idle
    } else if ready_worker(procs[scan_slot(cur_pid, k)]) {
        scan_slot(cur_pid, k)
    } else {
        scan_from(procs, cur_pid, k + 1, idle)
    }
}

/// The slot `yield` selects: the first ready worker in cyclic slot
/// order starting just after the current pid, the idle slot if there
/// is none.
pub open spec fn select_next(procs: Seq<Process>, cur_pid: i64, idle: int) -> int {
    scan_from(procs, cur_pid, 0, idle)
}

/// The first slot in state `PROC_UNUSED` at or after `k`, or the
/// table capacity when every slot from `k` on is taken.
pub open spec fn first_unused_from(procs: Seq<Process>, k: int) -> int
    decreases PROCS_MAX - k,
{
    if k >= PROCS_MAX {
        PROCS_MAX as int
    } else if procs[k].state == PROC_UNUSED {
        k
    } else {
        first_unused_from(procs, k + 1)
    }
}

/// The slot process creation claims: the first unused one.
pub open spec fn first_unused(procs: Seq<Process>) -> int {
    first_unused_from(procs, 0)
}

/// The kernel: the owned process table, physical memory with the
/// page tables inside it, the current-process reference, and the two
/// modelled control registers.  The address-translation register
/// `satp` holds a page-frame number plus the Sv32 mode bit, exactly
/// as written to hardware; the trap-scratch register is modelled as
/// the slot whose stack top it designates.
pub struct Kernel {
    /// The free physical-memory region and everything allocated in it.
    pub mem: PhysMem,
    /// Base of the kernel image: the identity map starts here.
    pub kernel_base: u32,
    /// The fixed-capacity process table.
    pub procs: Vec<Process>,
    /// Slot of the running process, if the bootstrap installed one.
    pub current: Option<usize>,
    /// Slot of the reserved idle process, once created.
    pub idle: Option<usize>,
    /// Modelled address-translation control register.
    pub satp: u32,
    /// Modelled trap-scratch register: the slot whose stack top the
    /// next trap will save into.
    pub sscratch: Option<usize>,
}

impl Kernel {
    /// Per-slot invariant: a used slot is READY with a valid saved
    /// cursor, carries the pid its slot dictates (or -1 for the one
    /// idle slot), and owns a well-formed page table that identity
    /// maps the kernel image through the end of free memory.
    pub open spec fn proc_ok(self, i: int) -> bool {
        let p = self.procs[i];
        &&& p.stack.len() == STACK_WORDS
        &&& (p.state == PROC_UNUSED || p.state == PROC_READY)
        &&& (p.state == PROC_UNUSED ==> p.pid == 0)
        &&& (p.state == PROC_READY ==> {
            &&& p.sp + CTX_WORDS <= STACK_WORDS
            &&& (p.pid == i + 1 || (self.idle == Some(i as usize) && p.pid == -1))
            &&& pt_wf(self.mem, p.page_table)
            &&& pt_ident(self.mem, p.page_table, self.kernel_base, self.mem.end)
        })
    }

    /// Structural invariant of the whole kernel.
    pub open spec fn wf(self) -> bool {
        &&& self.mem.wf()
        &&& page_aligned(self.kernel_base)
        &&& self.kernel_base <= self.mem.end
        &&& self.procs.len() == PROCS_MAX
        &&& forall|i: int| 0 <= i < PROCS_MAX ==> self.proc_ok(i)
        &&& (self.idle matches Some(k) ==> k < PROCS_MAX && self.procs[k as int].state
            == PROC_READY && self.procs[k as int].pid == -1)
        &&& (self.current matches Some(c) ==> c < PROCS_MAX && self.procs[c as int].state
            == PROC_READY && self.idle is Some)
    }

    /// A kernel over the free region `[ram_base, ram_end)`, with the
    /// identity-map range starting at `kernel_base`: empty process
    /// table, no current process, control registers cleared.
    pub fn new(kernel_base: u32, ram_base: u32, ram_end: u32) -> (k: Kernel)
        requires
            page_aligned(kernel_base),
            page_aligned(ram_base),
            page_aligned(ram_end),
            ram_base <= ram_end,
            kernel_base <= ram_end,
        ensures
            k.wf(),
            k.kernel_base == kernel_base,
            k.mem.base == ram_base,
            k.mem.next == ram_base,
            k.mem.end == ram_end,
            k.current is None,
            k.idle is None,
            k.sscratch is None,
            k.satp == 0,
            forall|i: int| 0 <= i < PROCS_MAX ==> (#[trigger] k.procs[i]).state == PROC_UNUSED,
    {
        let mem = PhysMem::new(ram_base, ram_end);
        let mut procs: Vec<Process> = Vec::new();
        let mut i: usize = 0;
        while i < PROCS_MAX
            invariant
                i <= PROCS_MAX,
                procs.len() == i,
                forall|t: int|
                    0 <= t < i ==> (#[trigger] procs[t]).state == PROC_UNUSED && procs[t].pid == 0
                        && procs[t].stack.len() == STACK_WORDS,
            decreases PROCS_MAX - i,
        {
            procs.push(Process::new());
            i = i + 1;
        }
        Kernel {
            mem,
            kernel_base,
            procs,
            current: None,
            idle: None,
            satp: 0,
            sscratch: None,
        }
    }

    /// Bootstrap special case: turn the process in `slot` (created the
    /// ordinary way) into the reserved idle process by forcing its pid
    /// to -1, and make it the current process.
    pub fn install_idle(&mut self, slot: usize)
        requires
            old(self).wf(),
            old(self).idle is None,
            old(self).current is None,
            slot < PROCS_MAX,
            old(self).procs[slot as int].state == PROC_READY,
        ensures
            final(self).wf(),
            final(self).idle == Some(slot),
            final(self).current == Some(slot),
            final(self).procs[slot as int].pid == -1,
            final(self).procs[slot as int].state == PROC_READY,
            final(self).procs[slot as int].sp == old(self).procs[slot as int].sp,
            final(self).procs[slot as int].stack == old(self).procs[slot as int].stack,
            final(self).procs[slot as int].page_table == old(self).procs[slot as int].page_table,
            forall|i: int| 0 <= i < PROCS_MAX && i != slot ==> final(self).procs[i] == old(self).procs[i],
            final(self).mem == old(self).mem,
            final(self).kernel_base == old(self).kernel_base,
            final(self).satp == old(self).satp,
            final(self).sscratch == old(self).sscratch,
    {
        let p = &mut self.procs[slot];
        p.pid = -1;
        self.idle = Some(slot);
        self.current = Some(slot);
        proof {
            assert forall|i: int| 0 <= i < PROCS_MAX implies self.proc_ok(i) by {
                assert(old(self).proc_ok(i));
            }
        }
    }
}

/// No two used slots carry the same pid: a worker's pid is its slot
/// index plus one, and the single idle slot carries -1.
pub proof fn lemma_pids_unique(k: Kernel)
    requires
        k.wf(),
    ensures
        forall|i: int, j: int|
            0 <= i < PROCS_MAX && 0 <= j < PROCS_MAX && i != j && (#[trigger] k.procs[i]).state
                == PROC_READY && (#[trigger] k.procs[j]).state == PROC_READY ==> k.procs[i].pid
                != k.procs[j].pid,
{
    assert forall|i: int, j: int|
        0 <= i < PROCS_MAX && 0 <= j < PROCS_MAX && i != j && (#[trigger] k.procs[i]).state
            == PROC_READY && (#[trigger] k.procs[j]).state == PROC_READY implies k.procs[i].pid
        != k.procs[j].pid by {
        assert(k.proc_ok(i));
        assert(k.proc_ok(j));
    }
}


/// The scan always settles on a slot of the table, and on a ready
/// worker unless it falls back to the idle slot.
pub proof fn lemma_scan_props(procs: Seq<Process>, cur_pid: i64, k: int, idle: int)
    requires
        procs.len() == PROCS_MAX,
        0 <= idle < PROCS_MAX,
        0 <= k,
    ensures
        0 <= scan_from(procs, cur_pid, k, idle) < PROCS_MAX,
        scan_from(procs, cur_pid, k, idle) == idle || ready_worker(
            procs[scan_from(procs, cur_pid, k, idle)],
        ),
    decreases PROCS_MAX - k,
{
    if k < PROCS_MAX && !ready_worker(procs[scan_slot(cur_pid, k)]) {
        lemma_scan_props(procs, cur_pid, k + 1, idle);
    }
}

/// Copy a stack arena word for word.  The scheduler reads the
/// incoming context's stack through this copy while it mutates the
/// outgoing process.
fn copy_stack(src: &Vec<u32>) -> (out: Vec<u32>)
    ensures
        out@ == src@,
{
    let mut out: Vec<u32> = Vec::new();
    let mut i: usize = 0;
    while i < src.len()
        invariant
            i <= src.len(),
            out.len() == i,
            forall|j: int| 0 <= j < i ==> out[j] == src[j],
        decreases src.len() - i,
    {
        out.push(src[i]);
        i = i + 1;
    }
    proof {
        assert(out@ =~= src@);
    }
    out
}

impl Kernel {
    /// Voluntarily relinquish the processor.  Scans the table once,
    /// starting just after the current pid, for the first READY
    /// worker; falls back to the idle process when there is none.  If
    /// the selection is the current process itself, this is a no-op:
    /// no register is rewritten and no context switch happens.
    /// Otherwise the selection becomes current, its page-table root
    /// (scaled to a page-frame number, combined with the Sv32 mode
    /// bit) is written to the address-translation register, its stack
    /// top to the trap-scratch register, and the context-switch
    /// primitive transfers the callee-saved set from the previous
    /// process's stack-pointer cell to the selection's.
    ///
    /// `regs` and `sp` are the live callee-saved registers and stack
    /// cursor of the calling context.
    pub fn yield_proc(&mut self, regs: &mut CalleeRegs, sp: &mut usize)
        requires
            old(self).wf(),
            old(self).current is Some,
            CTX_WORDS <= *old(sp) <= STACK_WORDS,
        ensures
            final(self).wf(),
            ({
                let c = old(self).current->Some_0 as int;
                let idle = old(self).idle->Some_0 as int;
                let n = select_next(old(self).procs@, old(self).procs[c].pid, idle);
                &&& (n == c ==> *final(self) == *old(self) && *final(regs) == *old(regs)
                    && *final(sp) == *old(sp))
                &&& (n != c ==> {
                    &&& final(self).current == Some(n as usize)
                    &&& final(self).satp == (old(self).procs[n].page_table / PAGE_SIZE)
                        | SATP_SV32
                    &&& final(self).sscratch == Some(n as usize)
                    &&& final(self).mem == old(self).mem
                    &&& final(self).kernel_base == old(self).kernel_base
                    &&& final(self).idle == old(self).idle
                    &&& forall|i: int|
                        0 <= i < PROCS_MAX && i != c ==> final(self).procs[i] == old(self).procs[i]
                    &&& final(self).procs[c].pid == old(self).procs[c].pid
                    &&& final(self).procs[c].state == old(self).procs[c].state
                    &&& final(self).procs[c].page_table == old(self).procs[c].page_table
                    // The outgoing context's registers sit on its
                    // stack at the new saved cursor.
                    &&& final(self).procs[c].sp == *old(sp) - CTX_WORDS
                    &&& regs_of(final(self).procs[c].stack@, *old(sp) - CTX_WORDS) == *old(regs)
                    &&& forall|j: int|
                        0 <= j < STACK_WORDS && !(*old(sp) - CTX_WORDS <= j < *old(sp))
                            ==> final(self).procs[c].stack[j] == old(self).procs[c].stack[j]
                    // The incoming context's saved block becomes live.
                    &&& *final(regs) == regs_of(
                        old(self).procs[n].stack@,
                        old(self).procs[n].sp as int,
                    )
                    &&& *final(sp) == old(self).procs[n].sp + CTX_WORDS
                })
            }),
    {
        let c: usize = self.current.unwrap();
        let idle_slot: usize = self.idle.unwrap();
        let cur_pid: i64 = self.procs[c].pid;
        proof {
            assert(old(self).proc_ok(c as int));
        }
        // The scan starts at the slot after the current pid, reduced
        // modulo the capacity; the idle pid -1 reduces to the last
        // slot.
        let base: usize = if cur_pid >= 0 {
            (cur_pid % (PROCS_MAX as i64)) as usize
        } else {
            PROCS_MAX - 1
        };
        proof {
            assert(base as int == (cur_pid as int) % (PROCS_MAX as int));
        }
        let ghost procs0 = self.procs@;
        let mut k: usize = 0;
        let mut sel: usize = idle_slot;
        let mut found: bool = false;
        while k < PROCS_MAX && !found
            invariant
                self == old(self),
                k <= PROCS_MAX,
                self.procs.len() == PROCS_MAX,
                procs0 == self.procs@,
                0 <= idle_slot < PROCS_MAX,
                base as int == (cur_pid as int) % (PROCS_MAX as int),
                !found ==> sel == idle_slot,
                !found ==> scan_from(procs0, cur_pid, k as int, idle_slot as int) == select_next(
                    procs0,
                    cur_pid,
                    idle_slot as int,
                ),
                found ==> sel as int == select_next(procs0, cur_pid, idle_slot as int),
                sel < PROCS_MAX,
            decreases PROCS_MAX - k,
        {
            let slot: usize = (base + k) % PROCS_MAX;
            proof {
                assert(slot as int == scan_slot(cur_pid, k as int));
            }
            if self.procs[slot].state == PROC_READY && self.procs[slot].pid > 0 {
                sel = slot;
                found = true;
            }
            k = k + 1;
        }
        proof {
            if !found {
                assert(scan_from(procs0, cur_pid, PROCS_MAX as int, idle_slot as int)
                    == idle_slot);
            }
            assert(sel as int == select_next(procs0, cur_pid, idle_slot as int));
        }
        if sel == c {
            return ;
        }
        proof {
            lemma_scan_props(procs0, cur_pid, 0, idle_slot as int);
            assert(self.proc_ok(sel as int));
            assert(self.procs[sel as int].state == PROC_READY);
        }
        self.current = Some(sel);
        let root: u32 = self.procs[sel].page_table;
        // On hardware: a translation fence, then the root's page-frame
        // number plus the Sv32 mode bit into the translation register.
        self.satp = (root / PAGE_SIZE) | SATP_SV32;
        // The selection's stack top into the trap-scratch register.
        self.sscratch = Some(sel);
        let next_sp: usize = self.procs[sel].sp;
        let next_stack: Vec<u32> = copy_stack(&self.procs[sel].stack);
        let pr = &mut self.procs[c];
        switch_context(regs, sp, pr, &next_stack, next_sp);
        proof {
            assert forall|i: int| 0 <= i < PROCS_MAX implies self.proc_ok(i) by {
                assert(old(self).proc_ok(i));
            }
        }
    }
}


impl Kernel {
    /// Claim the first unused slot and build a READY process there:
    /// pid is the slot index plus one; a fresh page table identity
    /// maps the kernel image base through the end of free memory with
    /// read, write and execute permission; and the initial
    /// callee-saved register block lies at the top of the private
    /// stack with the return-address slot set to `pc` and every other
    /// saved register zero.  Fails fatally when no slot is free
    /// (`NoFreeProcessSlot`) or when the allocator cannot supply the
    /// root and inner tables (`OutOfPhysicalMemory`).
    #[verifier::rlimit(100)]
    pub fn create_process(&mut self, pc: u32) -> (r: Result<usize, KernelError>)
        requires
            old(self).wf(),
        ensures
            final(self).wf(),
            final(self).kernel_base == old(self).kernel_base,
            final(self).current == old(self).current,
            final(self).idle == old(self).idle,
            final(self).satp == old(self).satp,
            final(self).sscratch == old(self).sscratch,
            final(self).mem.base == old(self).mem.base,
            final(self).mem.end == old(self).mem.end,
            old(self).mem.next <= final(self).mem.next,
            // Memory handed out before the call is untouched.
            forall|a: u32|
                old(self).mem.word_addr(a) && a < old(self).mem.next ==> final(self).mem.word(a)
                    == old(self).mem.word(a),
            // Success exactly when a slot is free and the allocator
            // can supply the root and every inner table.
            r is Ok <==> (first_unused(old(self).procs@) < PROCS_MAX && old(self).mem.next
                + ident_pages_needed(old(self).kernel_base, old(self).mem.end) * PAGE_SIZE <= old(
                self,
            ).mem.end),
            r == Result::<usize, KernelError>::Err(KernelError::NoFreeProcessSlot) <==> first_unused(
                old(self).procs@,
            ) == PROCS_MAX,
            r is Err ==> final(self).procs@ == old(self).procs@,
            r is Err ==> r == Result::<usize, KernelError>::Err(KernelError::NoFreeProcessSlot)
                || r == Result::<usize, KernelError>::Err(KernelError::OutOfPhysicalMemory),
            r == Result::<usize, KernelError>::Err(KernelError::NoFreeProcessSlot) ==> *final(self)
                == *old(self),
            r is Ok ==> final(self).mem.next == old(self).mem.next + ident_pages_needed(
                old(self).kernel_base,
                old(self).mem.end,
            ) * PAGE_SIZE,
            r matches Ok(i) ==> {
                &&& i as int == first_unused(old(self).procs@)
                &&& i < PROCS_MAX
                &&& final(self).procs[i as int].pid == i as i64 + 1
                &&& final(self).procs[i as int].state == PROC_READY
                &&& final(self).procs[i as int].sp == STACK_WORDS - CTX_WORDS
                &&& final(self).procs[i as int].page_table == old(self).mem.next
                &&& pt_wf(final(self).mem, old(self).mem.next)
                &&& pt_ident(
                    final(self).mem,
                    old(self).mem.next,
                    old(self).kernel_base,
                    old(self).mem.end,
                )
                // The initial saved block: return address `pc`, every
                // other callee-saved register zero.
                &&& regs_of(final(self).procs[i as int].stack@, STACK_WORDS - CTX_WORDS as int)
                    == (CalleeRegs {
                    ra: pc,
                    s0: 0,
                    s1: 0,
                    s2: 0,
                    s3: 0,
                    s4: 0,
                    s5: 0,
                    s6: 0,
                    s7: 0,
                    s8: 0,
                    s9: 0,
                    s10: 0,
                    s11: 0,
                })
                &&& forall|j: int|
                    0 <= j < STACK_WORDS - CTX_WORDS ==> final(self).procs[i as int].stack[j]
                        == old(self).procs[i as int].stack[j]
                &&& forall|j: int|
                    0 <= j < PROCS_MAX && j != i ==> final(self).procs[j] == old(self).procs[j]
            },
    {
        // Scan for the first unused slot.
        let mut slot: usize = PROCS_MAX;
        let mut i: usize = 0;
        while i < PROCS_MAX && slot == PROCS_MAX
            invariant
                self == old(self),
                i <= PROCS_MAX,
                slot <= PROCS_MAX,
                self.procs.len() == PROCS_MAX,
                slot == PROCS_MAX ==> first_unused_from(self.procs@, i as int) == first_unused(
                    self.procs@,
                ),
                slot < PROCS_MAX ==> slot as int == first_unused(self.procs@)
                    && self.procs[slot as int].state == PROC_UNUSED,
            decreases PROCS_MAX - i,
        {
            if self.procs[i].state == PROC_UNUSED {
                slot = i;
            }
            i = i + 1;
        }
        if slot == PROCS_MAX {
            return Err(KernelError::NoFreeProcessSlot);
        }
        let ghost mem0 = self.mem;
        let kb: u32 = self.kernel_base;
        let end: u32 = self.mem.end;
        proof {
            // The region count is never negative.
            if kb < end {
                lemma_vpn1_monotone(kb, (end - PAGE_SIZE) as u32);
            }
        }
        // One fresh zero page for the outer table.
        let root: u32 = match self.mem.alloc_pages(1) {
            Ok(p) => p,
            Err(_) => {
                return Err(KernelError::OutOfPhysicalMemory);
            },
        };
        proof {
            reveal(ident_build_inv);
            lemma_pt_wf_fresh(self.mem, root);
        }
        // Identity map every page from the kernel image base through
        // the end of free memory, readable, writable and executable.
        let fl: u32 = PAGE_R | PAGE_W | PAGE_X;
        proof {
            assert(fl == 14u32 && fl & 0xffff_fc00u32 == 0u32 && (fl | 1u32) == 15u32)
                by (bit_vector)
                requires
                    fl == (2u32 | 4u32 | 8u32),
            ;
        }
        let mut paddr: u32 = kb;
        while paddr < end
            invariant
                old(self).wf(),
                mem0 == old(self).mem,
                self.procs@ == old(self).procs@,
                self.procs.len() == PROCS_MAX,
                self.kernel_base == old(self).kernel_base,
                self.current == old(self).current,
                self.idle == old(self).idle,
                self.satp == old(self).satp,
                self.sscratch == old(self).sscratch,
                kb == old(self).kernel_base,
                end == old(self).mem.end,
                root == mem0.next,
                slot < PROCS_MAX,
                slot as int == first_unused(old(self).procs@),
                fl == 14u32,
                fl & 0xffff_fc00u32 == 0u32,
                (fl | 1u32) == 15u32,
                ident_build_inv(self.mem, mem0, root, kb, end, paddr),
            decreases end - paddr,
        {
            proof {
                reveal(ident_build_inv);
            }
            let ghost mpre = self.mem;
            match map_page(&mut self.mem, root, paddr, paddr, fl) {
                Ok(_) => {},
                Err(_) => {
                    proof {
                        // The allocator came up short; conclude that
                        // the whole build could never have fit.
                        lemma_ident_oom(mpre, mem0, root, kb, end, paddr);
                        // Existing tables survive untouched.
                        assert forall|j: int| 0 <= j < PROCS_MAX implies self.proc_ok(j) by {
                            assert(old(self).proc_ok(j));
                            let pj = old(self).procs[j];
                            if pj.state == PROC_READY {
                                lemma_pt_owns_below_next(mem0, pj.page_table);
                                lemma_pt_preserved(mem0, self.mem, pj.page_table);
                            }
                        }
                    }
                    return Err(KernelError::OutOfPhysicalMemory);
                },
            }
            proof {
                assert((fl | PAGE_V) == 0xfu32);
                lemma_ident_step(mpre, self.mem, mem0, root, kb, end, paddr, fl);
            }
            paddr = paddr + PAGE_SIZE;
        }
        proof {
            reveal(ident_build_inv);
            // The loop ran to the end of free memory: the identity map
            // is complete and the allocator had enough pages.
            assert(pt_ident(self.mem, root, kb, end));
            assert(self.mem.next == mem0.next + ident_pages_needed(kb, end) * PAGE_SIZE);
            assert(self.mem.next <= end);
            assert(old(self).proc_ok(slot as int));
            assert(self.procs[slot as int].stack.len() == STACK_WORDS);
        }
        // Lay the initial callee-saved block at the top of the stack:
        // the return address is the entry point, all else zero.
        let base_sp: usize = STACK_WORDS - CTX_WORDS;
        let p = &mut self.procs[slot];
        p.stack[base_sp] = pc;
        p.stack[base_sp + 1] = 0;
        p.stack[base_sp + 2] = 0;
        p.stack[base_sp + 3] = 0;
        p.stack[base_sp + 4] = 0;
        p.stack[base_sp + 5] = 0;
        p.stack[base_sp + 6] = 0;
        p.stack[base_sp + 7] = 0;
        p.stack[base_sp + 8] = 0;
        p.stack[base_sp + 9] = 0;
        p.stack[base_sp + 10] = 0;
        p.stack[base_sp + 11] = 0;
        p.stack[base_sp + 12] = 0;
        p.pid = slot as i64 + 1;
        p.state = PROC_READY;
        p.sp = base_sp;
        p.page_table = root;
        proof {
            // Existing tables survive: this call only wrote to pages
            // past the old cursor.
            assert forall|j: int| 0 <= j < PROCS_MAX implies self.proc_ok(j) by {
                assert(old(self).proc_ok(j));
                if j != slot {
                    let pj = old(self).procs[j];
                    if pj.state == PROC_READY {
                        lemma_pt_owns_below_next(mem0, pj.page_table);
                        lemma_pt_preserved(mem0, self.mem, pj.page_table);
                    }
                }
            }
        }
        Ok(slot)
    }
}


/// Skipping offsets that hold no ready worker does not change what
/// the scan settles on.
pub proof fn lemma_scan_skip(procs: Seq<Process>, cur_pid: i64, k: int, idle: int)
    requires
        0 <= k <= PROCS_MAX,
        forall|t: int| 0 <= t < k ==> !ready_worker(procs[#[trigger] scan_slot(cur_pid, t)]),
    ensures
        select_next(procs, cur_pid, idle) == scan_from(procs, cur_pid, k, idle),
    decreases k,
{
    if k > 0 {
        lemma_scan_skip(procs, cur_pid, k - 1, idle);
        assert(!ready_worker(procs[scan_slot(cur_pid, k - 1)]));
    }
}

/// Round-robin: with the idle process in slot 0 and workers filling
/// slots 1 through `n` (all READY), a yield from the worker in slot
/// `s` selects the worker in the next slot, wrapping from slot `n`
/// back to slot 1.  The idle slot is passed over.
pub proof fn lemma_round_robin(procs: Seq<Process>, n: int, s: int)
    requires
        procs.len() == PROCS_MAX,
        1 <= n < PROCS_MAX,
        procs[0].pid == -1,
        forall|j: int| 1 <= j <= n ==> (#[trigger] procs[j]).state == PROC_READY && procs[j].pid == j + 1,
        forall|j: int| n < j < PROCS_MAX ==> (#[trigger] procs[j]).state == PROC_UNUSED && procs[j].pid == 0,
        1 <= s <= n,
    ensures
        select_next(procs, (s + 1) as i64, 0) == rr_next(n, s),
{
    let cur_pid: i64 = (s + 1) as i64;
    assert((cur_pid as int) % (PROCS_MAX as int) == if s + 1 < PROCS_MAX {
        s + 1
    } else {
        0
    });
    if s < n {
        // The very next slot holds a ready worker.
        assert(scan_slot(cur_pid, 0) == s + 1);
        assert(ready_worker(procs[s + 1]));
    } else {
        // Slots past the workers are unused, then the idle slot is
        // passed over, and the scan wraps to slot 1.
        let k1 = PROCS_MAX - n;
        assert forall|t: int| 0 <= t < k1 implies !ready_worker(
            procs[#[trigger] scan_slot(cur_pid, t)],
        ) by {
            if n + 1 + t < PROCS_MAX {
                assert(scan_slot(cur_pid, t) == n + 1 + t);
            } else {
                assert(scan_slot(cur_pid, t) == 0);
                assert(procs[0].pid == -1);
            }
        }
        lemma_scan_skip(procs, cur_pid, k1, 0);
        assert(scan_slot(cur_pid, k1) == 1);
        assert(ready_worker(procs[1]));
        assert(scan_from(procs, cur_pid, k1, 0) == 1);
    }
}

/// The successor slot in a round-robin over worker slots 1 through
/// `n`.
pub open spec fn rr_next(n: int, s: int) -> int {
    if s < n {
        s + 1
    } else {
        1
    }
}

/// The slot reached after `j` round-robin steps from slot `s`.
pub open spec fn rr_iter(n: int, s: int, j: nat) -> int
    decreases j,
{
    if j == 0 {
        s
    } else {
        rr_next(n, rr_iter(n, s, (j - 1) as nat))
    }
}

/// `j` consecutive yields from the worker in slot `s` reach slot
/// `((s - 1 + j) mod n) + 1`: each of the `n` workers is visited once
/// before the sequence returns to `s` after exactly `n` steps.
pub proof fn lemma_round_robin_cycle(n: int, s: int, j: nat)
    requires
        1 <= s <= n,
    ensures
        rr_iter(n, s, j) == ((s - 1 + j) % n) + 1,
        j == n ==> rr_iter(n, s, j) == s,
    decreases j,
{
    if j == 0 {
        assert((s - 1) % n == s - 1) by (nonlinear_arith)
            requires
                0 <= s - 1 < n,
        ;
    } else {
        lemma_round_robin_cycle(n, s, (j - 1) as nat);
        let a = (s - 1 + j - 1) as int;
        let r = a % n;
        assert(0 <= a % n < n) by (nonlinear_arith)
            requires
                n >= 1,
                a >= 0,
        ;
        assert((a + 1) % n == if r == n - 1 {
            0int
        } else {
            r + 1
        }) by (nonlinear_arith)
            requires
                n >= 1,
                a >= 0,
                r == a % n,
        ;
    }
    if j == n {
        assert((s - 1 + n) % n == s - 1) by (nonlinear_arith)
            requires
                n >= 1,
                0 <= s - 1 < n,
        ;
    }
}

/// No worker repeats within one full round: the first `n` stops of
/// the round-robin from any worker are pairwise distinct.
pub proof fn lemma_round_robin_visits_all(n: int, s: int)
    requires
        1 <= s <= n,
    ensures
        forall|j1: nat, j2: nat|
            j1 < j2 < n ==> rr_iter(n, s, j1) != rr_iter(n, s, j2),
        rr_iter(n, s, n as nat) == s,
{
    lemma_round_robin_cycle(n, s, n as nat);
    assert forall|j1: nat, j2: nat| j1 < j2 < n implies rr_iter(n, s, j1) != rr_iter(
        n,
        s,
        j2,
    ) by {
        lemma_round_robin_cycle(n, s, j1);
        lemma_round_robin_cycle(n, s, j2);
        let a1 = (s - 1 + j1) as int;
        let a2 = (s - 1 + j2) as int;
        assert(a1 % n != a2 % n) by (nonlinear_arith)
            requires
                n >= 1,
                a1 >= 0,
                0 < a2 - a1 < n,
        ;
    }
}

/// Process creation claims strictly increasing slots: once the first
/// unused slot is filled, the next scan settles strictly later, so
/// pids (slot index plus one) are handed out in strictly increasing
/// order.
pub proof fn lemma_first_unused_increases(procs1: Seq<Process>, procs2: Seq<Process>)
    requires
        procs1.len() == PROCS_MAX,
        procs2.len() == PROCS_MAX,
        0 <= first_unused(procs1) < PROCS_MAX,
        procs2[first_unused(procs1)].state == PROC_READY,
        forall|j: int|
            0 <= j < PROCS_MAX && j != first_unused(procs1) ==> procs2[j] == procs1[j],
    ensures
        first_unused(procs2) > first_unused(procs1),
{
    lemma_first_unused_step(procs1, procs2, 0);
}

/// Helper induction for `lemma_first_unused_increases`.
proof fn lemma_first_unused_step(procs1: Seq<Process>, procs2: Seq<Process>, k: int)
    requires
        procs1.len() == PROCS_MAX,
        procs2.len() == PROCS_MAX,
        0 <= k <= first_unused(procs1) < PROCS_MAX,
        first_unused_from(procs1, k) == first_unused(procs1),
        procs2[first_unused(procs1)].state == PROC_READY,
        forall|j: int|
            0 <= j < PROCS_MAX && j != first_unused(procs1) ==> procs2[j] == procs1[j],
    ensures
        first_unused_from(procs2, k) > first_unused(procs1),
    decreases PROCS_MAX - k,
{
    let f = first_unused(procs1);
    if k < f {
        assert(procs1[k].state != PROC_UNUSED);
        lemma_first_unused_step(procs1, procs2, k + 1);
    } else {
        assert(procs2[f].state != PROC_UNUSED);
        lemma_first_unused_tail(procs2, f + 1);
    }
}

/// The scan result is bounded below by its starting point.
proof fn lemma_first_unused_tail(procs: Seq<Process>, k: int)
    requires
        0 <= k <= PROCS_MAX,
    ensures
        first_unused_from(procs, k) >= k,
    decreases PROCS_MAX - k,
{
    if k < PROCS_MAX && procs[k].state != PROC_UNUSED {
        lemma_first_unused_tail(procs, k + 1);
    }
}

} // verus!

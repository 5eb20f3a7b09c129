use minikernel::constants::{CTX_WORDS, PROC_READY, PROC_UNUSED, STACK_WORDS};
use minikernel::error::KernelError;
use minikernel::process::{Kernel, Process};

/// A fresh slot is unused, with pid 0 and a zeroed stack.
#[test]
fn process_new_is_unused() {
    let p = Process::new();
    assert_eq!(p.pid, 0);
    assert_eq!(p.state, PROC_UNUSED);
    assert_eq!(p.sp, 0);
    assert_eq!(p.page_table, 0);
    assert_eq!(p.stack.len(), STACK_WORDS);
    assert!(p.stack.iter().all(|w| *w == 0));
}

/// Creation up to capacity hands out unique, strictly increasing pids
/// starting at 1, and the call past capacity fails fatally.
#[test]
fn create_pids_increase_until_capacity() {
    // 64 KiB free region: each table takes two pages, so eight
    // processes fit exactly.
    let mut k = Kernel::new(0, 0, 0x10000);
    let mut last_pid: i64 = 0;
    for n in 0..8usize {
        let slot = k.create_process(0x1000).unwrap();
        assert_eq!(slot, n);
        let pid = k.procs[slot].pid;
        assert_eq!(pid, n as i64 + 1);
        assert!(pid > last_pid);
        last_pid = pid;
        assert_eq!(k.procs[slot].state, PROC_READY);
    }
    assert_eq!(k.create_process(0x1000), Err(KernelError::NoFreeProcessSlot));
}

/// The initial saved register block holds exactly the entry point in
/// the return-address slot and zero in every other callee-saved slot.
#[test]
fn create_initial_block_holds_entry_point() {
    let mut k = Kernel::new(0, 0, 0x10000);
    let slot = k.create_process(0xdead_b000).unwrap();
    let p = &k.procs[slot];
    assert_eq!(p.sp, STACK_WORDS - CTX_WORDS);
    assert_eq!(p.stack[p.sp], 0xdead_b000);
    for j in 1..CTX_WORDS {
        assert_eq!(p.stack[p.sp + j], 0);
    }
}

/// Creation fails fatally when the allocator cannot build the page
/// table, even though a slot is free.
#[test]
fn create_out_of_memory_is_fatal() {
    let mut k = Kernel::new(0, 0, 0x1000);
    assert_eq!(k.create_process(0x1000), Err(KernelError::OutOfPhysicalMemory));
}

/// Each created process owns its own page-table root, distinct from
/// every other one.
#[test]
fn create_roots_are_distinct() {
    let mut k = Kernel::new(0, 0, 0x10000);
    let a = k.create_process(0x1000).unwrap();
    let b = k.create_process(0x2000).unwrap();
    let c = k.create_process(0x3000).unwrap();
    let ra = k.procs[a].page_table;
    let rb = k.procs[b].page_table;
    let rc = k.procs[c].page_table;
    assert_ne!(ra, rb);
    assert_ne!(rb, rc);
    assert_ne!(ra, rc);
}

/// The bootstrap special case: the idle process is created the
/// ordinary way and then has its pid forced to -1.
#[test]
fn install_idle_forces_pid() {
    let mut k = Kernel::new(0, 0, 0x10000);
    let slot = k.create_process(0).unwrap();
    assert_eq!(k.procs[slot].pid, 1);
    k.install_idle(slot);
    assert_eq!(k.procs[slot].pid, -1);
    assert_eq!(k.idle, Some(slot));
    assert_eq!(k.current, Some(slot));
}

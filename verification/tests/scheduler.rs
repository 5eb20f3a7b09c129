use minikernel::constants::{PAGE_SIZE, SATP_SV32, STACK_WORDS};
use minikernel::kernel::kernel_main;
use minikernel::process::{CalleeRegs, Kernel};

fn boot_regs() -> CalleeRegs {
    CalleeRegs {
        ra: 0,
        s0: 0,
        s1: 0,
        s2: 0,
        s3: 0,
        s4: 0,
        s5: 0,
        s6: 0,
        s7: 0,
        s8: 0,
        s9: 0,
        s10: 0,
        s11: 0,
    }
}

/// Round-robin: with three ready workers, consecutive yields from
/// worker 1 visit workers 2, 3 and then worker 1 again.
#[test]
fn round_robin_visits_workers_in_order() {
    let mut k = Kernel::new(0, 0, 0x10000);
    let idle = k.create_process(0).unwrap();
    k.install_idle(idle);
    let w1 = k.create_process(0x1000).unwrap();
    let w2 = k.create_process(0x2000).unwrap();
    let w3 = k.create_process(0x3000).unwrap();
    assert_eq!((w1, w2, w3), (1, 2, 3));
    let mut regs = boot_regs();
    let mut sp: usize = STACK_WORDS;
    // From the idle process the first yield reaches worker 1.
    k.yield_proc(&mut regs, &mut sp);
    assert_eq!(k.current, Some(1));
    k.yield_proc(&mut regs, &mut sp);
    assert_eq!(k.current, Some(2));
    k.yield_proc(&mut regs, &mut sp);
    assert_eq!(k.current, Some(3));
    k.yield_proc(&mut regs, &mut sp);
    assert_eq!(k.current, Some(1));
}

/// Each switch restores the incoming worker's saved return address:
/// the entry point for a worker that has not run yet.
#[test]
fn switch_restores_entry_points() {
    let mut k = Kernel::new(0, 0, 0x10000);
    let idle = k.create_process(0).unwrap();
    k.install_idle(idle);
    k.create_process(0xaaaa_a000).unwrap();
    k.create_process(0xbbbb_b000).unwrap();
    let mut regs = boot_regs();
    let mut sp: usize = STACK_WORDS;
    k.yield_proc(&mut regs, &mut sp);
    assert_eq!(regs.ra, 0xaaaa_a000);
    k.yield_proc(&mut regs, &mut sp);
    assert_eq!(regs.ra, 0xbbbb_b000);
}

/// A yield that selects the current process is a no-op: no context
/// switch, no control register rewritten.
#[test]
fn yield_to_self_is_noop() {
    let mut k = Kernel::new(0, 0, 0x10000);
    let idle = k.create_process(0).unwrap();
    k.install_idle(idle);
    k.create_process(0x1000).unwrap();
    let mut regs = boot_regs();
    let mut sp: usize = STACK_WORDS;
    // Reach the single worker.
    k.yield_proc(&mut regs, &mut sp);
    assert_eq!(k.current, Some(1));
    let satp = k.satp;
    let sscratch = k.sscratch;
    let sp_before = sp;
    let ra_before = regs.ra;
    let saved_sp_before = k.procs[1].sp;
    // The only ready worker is already current: nothing happens.
    k.yield_proc(&mut regs, &mut sp);
    assert_eq!(k.current, Some(1));
    assert_eq!(k.satp, satp);
    assert_eq!(k.sscratch, sscratch);
    assert_eq!(sp, sp_before);
    assert_eq!(regs.ra, ra_before);
    assert_eq!(k.procs[1].sp, saved_sp_before);
}

/// With no worker ready, yield falls back to the idle process.
#[test]
fn yield_falls_back_to_idle() {
    let mut k = Kernel::new(0, 0, 0x10000);
    let idle = k.create_process(0).unwrap();
    k.install_idle(idle);
    let mut regs = boot_regs();
    let mut sp: usize = STACK_WORDS;
    // Idle is current and no worker exists: a no-op.
    k.yield_proc(&mut regs, &mut sp);
    assert_eq!(k.current, Some(0));
    assert_eq!(k.satp, 0);
}

/// End to end: a 64 KiB free region, the idle process, two workers,
/// one yield from idle.  Worker 1 becomes current, its own root is in
/// the translation register with the Sv32 mode bit, its stack top is
/// in the trap-scratch register, and its entry point is live.
#[test]
fn bootstrap_reaches_first_worker() {
    let mut k = Kernel::new(0, 0, 0x10000);
    let mut regs = boot_regs();
    let mut sp: usize = STACK_WORDS;
    assert_eq!(kernel_main(&mut k, &mut regs, &mut sp, 0x8020_1000, 0x8020_2000), Ok(()));
    assert_eq!(k.procs[0].pid, -1);
    assert_eq!(k.idle, Some(0));
    assert_eq!(k.current, Some(1));
    assert_eq!(k.procs[1].pid, 2);
    assert_eq!(k.procs[2].pid, 3);
    assert_eq!(k.satp, (k.procs[1].page_table / PAGE_SIZE) | SATP_SV32);
    // Bit-exact: the idle table consumed pages 0 and 1, so worker 1's
    // root is the page at 0x2000, frame number 2, plus the Sv32 bit.
    assert_eq!(k.procs[1].page_table, 0x2000);
    assert_eq!(k.satp, 0x8000_0002);
    assert_eq!(k.sscratch, Some(1));
    assert_eq!(regs.ra, 0x8020_1000);
    // Worker 1's address-translation register reflects its own root,
    // not worker 2's.
    assert_ne!(k.satp, (k.procs[2].page_table / PAGE_SIZE) | SATP_SV32);
}

/// The bootstrap is fatal when the free region cannot hold the three
/// page tables.
#[test]
fn bootstrap_out_of_memory_is_fatal() {
    let mut k = Kernel::new(0, 0, 0x3000);
    let mut regs = boot_regs();
    let mut sp: usize = STACK_WORDS;
    assert!(kernel_main(&mut k, &mut regs, &mut sp, 0x1000, 0x2000).is_err());
}

use minikernel::constants::TRAP_WORDS;
use minikernel::error::KernelError;
use minikernel::kernel::{handle_trap, kernel_entry, trap_restore, trap_save};
use minikernel::util::TrapFrame;

fn sample_frame() -> TrapFrame {
    TrapFrame {
        ra: 1,
        gp: 2,
        tp: 3,
        t0: 4,
        t1: 5,
        t2: 6,
        t3: 7,
        t4: 8,
        t5: 9,
        t6: 10,
        a0: 11,
        a1: 12,
        a2: 13,
        a3: 14,
        a4: 15,
        a5: 16,
        a6: 17,
        a7: 18,
        s0: 19,
        s1: 20,
        s2: 21,
        s3: 22,
        s4: 23,
        s5: 24,
        s6: 25,
        s7: 26,
        s8: 27,
        s9: 28,
        s10: 29,
        s11: 30,
        sp: 31,
    }
}

/// Reloading a spilled frame restores every register exactly.
#[test]
fn trap_save_restore_round_trip() {
    let mut stack: Vec<u32> = vec![0; 64];
    let regs = sample_frame();
    let base = trap_save(&mut stack, 64, &regs);
    assert_eq!(base, 64 - TRAP_WORDS);
    let restored = trap_restore(&stack, base);
    assert_eq!(restored.ra, regs.ra);
    assert_eq!(restored.gp, regs.gp);
    assert_eq!(restored.tp, regs.tp);
    assert_eq!(restored.t0, regs.t0);
    assert_eq!(restored.t6, regs.t6);
    assert_eq!(restored.a0, regs.a0);
    assert_eq!(restored.a7, regs.a7);
    assert_eq!(restored.s0, regs.s0);
    assert_eq!(restored.s11, regs.s11);
    assert_eq!(restored.sp, regs.sp);
}

/// The spill order is fixed: return address at the frame base, the
/// interrupted stack pointer last.
#[test]
fn trap_save_layout() {
    let mut stack: Vec<u32> = vec![0; 64];
    let regs = sample_frame();
    let base = trap_save(&mut stack, 64, &regs);
    assert_eq!(stack[base], 1);
    assert_eq!(stack[base + 30], 31);
}

/// Every trap is fatal: the handler reports the fault registers and
/// halts rather than resuming.
#[test]
fn handler_is_always_fatal() {
    let frame = sample_frame();
    let e = handle_trap(&frame, 0xd, 0x8020_0044, 0x8020_1234);
    assert_eq!(
        e,
        KernelError::UnhandledTrap { scause: 0xd, stval: 0x8020_0044, sepc: 0x8020_1234 }
    );
}

/// The whole entry path: the frame is spilled below the cursor and
/// the handler's verdict carries the fault registers.
#[test]
fn kernel_entry_spills_and_reports() {
    let mut stack: Vec<u32> = vec![0; 128];
    let regs = sample_frame();
    let (base, e) = kernel_entry(&mut stack, 100, &regs, 2, 3, 4);
    assert_eq!(base, 100 - TRAP_WORDS);
    assert_eq!(stack[base], regs.ra);
    assert_eq!(stack[base + 30], regs.sp);
    assert_eq!(e, KernelError::UnhandledTrap { scause: 2, stval: 3, sepc: 4 });
    // Words outside the frame are untouched.
    assert_eq!(stack[base - 1], 0);
    assert_eq!(stack[101], 0);
}

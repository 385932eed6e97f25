use os_kernel::address::PhysPageNum;
use os_kernel::kernel::{Kernel, ProcessControlBlock, TrapOutcome, SYSCALL_MUTEX_CREATE, SYSCALL_MUTEX_LOCK, SYSCALL_MUTEX_UNLOCK};
use os_kernel::task::TaskStatus;
use os_kernel::trap::{SignalFlags, TrapCause, TrapContext};

fn one_task() -> (Kernel, usize) {
    let mut k = Kernel::new();
    k.insert_into_pid2process(ProcessControlBlock::new(1));
    let t = k.spawn(1, None, PhysPageNum(0), 0x4000, 0x1234);
    let u = k.spawn(1, None, PhysPageNum(0), 0x8000, 0x1234);
    assert_eq!(u, t + 1);
    k.schedule();
    (k, t)
}

fn set_call(k: &mut Kernel, t: usize, id: usize, a0: usize) {
    k.tasks[t].inner.trap_cx.general_regs.x[17] = id;
    k.tasks[t].inner.trap_cx.general_regs.x[10] = a0;
    k.tasks[t].inner.trap_cx.sepc = 0x1000;
}

#[test]
fn app_init_context_enters_user_mode() {
    let cx = TrapContext::app_init_context(0x10000, 0x7000, 0x122, 0x8000_0000_0008_0000, 0x9000, 0xabc);
    assert_eq!(cx.sepc, 0x10000);
    assert_eq!(cx.general_regs.x[2], 0x7000);
    assert_eq!(cx.general_regs.x[1], 0);
    assert_eq!(cx.sstatus, 0x22);
    assert_eq!(cx.kernel_satp, 0x8000_0000_0008_0000);
    assert_eq!(cx.kernel_sp, 0x9000);
    assert_eq!(cx.trap_handler, 0xabc);
    let mut cx2 = cx;
    cx2.set_sp(0x42);
    assert_eq!(cx2.general_regs.x[2], 0x42);
}

#[test]
fn fatal_signals_in_priority_order() {
    let s = SignalFlags { bits: SignalFlags::SIGSEGV | SignalFlags::SIGILL };
    assert_eq!(s.check_error().unwrap().0, -4);
    let s = SignalFlags { bits: SignalFlags::SIGSEGV };
    assert_eq!(s.check_error(), Some((-11, "Segmentation Fault, SIGSEGV=11")));
    let s = SignalFlags { bits: SignalFlags::SIGINT | SignalFlags::SIGFPE };
    assert_eq!(s.check_error().unwrap().0, -2);
    let s = SignalFlags { bits: SignalFlags::SIGFPE | SignalFlags::SIGABRT };
    assert_eq!(s.check_error().unwrap().0, -6);
    assert_eq!(SignalFlags { bits: SignalFlags::SIGCHLD }.check_error(), None);
}

#[test]
fn signal_numbers() {
    assert_eq!(SignalFlags::from_signum(0), Ok(SignalFlags { bits: 0 }));
    assert_eq!(SignalFlags::from_signum(11), Ok(SignalFlags { bits: SignalFlags::SIGSEGV }));
    assert_eq!(SignalFlags::from_signum(2), Ok(SignalFlags { bits: SignalFlags::SIGINT }));
    assert_eq!(SignalFlags::from_signum(3), Ok(SignalFlags { bits: 0 }));
    assert_eq!(SignalFlags::from_signum(65), Err(()));
}

#[test]
fn syscall_advances_pc_and_returns_result() {
    let (mut k, t) = one_task();
    set_call(&mut k, t, SYSCALL_MUTEX_CREATE, 1);
    assert_eq!(k.trap_handler(TrapCause::UserEnvCall, 0, 0), TrapOutcome::Return(t));
    assert_eq!(k.tasks[t].inner.trap_cx.sepc, 0x1004);
    assert_eq!(k.tasks[t].inner.trap_cx.general_regs.x[10], 0);
    set_call(&mut k, t, 4242, 0);
    assert_eq!(k.trap_handler(TrapCause::UserEnvCall, 0, 0), TrapOutcome::Return(t));
    assert_eq!(k.tasks[t].inner.trap_cx.general_regs.x[10], usize::MAX);
}

#[test]
fn unlocking_a_free_blocking_mutex_is_fatal() {
    let (mut k, t) = one_task();
    set_call(&mut k, t, SYSCALL_MUTEX_CREATE, 1);
    k.trap_handler(TrapCause::UserEnvCall, 0, 0);
    set_call(&mut k, t, SYSCALL_MUTEX_UNLOCK, 0);
    assert_eq!(k.trap_handler(TrapCause::UserEnvCall, 0, 0), TrapOutcome::Fatal(TrapCause::UserEnvCall, 0));
    set_call(&mut k, t, SYSCALL_MUTEX_LOCK, 0);
    assert_eq!(k.trap_handler(TrapCause::UserEnvCall, 0, 0), TrapOutcome::Return(t));
}

#[test]
fn page_fault_kills_only_the_task() {
    let (mut k, t) = one_task();
    let out = k.trap_handler(TrapCause::StorePageFault, 0xdead, 0);
    assert_eq!(k.tasks[t].inner.exit_code, Some(-11));
    assert_eq!(out, TrapOutcome::Return(t + 1));
    let out = k.trap_handler(TrapCause::IllegalInstruction, 0, 0);
    assert_eq!(k.tasks[t + 1].inner.exit_code, Some(-4));
    assert_eq!(out, TrapOutcome::Idle);
}

#[test]
fn timer_interrupt_yields() {
    let (mut k, t) = one_task();
    assert_eq!(k.trap_handler(TrapCause::SupervisorTimer, 0, 10), TrapOutcome::Return(t + 1));
    assert_eq!(k.tasks[t].inner.task_status, TaskStatus::Ready);
    assert_eq!(k.time_ms, 10);
}

#[test]
fn unexpected_traps_are_fatal() {
    let (mut k, _t) = one_task();
    assert_eq!(k.trap_handler(TrapCause::Other(24), 7, 0), TrapOutcome::Fatal(TrapCause::Other(24), 7));
    assert_eq!(k.trap_from_kernel(TrapCause::LoadFault, 9, 0), Some(TrapOutcome::Fatal(TrapCause::LoadFault, 9)));
    assert_eq!(k.trap_from_kernel(TrapCause::SupervisorTimer, 0, 5), None);
    assert_eq!(k.time_ms, 5);
}

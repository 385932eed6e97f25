use vstd::prelude::*;

verus! {

/// The 32 general-purpose registers.
#[derive(Clone, Copy, Debug)]
pub struct GeneralRegs {
    pub x: [usize; 32],
}

/// The user registers saved on a trap, with what the trap entry needs to
/// get back into the kernel: its page-table token, its stack and the
/// handler's address.
#[derive(Clone, Copy, Debug)]
pub struct TrapContext {
    pub general_regs: GeneralRegs,
    pub sstatus: usize,
    pub sepc: usize,
    pub kernel_satp: u64,
    pub kernel_sp: usize,
    pub trap_handler: usize,
}

/// Bit 8 of `sstatus`: the privilege the trap came from, 1 for supervisor.
pub const SSTATUS_SPP: usize = 0x100;

impl TrapContext {
    /// Sets the user stack pointer, register x2.
    pub fn set_sp(&mut self, sp: usize)
        ensures
            final(self).general_regs.x@ == old(self).general_regs.x@.update(2, sp),
            final(self).sepc == old(self).sepc,
            final(self).sstatus == old(self).sstatus,
            final(self).kernel_satp == old(self).kernel_satp,
            final(self).kernel_sp == old(self).kernel_sp,
            final(self).trap_handler == old(self).trap_handler,
    {
        self.general_regs.x.set(2, sp);
    }

    /// The context in which a thread first enters user mode at `entry`
    /// with stack `sp`: all registers zero but the stack pointer, and the
    /// previous privilege in `sstatus` (the current value is given) set to
    /// user.
    pub fn app_init_context(
        entry: usize,
        sp: usize,
        sstatus: usize,
        kernel_satp: u64,
        kernel_sp: usize,
        trap_handler: usize,
    ) -> (r: TrapContext)
        ensures
            r.sepc == entry,
            r.general_regs.x@[2] == sp,
            forall|i: int| 0 <= i < 32 && i != 2 ==> r.general_regs.x@[i] == 0,
            r.sstatus == (if (sstatus / SSTATUS_SPP) % 2 == 1 { (sstatus - SSTATUS_SPP) as usize } else { sstatus }),
            r.kernel_satp == kernel_satp,
            r.kernel_sp == kernel_sp,
            r.trap_handler == trap_handler,
    {
        let user_sstatus = if (sstatus / SSTATUS_SPP) % 2 == 1 {
            sstatus - SSTATUS_SPP
        } else {
            sstatus
        };
        let mut cx = TrapContext {
            general_regs: GeneralRegs { x: [0; 32] },
            sstatus: user_sstatus,
            sepc: entry,
            kernel_satp,
            kernel_sp,
            trap_handler,
        };
        cx.set_sp(sp);
        cx
    }
}

/// A set of posted signals, one bit per signal.
#[derive(Clone, Copy, PartialEq, Eq, Structural, Debug)]
pub struct SignalFlags {
    pub bits: u32,
}

impl SignalFlags {
    pub const SIGINT: u32 = 0x2;
    pub const SIGILL: u32 = 0x8;
    pub const SIGABRT: u32 = 0x20;
    pub const SIGFPE: u32 = 0x80;
    pub const SIGSEGV: u32 = 0x400;
    pub const SIGALRM: u32 = 0x2000;
    pub const SIGCHLD: u32 = 0x1_0000;
    pub const SIGVTALRM: u32 = 0x200_0000;
    pub const SIGPROF: u32 = 0x400_0000;
    /// Every signal the kernel knows.
    pub const ALL: u32 = 0x601_24aa;

    /// Whether the signal with bit `flag` is posted.
    pub open spec fn has(&self, flag: u32) -> bool {
        self.bits & flag != 0
    }

    /// The first fatal signal posted, in the order SIGINT, SIGILL, SIGABRT,
    /// SIGFPE, SIGSEGV, with the exit code it gives and a description.
    pub fn check_error(&self) -> (r: Option<(i32, &'static str)>)
        ensures
            r matches Some((code, _)) ==> code == fatal_code(self.bits),
            r.is_none() <==> fatal_code(self.bits) == 0,
    {
        if self.bits & Self::SIGINT != 0 {
            Some((-2, "Killed, SIGINT=2"))
        } else if self.bits & Self::SIGILL != 0 {
            Some((-4, "Illegal Instruction, SIGILL=4"))
        } else if self.bits & Self::SIGABRT != 0 {
            Some((-6, "Aborted, SIGABRT=6"))
        } else if self.bits & Self::SIGFPE != 0 {
            Some((-8, "Erroneous Arithmetic Operation, SIGFPE=8"))
        } else if self.bits & Self::SIGSEGV != 0 {
            Some((-11, "Segmentation Fault, SIGSEGV=11"))
        } else {
            None
        }
    }

    /// The set holding only signal `signum` (0 gives the empty set), as far
    /// as the kernel knows that signal; an error above 64.
    pub fn from_signum(signum: usize) -> (r: Result<SignalFlags, ()>)
        ensures
            signum > 64 <==> r.is_err(),
            signum == 0 ==> r == Ok::<SignalFlags, ()>(SignalFlags { bits: 0 }),
            1 <= signum <= 32 ==> r == Ok::<SignalFlags, ()>(SignalFlags { bits: (1u32 << ((signum - 1) as u32)) & Self::ALL }),
            32 < signum <= 64 ==> r == Ok::<SignalFlags, ()>(SignalFlags { bits: 0 }),
    {
        if signum == 0 {
            Ok(SignalFlags { bits: 0 })
        } else if signum <= 32 {
            let shift = (signum - 1) as u32;
            Ok(SignalFlags { bits: (1u32 << shift) & Self::ALL })
        } else if signum <= 64 {
            Ok(SignalFlags { bits: 0 })
        } else {
            Err(())
        }
    }
}

/// The exit code of the first fatal signal in `bits`, 0 if none.
pub open spec fn fatal_code(bits: u32) -> int {
    if bits & SignalFlags::SIGINT != 0 {
        -2
    } else if bits & SignalFlags::SIGILL != 0 {
        -4
    } else if bits & SignalFlags::SIGABRT != 0 {
        -6
    } else if bits & SignalFlags::SIGFPE != 0 {
        -8
    } else if bits & SignalFlags::SIGSEGV != 0 {
        -11
    } else {
        0
    }
}

/// Why the processor trapped.
#[derive(Clone, Copy, PartialEq, Eq, Structural, Debug)]
pub enum TrapCause {
    UserEnvCall,
    StoreFault,
    StorePageFault,
    InstructionFault,
    InstructionPageFault,
    LoadFault,
    LoadPageFault,
    IllegalInstruction,
    SupervisorTimer,
    SupervisorExternal,
    Other(usize),
}

} // verus!

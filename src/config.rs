use vstd::prelude::*;

verus! {

/// Bytes in one page.
pub const PAGE_SIZE: usize = 0x1000;

/// log2 of `PAGE_SIZE`.
pub const PAGE_SIZE_BITS: usize = 0xc;

/// Entries in one page-table node.
pub const PTE_PER_PAGE: usize = 512;

/// Virtual page numbers of an SV39 space are below this bound (27 bits).
pub const VPN_LIMIT: usize = 0x800_0000;

/// Virtual addresses of an SV39 space are below this bound (39 bits).
pub const VA_LIMIT: u64 = 0x80_0000_0000;

/// Physical page numbers fit in 44 bits.
pub const PPN_LIMIT: u64 = 0x1000_0000_0000;

/// Bytes of a user stack.
pub const USER_STACK_SIZE: usize = 0x40000;

/// Bytes of a kernel stack.
pub const KERNEL_STACK_SIZE: usize = 0x40000;

/// The trampoline page: the highest page of the space.
pub const TRAMPOLINE: u64 = 0x7f_ffff_f000;

/// Trap contexts of a process's threads are stacked below the trampoline.
pub const TRAP_CONTEXT_BASE: u64 = 0x7f_ffff_e000;

/// Ticks per second of the platform's clock.
pub const CLOCK_FREQ: usize = 12500000;

/// Timer interrupts per second.
pub const TICKS_PER_SEC: usize = 25;

pub const MSEC_PER_SEC: usize = 1000;

pub const USEC_PER_SEC: usize = 1_000_000;

} // verus!

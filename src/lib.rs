//! A teaching kernel's memory-virtualisation and concurrency core, as a
//! verified state machine: physical frames, SV39 page tables, address spaces,
//! tasks, timers, blocking synchronisation and trap dispatch.
//!
//! The machine is single-core. Its shared state (frame pool, ready queue,
//! process table, timers) is held in explicit values passed by `&mut`, so
//! exclusive access is checked by the borrow checker rather than by masking
//! interrupts at run time.

/// Page sizes, address-space layout and clock constants.
pub mod config;
/// Page numbers and addresses.
pub mod address;
/// Physical memory and the stack allocator of frames.
pub mod frame_allocator;
/// SV39 page-table entries and tables.
pub mod page_table;
/// Address spaces made of framed areas, and access to user memory.
pub mod memory_set;
/// Mutexes, semaphores and condition variables over task ids.
pub mod sync;
/// Clock conversions and the queue of sleeping tasks.
pub mod timer;
/// Task contexts, user resources, task records and the ready queue.
pub mod task;
/// The scheduler, the processes' object tables, the system calls and the
/// trap dispatcher.
pub mod kernel;
/// Trap contexts, signals and trap causes.
pub mod trap;
/// Open flags and path resolution.
pub mod path;

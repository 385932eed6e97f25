use vstd::prelude::*;
use std::collections::VecDeque;
use crate::address::{PhysPageNum, VirtAddr, VirtPageNum};
use crate::config::{PAGE_SIZE, TRAP_CONTEXT_BASE, USER_STACK_SIZE, VA_LIMIT};
use crate::frame_allocator::FramePool;
use crate::memory_set::{frames_for, range_disjoint, MemorySet};
use crate::trap::{GeneralRegs, TrapContext};
use crate::page_table::{lemma_pool_kept_trans, pool_kept, MapPermission, PageTableEntry};

verus! {

/// Where a task stands with the scheduler.
#[derive(Clone, Copy, PartialEq, Eq, Structural, Debug)]
pub enum TaskStatus {
    Ready,
    Running,
    Blocked,
}

/// The registers a task needs to resume inside the kernel: return address,
/// stack pointer and the callee-saved registers.
#[derive(Clone, Copy, Debug)]
pub struct TaskContext {
    pub ra: usize,
    pub sp: usize,
    pub s: [usize; 12],
}

impl TaskContext {
    /// A context of zeros.
    pub fn zero_init() -> (r: TaskContext)
        ensures
            r.ra == 0,
            r.sp == 0,
            forall|i: int| 0 <= i < 12 ==> r.s@[i] == 0,
    {
        TaskContext { ra: 0, sp: 0, s: [0; 12] }
    }

    /// A context that, when switched to, enters `trap_return` on the kernel
    /// stack whose top is `kstack_ptr`.
    pub fn goto_trap_return(trap_return: usize, kstack_ptr: usize) -> (r: TaskContext)
        ensures
            r.ra == trap_return,
            r.sp == kstack_ptr,
            forall|i: int| 0 <= i < 12 ==> r.s@[i] == 0,
    {
        TaskContext { ra: trap_return, sp: kstack_ptr, s: [0; 12] }
    }
}

/// The lowest address of thread `tid`'s trap-context page.
pub open spec fn trap_cx_bottom(tid: int) -> int {
    TRAP_CONTEXT_BASE - tid * PAGE_SIZE
}

/// The lowest address of thread `tid`'s user stack; stacks are spaced by
/// one guard page.
pub open spec fn ustack_bottom(ustack_base: int, tid: int) -> int {
    ustack_base + tid * (PAGE_SIZE + USER_STACK_SIZE)
}

/// Thread ids handed out by a process: a counter and the ids given back.
pub struct RecycleAllocator {
    current: usize,
    recycled: Vec<usize>,
}

impl RecycleAllocator {
    pub closed spec fn current(&self) -> nat {
        self.current as nat
    }

    pub closed spec fn recycled(&self) -> Seq<usize> {
        self.recycled@
    }

    /// Id `id` is in use.
    pub open spec fn in_use(&self, id: int) -> bool {
        0 <= id < self.current() && !self.recycled().contains(id as usize)
    }

    pub open spec fn wf(&self) -> bool {
        &&& self.recycled().no_duplicates()
        &&& forall|i: int| 0 <= i < self.recycled().len() ==> #[trigger] self.recycled()[i] < self.current()
    }

    pub fn new() -> (r: RecycleAllocator)
        ensures
            r.wf(),
            r.current() == 0,
            r.recycled().len() == 0,
    {
        RecycleAllocator { current: 0, recycled: Vec::new() }
    }

    /// An id not in use: the last one given back, else the next new one.
    /// The id `alloc_id` hands out next.
    pub open spec fn next_id(&self) -> usize {
        if self.recycled().len() > 0 {
            self.recycled().last()
        } else {
            self.current() as usize
        }
    }

    pub fn alloc_id(&mut self) -> (r: usize)
        requires
            old(self).wf(),
            old(self).current() < usize::MAX,
        ensures
            r == old(self).next_id(),
            final(self).wf(),
            !old(self).in_use(r as int),
            final(self).in_use(r as int),
            forall|i: int| i != r ==> final(self).in_use(i) == old(self).in_use(i),
            old(self).recycled().len() > 0 ==> r == old(self).recycled().last(),
            old(self).recycled().len() == 0 ==> r == old(self).current(),
    {
        match self.recycled.pop() {
            Some(id) => {
                proof {
                    let o = old(self).recycled();
                    assert(o == self.recycled@.push(id));
                    assert forall|i: int| i != id implies self.in_use(i) == old(self).in_use(i) by {
                        if 0 <= i < self.current && o.contains(i as usize) {
                            let k = choose|k: int| 0 <= k < o.len() && o[k] == i as usize;
                            assert(k < o.len() - 1);
                            assert(self.recycled@[k] == i as usize);
                        }
                    }
                    assert(!self.recycled@.contains(id)) by {
                        if self.recycled@.contains(id) {
                            let k = choose|k: int| 0 <= k < self.recycled@.len() && self.recycled@[k] == id;
                            assert(o[k] == o[o.len() - 1]);
                        }
                    }
                    assert(o[o.len() - 1] == id);
                }
                id
            },
            None => {
                self.current = self.current + 1;
                proof {
                    assert(!self.recycled@.contains((self.current - 1) as usize)) by {
                        if self.recycled@.contains((self.current - 1) as usize) {
                            let k = choose|k: int| 0 <= k < self.recycled@.len() && self.recycled@[k] == (self.current - 1) as usize;
                        }
                    }
                }
                self.current - 1
            },
        }
    }

    /// Gives back id `id`, which must be in use.
    pub fn dealloc(&mut self, id: usize)
        requires
            old(self).wf(),
            old(self).in_use(id as int),
        ensures
            final(self).wf(),
            !final(self).in_use(id as int),
            forall|i: int| i != id ==> final(self).in_use(i) == old(self).in_use(i),
    {
        self.recycled.push(id);
        proof {
            let o = old(self).recycled();
            assert(self.recycled@ == o.push(id));
            assert(self.recycled@[o.len() as int] == id);
            assert forall|i: int| i != id implies self.in_use(i) == old(self).in_use(i) by {
                if 0 <= i < self.current && self.recycled@.contains(i as usize) {
                    let k = choose|k: int| 0 <= k < self.recycled@.len() && self.recycled@[k] == i as usize;
                    assert(k < o.len());
                    assert(o[k] == i as usize);
                }
                if 0 <= i < self.current && o.contains(i as usize) {
                    let k = choose|k: int| 0 <= k < o.len() && o[k] == i as usize;
                    assert(self.recycled@[k] == i as usize);
                }
            }
            assert forall|i: int, j: int| 0 <= i < j < self.recycled@.len() implies self.recycled@[i] != self.recycled@[j] by {
                if j == o.len() {
                    assert(o[i] == self.recycled@[i]);
                    assert(o.contains(o[i]));
                }
            }
        }
    }
}

/// The user-side resources of one thread: its id, its user stack and its
/// trap-context page, both in its process's address space.
#[derive(Clone, Copy, Debug)]
pub struct TaskUserRes {
    pub tid: usize,
    pub ustack_base: u64,
    pub pid: usize,
}

impl TaskUserRes {
    pub open spec fn ranges_ok(&self) -> bool {
        &&& self.ustack_base % PAGE_SIZE as u64 == 0
        &&& self.tid * PAGE_SIZE <= TRAP_CONTEXT_BASE
        &&& ustack_bottom(self.ustack_base as int, self.tid as int) + USER_STACK_SIZE <= trap_cx_bottom(self.tid as int)
    }

    /// The resources of thread `tid` of process `pid`; its stack and trap
    /// context are not mapped yet.
    pub fn new(pid: usize, tid: usize, ustack_base: u64) -> (r: TaskUserRes)
        ensures
            r.tid == tid,
            r.pid == pid,
            r.ustack_base == ustack_base,
    {
        TaskUserRes { tid, ustack_base, pid }
    }

    /// Takes a fresh thread id from the process's allocator `ids`.
    pub fn alloc_tid(&mut self, ids: &mut RecycleAllocator)
        requires
            old(ids).wf(),
            old(ids).current() < usize::MAX,
        ensures
            final(ids).wf(),
            !old(ids).in_use(final(self).tid as int),
            final(ids).in_use(final(self).tid as int),
            forall|i: int| i != final(self).tid ==> final(ids).in_use(i) == old(ids).in_use(i),
            final(self).pid == old(self).pid,
            final(self).ustack_base == old(self).ustack_base,
    {
        self.tid = ids.alloc_id();
    }

    /// Gives the thread's id back to the process's allocator `ids`.
    pub fn dealloc_tid(&self, ids: &mut RecycleAllocator)
        requires
            old(ids).wf(),
            old(ids).in_use(self.tid as int),
        ensures
            final(ids).wf(),
            !final(ids).in_use(self.tid as int),
            forall|i: int| i != self.tid ==> final(ids).in_use(i) == old(ids).in_use(i),
    {
        ids.dealloc(self.tid);
    }

    pub fn ustack_base(&self) -> (r: u64)
        ensures
            r == self.ustack_base,
    {
        self.ustack_base
    }

    /// The top of the thread's user stack.
    pub fn ustack_top(&self) -> (r: u64)
        requires
            self.ranges_ok(),
        ensures
            r == ustack_bottom(self.ustack_base as int, self.tid as int) + USER_STACK_SIZE,
    {
        proof {
            assert(self.tid * PAGE_SIZE <= TRAP_CONTEXT_BASE);
        }
        self.ustack_base + self.tid as u64 * (PAGE_SIZE + USER_STACK_SIZE) as u64 + USER_STACK_SIZE as u64
    }

    /// The virtual address of the thread's trap context.
    pub fn trap_cx_user_va(&self) -> (r: u64)
        requires
            self.tid * PAGE_SIZE <= TRAP_CONTEXT_BASE,
        ensures
            r == trap_cx_bottom(self.tid as int),
    {
        TRAP_CONTEXT_BASE - self.tid as u64 * PAGE_SIZE as u64
    }

    /// Maps the thread's user stack (readable, writable, user) and its
    /// trap-context page (readable, writable) in `ms`, in fresh frames.
    pub fn alloc_user_res(&self, ms: &mut MemorySet, pool: &mut FramePool)
        requires
            self.ranges_ok(),
            old(ms).wf(),
            old(pool).wf(),
            old(ms).owns_frames(old(pool)),
            old(pool).allocator.free_count() >= frames_for(USER_STACK_SIZE as int / PAGE_SIZE as int) + frames_for(1),
            forall|i: int|
                0 <= i < old(ms).areas@.len() ==> range_disjoint(
                    #[trigger] old(ms).areas@[i],
                    ustack_bottom(self.ustack_base as int, self.tid as int) / PAGE_SIZE as int,
                    ustack_bottom(self.ustack_base as int, self.tid as int) / PAGE_SIZE as int + USER_STACK_SIZE as int
                        / PAGE_SIZE as int,
                ),
            forall|i: int|
                0 <= i < old(ms).areas@.len() ==> range_disjoint(
                    #[trigger] old(ms).areas@[i],
                    trap_cx_bottom(self.tid as int) / PAGE_SIZE as int,
                    trap_cx_bottom(self.tid as int) / PAGE_SIZE as int + 1,
                ),
        ensures
            final(ms).wf(),
            final(ms).owns_frames(final(pool)),
            pool_kept(old(pool), final(pool)),
            final(pool).allocator.free_count() + frames_for(USER_STACK_SIZE as int / PAGE_SIZE as int) + frames_for(1)
                >= old(pool).allocator.free_count(),
            final(ms).areas@.len() == old(ms).areas@.len() + 2,
            forall|i: int| 0 <= i < old(ms).areas@.len() ==> final(ms).areas@[i] == old(ms).areas@[i],
            ({
                let a = final(ms).areas@[old(ms).areas@.len() as int];
                &&& a.start.0 == ustack_bottom(self.ustack_base as int, self.tid as int) / PAGE_SIZE as int
                &&& a.end.0 == a.start.0 + USER_STACK_SIZE as int / PAGE_SIZE as int
                &&& a.perm.bits == MapPermission::R + MapPermission::W + MapPermission::U
            }),
            ({
                let a = final(ms).areas@[old(ms).areas@.len() + 1int];
                &&& a.start.0 == trap_cx_bottom(self.tid as int) / PAGE_SIZE as int
                &&& a.end.0 == a.start.0 + 1
                &&& a.perm.bits == MapPermission::R + MapPermission::W
            }),
            final(ms).lookup(trap_cx_bottom(self.tid as int) / PAGE_SIZE as int).is_some(),
            forall|i: int, j: int, o: int|
                old(ms).areas@.len() <= i < final(ms).areas@.len() && 0 <= j < final(ms).areas@[i].frames@.len() && 0 <= o
                    < PAGE_SIZE ==> #[trigger] final(pool).memory.byte(final(ms).areas@[i].frames@[j].ppn.0 as int, o) == 0,
    {
        let ub = self.ustack_base + self.tid as u64 * (PAGE_SIZE + USER_STACK_SIZE) as u64;
        let ut = ub + USER_STACK_SIZE as u64;
        let perm_stack = MapPermission { bits: MapPermission::R + MapPermission::W + MapPermission::U };
        proof {
            assert(ub % 4096 == 0) by (nonlinear_arith)
                requires
                    ub == self.ustack_base + self.tid * (4096 + 0x40000),
                    self.ustack_base % 4096 == 0,
            ;
            assert(ub / 4096 + 64 == ut / 4096);
            assert((ut + 4095) / 4096 == ut / 4096);
        }
        ms.insert_framed_area(VirtAddr(ub), VirtAddr(ut), perm_stack, pool);
        let ghost pool_a = *pool;
        let ghost ms_a = *ms;
        let tb = TRAP_CONTEXT_BASE - self.tid as u64 * PAGE_SIZE as u64;
        let perm_cx = MapPermission { bits: MapPermission::R + MapPermission::W };
        proof {
            assert(tb % 4096 == 0) by (nonlinear_arith)
                requires
                    tb == 0x7f_ffff_e000 - self.tid * 4096,
            ;
            let n = ms.areas@.len() - 1;
            assert forall|i: int| 0 <= i < ms.areas@.len() implies range_disjoint(
                #[trigger] ms.areas@[i], tb as int / 4096, (tb + 4096 + 4095) / 4096) by {
                if i < n {
                    assert(range_disjoint(old(ms).areas@[i], tb as int / 4096, tb as int / 4096 + 1));
                }
            }
        }
        ms.insert_framed_area(VirtAddr(tb), VirtAddr(tb + PAGE_SIZE as u64), perm_cx, pool);
        proof {
            lemma_pool_kept_trans(old(pool), &pool_a, pool);
            let n = old(ms).areas@.len() as int;
            assert forall|i: int, j: int, o: int|
                n <= i < ms.areas@.len() && 0 <= j < ms.areas@[i].frames@.len() && 0 <= o < PAGE_SIZE
                implies #[trigger] pool.memory.byte(ms.areas@[i].frames@[j].ppn.0 as int, o) == 0 by {
                if i == n {
                    assert(ms.areas@[n] == ms_a.areas@[n]);
                    assert(ms_a.areas@.last() == ms_a.areas@[n]);
                    let f = ms_a.areas@[n].frames@[j].ppn.0 as int;
                    assert(pool_a.memory.byte(f, o) == 0);
                    assert(ms_a.in_frames(n, j));
                    assert(pool_a.allocator.is_allocated(ms_a.frame_at(n, j)));
                    assert(pool.same_frame(&pool_a, f));
                } else {
                    assert(ms.areas@.last() == ms.areas@[i]);
                }
            }
            let v = tb as int / 4096;
            assert(ms.areas@.last().contains(v));
        }
    }

    /// Unmaps the thread's user stack and trap-context page from `ms` and
    /// gives their frames back.
    pub fn dealloc_user_res(&self, ms: &mut MemorySet, pool: &mut FramePool)
        requires
            self.ranges_ok(),
            old(ms).wf(),
            old(pool).wf(),
            old(ms).owns_frames(old(pool)),
            exists|i: int| 0 <= i < old(ms).areas@.len() && (#[trigger] old(ms).areas@[i]).start.0
                == ustack_bottom(self.ustack_base as int, self.tid as int) / PAGE_SIZE as int,
            exists|i: int| 0 <= i < old(ms).areas@.len() && (#[trigger] old(ms).areas@[i]).start.0
                == trap_cx_bottom(self.tid as int) / PAGE_SIZE as int,
        ensures
            final(ms).wf(),
            final(ms).owns_frames(final(pool)),
            final(pool).wf(),
            final(ms).areas@.len() == old(ms).areas@.len() - 2,
    {
        let ub = self.ustack_base + self.tid as u64 * (PAGE_SIZE + USER_STACK_SIZE) as u64;
        let tb = TRAP_CONTEXT_BASE - self.tid as u64 * PAGE_SIZE as u64;
        let vu = VirtAddr(ub).floor();
        let vt = VirtAddr(tb).floor();
        ms.remove_area_with_start_vpn(vu, pool);
        proof {
            let iu = choose|i: int| 0 <= i < old(ms).areas@.len() && (#[trigger] old(ms).areas@[i]).start == vu
                && ms.areas@ == old(ms).areas@.remove(i) && true;
            let it = choose|i: int| 0 <= i < old(ms).areas@.len() && (#[trigger] old(ms).areas@[i]).start.0
                == trap_cx_bottom(self.tid as int) / PAGE_SIZE as int;
            assert(it != iu);
            if it < iu {
                assert(ms.areas@[it] == old(ms).areas@[it]);
            } else {
                assert(ms.areas@[it - 1] == old(ms).areas@[it]);
            }
        }
        ms.remove_area_with_start_vpn(vt, pool);
    }

    /// The frame that holds the thread's trap context, when it is mapped.
    pub fn trap_cx_ppn(&self, ms: &MemorySet) -> (r: Option<PhysPageNum>)
        requires
            ms.wf(),
            self.tid * PAGE_SIZE <= TRAP_CONTEXT_BASE,
        ensures
            r.is_some() == ms.lookup(trap_cx_bottom(self.tid as int) / PAGE_SIZE as int).is_some(),
            r matches Some(p) ==> p.0 == ms.lookup(trap_cx_bottom(self.tid as int) / PAGE_SIZE as int).unwrap().spec_ppn() as usize,
    {
        let va = VirtAddr(self.trap_cx_user_va());
        match ms.translate(va.floor()) {
            Some(e) => Some(e.ppn()),
            None => None,
        }
    }
}

/// The mutable record of a task.
#[derive(Clone, Copy, Debug)]
pub struct TaskControlBlockInner {
    pub res: Option<TaskUserRes>,
    pub trap_cx_ppn: PhysPageNum,
    pub task_cx: TaskContext,
    pub task_status: TaskStatus,
    pub exit_code: Option<i32>,
    /// The user registers saved at the task's last trap.
    pub trap_cx: TrapContext,
    /// Signals posted to the task and not yet acted on.
    pub signals: u32,
    /// A mutex (by its id in the task's process) that the task must take
    /// before it returns to user mode: after a condition-variable wait, or
    /// after it found a spin mutex held.
    pub pending_lock: Option<usize>,
}

impl TaskControlBlockInner {
    /// The frame that holds the task's trap context.
    pub fn get_trap_cx(&self) -> (r: PhysPageNum)
        ensures
            r == self.trap_cx_ppn,
    {
        self.trap_cx_ppn
    }

    pub fn get_status(&self) -> (r: TaskStatus)
        ensures
            r == self.task_status,
    {
        self.task_status
    }
}

/// A task: the unit the scheduler runs, a thread of process `pid`.
#[derive(Clone, Copy, Debug)]
pub struct TaskControlBlock {
    pub pid: usize,
    pub kstack_top: usize,
    pub inner: TaskControlBlockInner,
}

impl TaskControlBlock {
    /// A ready task of process `pid` made of the given parts: when first
    /// switched to, it enters `trap_return` on its kernel stack.
    pub fn from_parts(pid: usize, res: Option<TaskUserRes>, trap_cx_ppn: PhysPageNum, kstack_top: usize, trap_return: usize) -> (r: TaskControlBlock)
        ensures
            r.pid == pid,
            r.kstack_top == kstack_top,
            r.inner.res == res,
            r.inner.trap_cx_ppn == trap_cx_ppn,
            r.inner.task_cx.ra == trap_return,
            r.inner.task_cx.sp == kstack_top,
            r.inner.task_status == TaskStatus::Ready,
            r.inner.exit_code.is_none(),
            r.inner.signals == 0,
            r.inner.pending_lock.is_none(),
    {
        TaskControlBlock {
            pid,
            kstack_top,
            inner: TaskControlBlockInner {
                res,
                trap_cx_ppn,
                task_cx: TaskContext::goto_trap_return(trap_return, kstack_top),
                task_status: TaskStatus::Ready,
                exit_code: None,
                trap_cx: TrapContext {
                    general_regs: GeneralRegs { x: [0; 32] },
                    sstatus: 0,
                    sepc: 0,
                    kernel_satp: 0,
                    kernel_sp: kstack_top,
                    trap_handler: 0,
                },
                signals: 0,
                pending_lock: None,
            },
        }
    }

    /// A new thread of process `pid`: it takes a fresh thread id from
    /// `ids`, maps its user stack and trap-context page in the process's
    /// space `ms` when `alloc_user_res` is set (else they must be mapped
    /// already), records the frame of its trap context, and starts at
    /// `trap_return` on the kernel stack whose top is `kstack_top`.
    pub fn new(
        pid: usize,
        ustack_base: u64,
        alloc_user_res: bool,
        ids: &mut RecycleAllocator,
        ms: &mut MemorySet,
        pool: &mut FramePool,
        kstack_top: usize,
        trap_return: usize,
    ) -> (r: TaskControlBlock)
        requires
            old(ids).wf(),
            old(ids).current() < usize::MAX,
            (TaskUserRes { tid: old(ids).next_id(), ustack_base, pid }).ranges_ok(),
            old(ms).wf(),
            old(pool).wf(),
            old(ms).owns_frames(old(pool)),
            alloc_user_res ==> old(pool).allocator.free_count() >= frames_for(USER_STACK_SIZE as int / PAGE_SIZE as int)
                + frames_for(1),
            alloc_user_res ==> forall|i: int|
                0 <= i < old(ms).areas@.len() ==> range_disjoint(
                    #[trigger] old(ms).areas@[i],
                    ustack_bottom(ustack_base as int, old(ids).next_id() as int) / PAGE_SIZE as int,
                    ustack_bottom(ustack_base as int, old(ids).next_id() as int) / PAGE_SIZE as int
                        + USER_STACK_SIZE as int / PAGE_SIZE as int,
                ),
            alloc_user_res ==> forall|i: int|
                0 <= i < old(ms).areas@.len() ==> range_disjoint(
                    #[trigger] old(ms).areas@[i],
                    trap_cx_bottom(old(ids).next_id() as int) / PAGE_SIZE as int,
                    trap_cx_bottom(old(ids).next_id() as int) / PAGE_SIZE as int + 1,
                ),
            !alloc_user_res ==> old(ms).lookup(trap_cx_bottom(old(ids).next_id() as int) / PAGE_SIZE as int).is_some(),
        ensures
            r.pid == pid,
            r.kstack_top == kstack_top,
            r.inner.res == Some(TaskUserRes { tid: old(ids).next_id(), ustack_base, pid }),
            !old(ids).in_use(old(ids).next_id() as int),
            final(ids).wf(),
            final(ids).in_use(old(ids).next_id() as int),
            forall|i: int| i != old(ids).next_id() ==> final(ids).in_use(i) == old(ids).in_use(i),
            final(ms).wf(),
            final(ms).owns_frames(final(pool)),
            pool_kept(old(pool), final(pool)),
            !alloc_user_res ==> *final(ms) == *old(ms) && *final(pool) == *old(pool),
            alloc_user_res ==> final(ms).areas@.len() == old(ms).areas@.len() + 2 && forall|i: int|
                0 <= i < old(ms).areas@.len() ==> final(ms).areas@[i] == old(ms).areas@[i],
            final(ms).lookup(trap_cx_bottom(old(ids).next_id() as int) / PAGE_SIZE as int).is_some(),
            r.inner.trap_cx_ppn.0 == final(ms).lookup(trap_cx_bottom(old(ids).next_id() as int) / PAGE_SIZE as int).unwrap().spec_ppn() as usize,
            r.inner.task_cx.ra == trap_return,
            r.inner.task_cx.sp == kstack_top,
            r.inner.task_status == TaskStatus::Ready,
            r.inner.exit_code.is_none(),
            r.inner.pending_lock.is_none(),
    {
        let tid = ids.alloc_id();
        let res = TaskUserRes::new(pid, tid, ustack_base);
        if alloc_user_res {
            res.alloc_user_res(ms, pool);
        } else {
            proof {
                assert forall|p: int| old(pool).memory.covers(p) && !old(pool).allocator.is_free(p)
                    implies #[trigger] pool.same_frame(old(pool), p) by {}
            }
        }
        let ppn = res.trap_cx_ppn(ms).unwrap();
        TaskControlBlock::from_parts(pid, Some(res), ppn, kstack_top, trap_return)
    }

    /// The token of the task's address space, given its process's space.
    pub fn get_user_token(&self, ms: &MemorySet) -> (r: u64)
        requires
            ms.wf(),
            ms.page_table.root().0 < crate::config::PPN_LIMIT,
        ensures
            r == 0x8000_0000_0000_0000 + ms.page_table.root().0,
    {
        ms.token()
    }
}

/// The ready queue: tasks by index, strictly first in, first out.
pub struct TaskManager {
    ready_queue: VecDeque<usize>,
}

impl TaskManager {
    pub closed spec fn queue(&self) -> Seq<usize> {
        self.ready_queue@
    }

    pub fn new() -> (r: TaskManager)
        ensures
            r.queue().len() == 0,
    {
        TaskManager { ready_queue: VecDeque::new() }
    }

    /// Appends `task`.
    pub fn add(&mut self, task: usize)
        ensures
            final(self).queue() == old(self).queue().push(task),
    {
        self.ready_queue.push_back(task);
    }

    /// Takes the first task.
    pub fn fetch(&mut self) -> (r: Option<usize>)
        ensures
            old(self).queue().len() == 0 ==> r.is_none() && final(self).queue() == old(self).queue(),
            old(self).queue().len() > 0 ==> r == Some(old(self).queue()[0]) && final(self).queue()
                == old(self).queue().drop_first(),
    {
        self.ready_queue.pop_front()
    }

    pub fn len(&self) -> (r: usize)
        ensures
            r == self.queue().len(),
    {
        self.ready_queue.len()
    }

    /// The first ready task of process `pid`.
    pub fn find_by_pid(&self, tasks: &Vec<TaskControlBlock>, pid: usize) -> (r: Option<usize>)
        ensures
            r.is_none() ==> forall|i: int|
                0 <= i < self.queue().len() && self.queue()[i] < tasks@.len() ==> tasks@[self.queue()[i] as int].pid != pid,
            r matches Some(t) ==> exists|i: int|
                0 <= i < self.queue().len() && self.queue()[i] == t && t < tasks@.len() && tasks@[t as int].pid == pid
                    && forall|j: int|
                    0 <= j < i && self.queue()[j] < tasks@.len() ==> tasks@[self.queue()[j] as int].pid != pid,
    {
        let mut i: usize = 0;
        while i < self.ready_queue.len()
            invariant
                i <= self.queue().len(),
                forall|j: int|
                    0 <= j < i && self.queue()[j] < tasks@.len() ==> tasks@[self.queue()[j] as int].pid != pid,
            decreases self.queue().len() - i,
        {
            let t = self.ready_queue[i];
            if t < tasks.len() && tasks[t].pid == pid {
                return Some(t);
            }
            i = i + 1;
        }
        None
    }
}

} // verus!

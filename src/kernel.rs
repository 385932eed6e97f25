use vstd::prelude::*;
use crate::sync::{lock_post, unlock_post, down_spec, up_spec, Condvar, Mutex, Semaphore};
use crate::task::{TaskContext, TaskControlBlock, TaskManager, TaskStatus, TaskUserRes};
use crate::timer::{tasks_of, TimerCondVar, TimerQueue};
use crate::address::PhysPageNum;
use crate::trap::{fatal_code, SignalFlags, TrapCause, TrapContext};

verus! {

/// A process: its id and its tables of synchronisation objects, indexed by
/// the ids its threads use. A freed slot is `None` and is reused.
pub struct ProcessControlBlock {
    pub pid: usize,
    pub mutex_list: Vec<Option<Mutex>>,
    pub semaphore_list: Vec<Option<Semaphore>>,
    pub condvar_list: Vec<Option<Condvar>>,
}

impl ProcessControlBlock {
    pub open spec fn wf(&self) -> bool {
        &&& forall|i: int|
            0 <= i < self.mutex_list@.len() && (#[trigger] self.mutex_list@[i]) is Some
                ==> self.mutex_list@[i].unwrap().wf()
        &&& forall|i: int|
            0 <= i < self.semaphore_list@.len() && (#[trigger] self.semaphore_list@[i]) is Some
                ==> self.semaphore_list@[i].unwrap().wf()
    }

    /// A process with empty tables.
    pub fn new(pid: usize) -> (r: ProcessControlBlock)
        ensures
            r.wf(),
            r.pid == pid,
            r.mutex_list@.len() == 0,
            r.semaphore_list@.len() == 0,
            r.condvar_list@.len() == 0,
    {
        ProcessControlBlock { pid, mutex_list: Vec::new(), semaphore_list: Vec::new(), condvar_list: Vec::new() }
    }
}

impl ProcessControlBlock {
    /// The same process with the same tables.
    pub open spec fn same_as(&self, old: &ProcessControlBlock) -> bool {
        &&& self.pid == old.pid
        &&& self.mutex_list@ == old.mutex_list@
        &&& self.semaphore_list@ == old.semaphore_list@
        &&& self.condvar_list@ == old.condvar_list@
    }

    /// Only the mutex table differs between `self` and `old`, at slot `id`.
    pub open spec fn mutex_changed(&self, old: &ProcessControlBlock, id: int) -> bool {
        &&& self.pid == old.pid
        &&& self.semaphore_list@ == old.semaphore_list@
        &&& self.condvar_list@ == old.condvar_list@
        &&& self.mutex_list@.len() == old.mutex_list@.len()
        &&& forall|i: int| 0 <= i < self.mutex_list@.len() && i != id ==> #[trigger] self.mutex_list@[i] == old.mutex_list@[i]
        &&& self.mutex_list@[id] is Some
    }

    /// Only the semaphore table differs between `self` and `old`, at slot `id`.
    pub open spec fn semaphore_changed(&self, old: &ProcessControlBlock, id: int) -> bool {
        &&& self.pid == old.pid
        &&& self.mutex_list@ == old.mutex_list@
        &&& self.condvar_list@ == old.condvar_list@
        &&& self.semaphore_list@.len() == old.semaphore_list@.len()
        &&& forall|i: int| 0 <= i < self.semaphore_list@.len() && i != id ==> #[trigger] self.semaphore_list@[i] == old.semaphore_list@[i]
        &&& self.semaphore_list@[id] is Some
    }

    /// One lock attempt of task `cur` on mutex `id`: `None` when there is no
    /// such mutex, else whether it was acquired and whether the mutex blocks.
    pub fn mutex_lock(&mut self, id: usize, cur: usize) -> (r: Option<(bool, bool)>)
        requires
            old(self).wf(),
        ensures
            final(self).wf(),
            r.is_none() <==> !(id < old(self).mutex_list@.len() && old(self).mutex_list@[id as int] is Some),
            r.is_none() ==> final(self).same_as(old(self)),
            r matches Some((acquired, blocking)) ==> {
                &&& final(self).mutex_changed(old(self), id as int)
                &&& lock_post(old(self).mutex_list@[id as int].unwrap(), final(self).mutex_list@[id as int].unwrap(), cur, acquired)
                &&& blocking == old(self).mutex_list@[id as int].unwrap().is_blocking()
            },
    {
        if id >= self.mutex_list.len() {
            return None;
        }
        let ghost o = *old(self);
        let mut slot = self.mutex_list.remove(id);
        let r = match slot {
            Some(ref mut m) => {
                let blocking = match m {
                    Mutex::Blocking(_) => true,
                    Mutex::Spin(_) => false,
                };
                Some((m.lock(cur), blocking))
            },
            None => None,
        };
        self.mutex_list.insert(id, slot);
        proof {
            assert(self.mutex_list@ =~= o.mutex_list@.update(id as int, slot));
            if r.is_none() {
                assert(self.mutex_list@ =~= o.mutex_list@);
            }
            assert forall|i: int| 0 <= i < self.mutex_list@.len() && (#[trigger] self.mutex_list@[i]) is Some
                implies self.mutex_list@[i].unwrap().wf() by {
                if i != id {
                    assert(self.mutex_list@[i] == o.mutex_list@[i]);
                }
            }
        }
        r
    }

    /// Releases mutex `id`: `None` when there is no such mutex, else the
    /// task that the mutex was handed to, if any.
    pub fn mutex_unlock(&mut self, id: usize) -> (r: Option<Option<usize>>)
        requires
            old(self).wf(),
            id < old(self).mutex_list@.len() && old(self).mutex_list@[id as int] is Some
                && old(self).mutex_list@[id as int].unwrap().is_blocking()
                ==> old(self).mutex_list@[id as int].unwrap().is_locked(),
        ensures
            final(self).wf(),
            r.is_none() <==> !(id < old(self).mutex_list@.len() && old(self).mutex_list@[id as int] is Some),
            r.is_none() ==> final(self).same_as(old(self)),
            r matches Some(woken) ==> {
                &&& final(self).mutex_changed(old(self), id as int)
                &&& unlock_post(old(self).mutex_list@[id as int].unwrap(), final(self).mutex_list@[id as int].unwrap(), woken)
            },
    {
        if id >= self.mutex_list.len() {
            return None;
        }
        let ghost o = *old(self);
        let mut slot = self.mutex_list.remove(id);
        let r = match slot {
            Some(ref mut m) => Some(m.unlock()),
            None => None,
        };
        self.mutex_list.insert(id, slot);
        proof {
            assert(self.mutex_list@ =~= o.mutex_list@.update(id as int, slot));
            if r.is_none() {
                assert(self.mutex_list@ =~= o.mutex_list@);
            }
            assert forall|i: int| 0 <= i < self.mutex_list@.len() && (#[trigger] self.mutex_list@[i]) is Some
                implies self.mutex_list@[i].unwrap().wf() by {
                if i != id {
                    assert(self.mutex_list@[i] == o.mutex_list@[i]);
                }
            }
        }
        r
    }

    /// `up` on semaphore `id`: `None` when there is no such semaphore or its
    /// count is at its largest, else the task it frees, if any.
    pub fn semaphore_up(&mut self, id: usize) -> (r: Option<Option<usize>>)
        requires
            old(self).wf(),
        ensures
            final(self).wf(),
            r.is_none() <==> !(id < old(self).semaphore_list@.len() && old(self).semaphore_list@[id as int] is Some
                && old(self).semaphore_list@[id as int].unwrap().count() < isize::MAX),
            r.is_none() ==> final(self).same_as(old(self)),
            r matches Some(woken) ==> {
                let a = old(self).semaphore_list@[id as int].unwrap();
                let b = final(self).semaphore_list@[id as int].unwrap();
                &&& final(self).semaphore_changed(old(self), id as int)
                &&& (b.count(), b.queue(), woken) == up_spec(a.count(), a.queue())
            },
    {
        if id >= self.semaphore_list.len() {
            return None;
        }
        let ghost o = *old(self);
        let mut slot = self.semaphore_list.remove(id);
        let r = match slot {
            Some(ref mut sem) => {
                proof {
                    assert(o.semaphore_list@[id as int] is Some);
                }
                if sem.get_count() == isize::MAX {
                    None
                } else {
                    Some(sem.up())
                }
            },
            None => None,
        };
        self.semaphore_list.insert(id, slot);
        proof {
            assert(self.semaphore_list@ =~= o.semaphore_list@.update(id as int, slot));
            if r.is_none() {
                assert(self.semaphore_list@ =~= o.semaphore_list@);
            }
            assert forall|i: int| 0 <= i < self.semaphore_list@.len() && (#[trigger] self.semaphore_list@[i]) is Some
                implies self.semaphore_list@[i].unwrap().wf() by {
                if i != id {
                    assert(self.semaphore_list@[i] == o.semaphore_list@[i]);
                }
            }
        }
        r
    }

    /// `down` by task `cur` on semaphore `id`: `None` when there is no such
    /// semaphore or its count is at its smallest, else whether `cur` must
    /// block.
    pub fn semaphore_down(&mut self, id: usize, cur: usize) -> (r: Option<bool>)
        requires
            old(self).wf(),
        ensures
            final(self).wf(),
            r.is_none() <==> !(id < old(self).semaphore_list@.len() && old(self).semaphore_list@[id as int] is Some
                && old(self).semaphore_list@[id as int].unwrap().count() > isize::MIN),
            r.is_none() ==> final(self).same_as(old(self)),
            r matches Some(blocked) ==> {
                let a = old(self).semaphore_list@[id as int].unwrap();
                let b = final(self).semaphore_list@[id as int].unwrap();
                &&& final(self).semaphore_changed(old(self), id as int)
                &&& (b.count(), b.queue(), blocked) == down_spec(a.count(), a.queue(), cur)
            },
    {
        if id >= self.semaphore_list.len() {
            return None;
        }
        let ghost o = *old(self);
        let mut slot = self.semaphore_list.remove(id);
        let r = match slot {
            Some(ref mut sem) => {
                proof {
                    assert(o.semaphore_list@[id as int] is Some);
                }
                if sem.get_count() == isize::MIN {
                    None
                } else {
                    Some(sem.down(cur))
                }
            },
            None => None,
        };
        self.semaphore_list.insert(id, slot);
        proof {
            assert(self.semaphore_list@ =~= o.semaphore_list@.update(id as int, slot));
            if r.is_none() {
                assert(self.semaphore_list@ =~= o.semaphore_list@);
            }
            assert forall|i: int| 0 <= i < self.semaphore_list@.len() && (#[trigger] self.semaphore_list@[i]) is Some
                implies self.semaphore_list@[i].unwrap().wf() by {
                if i != id {
                    assert(self.semaphore_list@[i] == o.semaphore_list@[i]);
                }
            }
        }
        r
    }

    /// Signals condition variable `id`: `None` when there is no such
    /// condition variable, else the waiter taken off its queue, if any.
    pub fn condvar_signal(&mut self, id: usize) -> (r: Option<Option<usize>>)
        requires
            old(self).wf(),
        ensures
            final(self).wf(),
            final(self).pid == old(self).pid,
            final(self).mutex_list@ == old(self).mutex_list@,
            final(self).semaphore_list@ == old(self).semaphore_list@,
            r.is_none() <==> !(id < old(self).condvar_list@.len() && old(self).condvar_list@[id as int] is Some),
            r.is_none() ==> final(self).condvar_list@ == old(self).condvar_list@,
            r matches Some(woken) ==> {
                let a = old(self).condvar_list@[id as int].unwrap();
                let b = final(self).condvar_list@[id as int];
                &&& final(self).condvar_list@ == old(self).condvar_list@.update(id as int, b)
                &&& b is Some
                &&& a.queue().len() == 0 ==> woken.is_none() && b.unwrap().queue() == a.queue()
                &&& a.queue().len() > 0 ==> woken == Some(a.queue()[0]) && b.unwrap().queue() == a.queue().drop_first()
            },
    {
        if id >= self.condvar_list.len() {
            return None;
        }
        let ghost o = *old(self);
        let mut slot = self.condvar_list.remove(id);
        let r = match slot {
            Some(ref mut cv) => Some(cv.signal()),
            None => None,
        };
        self.condvar_list.insert(id, slot);
        proof {
            assert(self.condvar_list@ =~= o.condvar_list@.update(id as int, slot));
            if r.is_none() {
                assert(self.condvar_list@ =~= o.condvar_list@);
            }
        }
        r
    }

    /// Task `cur` waits on condition variable `cv_id` with mutex `m_id`:
    /// the mutex is released and `cur` queued. `None` when either object is
    /// missing; else the task the mutex was handed to, if any.
    pub fn condvar_wait(&mut self, cv_id: usize, m_id: usize, cur: usize) -> (r: Option<Option<usize>>)
        requires
            old(self).wf(),
            m_id < old(self).mutex_list@.len() && old(self).mutex_list@[m_id as int] is Some
                && old(self).mutex_list@[m_id as int].unwrap().is_blocking()
                ==> old(self).mutex_list@[m_id as int].unwrap().is_locked(),
        ensures
            final(self).wf(),
            final(self).pid == old(self).pid,
            final(self).semaphore_list@ == old(self).semaphore_list@,
            r.is_none() <==> !(cv_id < old(self).condvar_list@.len() && old(self).condvar_list@[cv_id as int] is Some
                && m_id < old(self).mutex_list@.len() && old(self).mutex_list@[m_id as int] is Some),
            r.is_none() ==> final(self).same_as(old(self)),
            r matches Some(woken) ==> {
                let cb = final(self).condvar_list@[cv_id as int];
                &&& final(self).condvar_list@ == old(self).condvar_list@.update(cv_id as int, cb)
                &&& cb is Some
                &&& cb.unwrap().queue() == old(self).condvar_list@[cv_id as int].unwrap().queue().push(cur)
                &&& final(self).mutex_list@.len() == old(self).mutex_list@.len()
                &&& forall|i: int| 0 <= i < final(self).mutex_list@.len() && i != m_id ==> #[trigger] final(self).mutex_list@[i] == old(self).mutex_list@[i]
                &&& final(self).mutex_list@[m_id as int] is Some
                &&& unlock_post(old(self).mutex_list@[m_id as int].unwrap(), final(self).mutex_list@[m_id as int].unwrap(), woken)
            },
    {
        if cv_id >= self.condvar_list.len() || m_id >= self.mutex_list.len() {
            return None;
        }
        if self.condvar_list[cv_id].is_none() || self.mutex_list[m_id].is_none() {
            return None;
        }
        let ghost o = *old(self);
        let mut cslot = self.condvar_list.remove(cv_id);
        let mut mslot = self.mutex_list.remove(m_id);
        let mut r: Option<Option<usize>> = None;
        match cslot {
            Some(ref mut cv) => {
                match mslot {
                    Some(ref mut m) => {
                        proof {
                            assert(o.mutex_list@[m_id as int] is Some);
                        }
                        r = Some(cv.wait_with_mutex(cur, m));
                    },
                    None => {},
                }
            },
            None => {},
        }
        self.mutex_list.insert(m_id, mslot);
        self.condvar_list.insert(cv_id, cslot);
        proof {
            assert(self.mutex_list@ =~= o.mutex_list@.update(m_id as int, mslot));
            assert(self.condvar_list@ =~= o.condvar_list@.update(cv_id as int, cslot));
            assert forall|i: int| 0 <= i < self.mutex_list@.len() && (#[trigger] self.mutex_list@[i]) is Some
                implies self.mutex_list@[i].unwrap().wf() by {
                if i != m_id {
                    assert(self.mutex_list@[i] == o.mutex_list@[i]);
                }
            }
        }
        r
    }

    /// Queues task `cur` on condition variable `id`; `false` when there is
    /// no such condition variable.
    pub fn condvar_enqueue(&mut self, id: usize, cur: usize) -> (r: bool)
        requires
            old(self).wf(),
        ensures
            final(self).wf(),
            final(self).pid == old(self).pid,
            final(self).mutex_list@ == old(self).mutex_list@,
            final(self).semaphore_list@ == old(self).semaphore_list@,
            r <==> id < old(self).condvar_list@.len() && old(self).condvar_list@[id as int] is Some,
            !r ==> final(self).condvar_list@ == old(self).condvar_list@,
            r ==> {
                let b = final(self).condvar_list@[id as int];
                &&& final(self).condvar_list@ == old(self).condvar_list@.update(id as int, b)
                &&& b is Some
                &&& b.unwrap().queue() == old(self).condvar_list@[id as int].unwrap().queue().push(cur)
            },
    {
        if id >= self.condvar_list.len() {
            return false;
        }
        let ghost o = *old(self);
        let mut slot = self.condvar_list.remove(id);
        let r = match slot {
            Some(ref mut cv) => {
                cv.wait_no_sched(cur);
                true
            },
            None => false,
        };
        self.condvar_list.insert(id, slot);
        proof {
            assert(self.condvar_list@ =~= o.condvar_list@.update(id as int, slot));
            if !r {
                assert(self.condvar_list@ =~= o.condvar_list@);
            }
        }
        r
    }

    /// Puts `m` in the first free mutex slot; returns the slot.
    pub fn add_mutex(&mut self, m: Mutex) -> (id: usize)
        requires
            old(self).wf(),
            m.wf(),
        ensures
            final(self).wf(),
            first_free(old(self).mutex_list@, id as int),
            final(self).mutex_list@ == if id < old(self).mutex_list@.len() {
                old(self).mutex_list@.update(id as int, Some(m))
            } else {
                old(self).mutex_list@.push(Some(m))
            },
            final(self).pid == old(self).pid,
            final(self).semaphore_list@ == old(self).semaphore_list@,
            final(self).condvar_list@ == old(self).condvar_list@,
    {
        let id = free_slot(&self.mutex_list);
        if id < self.mutex_list.len() {
            self.mutex_list.set(id, Some(m));
        } else {
            self.mutex_list.push(Some(m));
        }
        proof {
            assert forall|i: int| 0 <= i < self.mutex_list@.len() && (#[trigger] self.mutex_list@[i]) is Some
                implies self.mutex_list@[i].unwrap().wf() by {
                if i != id {
                    assert(self.mutex_list@[i] == old(self).mutex_list@[i]);
                }
            }
        }
        id
    }

    /// Puts `sem` in the first free semaphore slot; returns the slot.
    pub fn add_semaphore(&mut self, sem: Semaphore) -> (id: usize)
        requires
            old(self).wf(),
            sem.wf(),
        ensures
            final(self).wf(),
            first_free(old(self).semaphore_list@, id as int),
            final(self).semaphore_list@ == if id < old(self).semaphore_list@.len() {
                old(self).semaphore_list@.update(id as int, Some(sem))
            } else {
                old(self).semaphore_list@.push(Some(sem))
            },
            final(self).pid == old(self).pid,
            final(self).mutex_list@ == old(self).mutex_list@,
            final(self).condvar_list@ == old(self).condvar_list@,
    {
        let id = free_slot(&self.semaphore_list);
        if id < self.semaphore_list.len() {
            self.semaphore_list.set(id, Some(sem));
        } else {
            self.semaphore_list.push(Some(sem));
        }
        proof {
            assert forall|i: int| 0 <= i < self.semaphore_list@.len() && (#[trigger] self.semaphore_list@[i]) is Some
                implies self.semaphore_list@[i].unwrap().wf() by {
                if i != id {
                    assert(self.semaphore_list@[i] == old(self).semaphore_list@[i]);
                }
            }
        }
        id
    }

    /// Puts `cv` in the first free condition-variable slot; returns the slot.
    pub fn add_condvar(&mut self, cv: Condvar) -> (id: usize)
        requires
            old(self).wf(),
        ensures
            final(self).wf(),
            first_free(old(self).condvar_list@, id as int),
            final(self).condvar_list@ == if id < old(self).condvar_list@.len() {
                old(self).condvar_list@.update(id as int, Some(cv))
            } else {
                old(self).condvar_list@.push(Some(cv))
            },
            final(self).pid == old(self).pid,
            final(self).mutex_list@ == old(self).mutex_list@,
            final(self).semaphore_list@ == old(self).semaphore_list@,
    {
        let id = free_slot(&self.condvar_list);
        if id < self.condvar_list.len() {
            self.condvar_list.set(id, Some(cv));
        } else {
            self.condvar_list.push(Some(cv));
        }
        id
    }
}

pub const SYSCALL_SLEEP: usize = 101;
pub const SYSCALL_MUTEX_CREATE: usize = 1010;
pub const SYSCALL_MUTEX_LOCK: usize = 1011;
pub const SYSCALL_MUTEX_UNLOCK: usize = 1012;
pub const SYSCALL_SEMAPHORE_CREATE: usize = 1020;
pub const SYSCALL_SEMAPHORE_UP: usize = 1021;
pub const SYSCALL_SEMAPHORE_DOWN: usize = 1022;
pub const SYSCALL_CONDVAR_CREATE: usize = 1030;
pub const SYSCALL_CONDVAR_SIGNAL: usize = 1031;
pub const SYSCALL_CONDVAR_WAIT: usize = 1032;

/// How a trap ends.
#[derive(Clone, Copy, PartialEq, Eq, Structural, Debug)]
pub enum TrapOutcome {
    /// Back to user mode in the task that is now running.
    Return(usize),
    /// No task can run: the processor waits for an interrupt.
    Idle,
    /// The kernel cannot go on: the cause and the faulting address.
    Fatal(TrapCause, usize),
}

/// The running task's process has no id left in its table of mutexes
/// (0), semaphores (1) or condition variables (2).
pub open spec fn table_full_spec(k: Kernel, which: u8) -> bool {
    k.has_proc(k.cur_pid()) && (if which == 0 {
        k.cur_proc().mutex_list@.len()
    } else if which == 1 {
        k.cur_proc().semaphore_list@.len()
    } else {
        k.cur_proc().condvar_list@.len()
    }) >= isize::MAX
}

/// What `syscall(id, a0, a1)` does: the matching system call, `None` for an
/// unlock of a blocking mutex that is not held, -1 when the object table
/// is full or the call unknown.
pub open spec fn syscall_post(o: Kernel, f: Kernel, id: usize, a0: usize, a1: usize, r: Option<isize>) -> bool {
    &&& r.is_none() <==> ((id == SYSCALL_MUTEX_UNLOCK && o.unlock_fails(a0)) || (id == SYSCALL_CONDVAR_WAIT
        && o.unlock_fails(a1)))
    &&& r.is_none() ==> f == o
    &&& id == SYSCALL_SLEEP ==> sys_sleep_post(o, f, a0 as u64, r.unwrap())
    &&& id == SYSCALL_MUTEX_CREATE ==> if table_full_spec(o, 0) {
        r == Some(-1isize) && f == o
    } else {
        sys_mutex_create_post(o, f, a0 != 0, r.unwrap())
    }
    &&& id == SYSCALL_MUTEX_LOCK ==> sys_mutex_lock_post(o, f, a0, r.unwrap())
    &&& id == SYSCALL_MUTEX_UNLOCK && r.is_some() ==> sys_mutex_unlock_post(o, f, a0, r.unwrap())
    &&& id == SYSCALL_SEMAPHORE_CREATE ==> if table_full_spec(o, 1) || a0 > isize::MAX {
        r == Some(-1isize) && f == o
    } else {
        sys_semaphore_create_post(o, f, a0, r.unwrap())
    }
    &&& id == SYSCALL_SEMAPHORE_UP ==> sys_semaphore_up_post(o, f, a0, r.unwrap())
    &&& id == SYSCALL_SEMAPHORE_DOWN ==> sys_semaphore_down_post(o, f, a0, r.unwrap())
    &&& id == SYSCALL_CONDVAR_CREATE ==> if table_full_spec(o, 2) {
        r == Some(-1isize) && f == o
    } else {
        sys_condvar_create_post(o, f, r.unwrap())
    }
    &&& id == SYSCALL_CONDVAR_SIGNAL ==> sys_condvar_signal_post(o, f, a0, r.unwrap())
    &&& id == SYSCALL_CONDVAR_WAIT && r.is_some() ==> sys_condvar_wait_post(o, f, a0, a1, r.unwrap())
    &&& !is_known_syscall(id) ==> r == Some(-1isize) && f == o
}

/// The value a0 holds for a system call result `r`: its two's complement.
pub open spec fn encode_result(r: isize) -> usize {
    if r < 0 {
        (usize::MAX - (-1 - r)) as usize
    } else {
        r as usize
    }
}

/// What a timer interrupt at `now_ms` does: the due timers fire, their
/// blocked tasks wake in expiry order, then the running task (if any) goes
/// to the back of the ready queue and the scheduler runs.
pub open spec fn timer_tick_post(o: Kernel, f: Kernel, now_ms: u64) -> bool {
    &&& f.time_ms == now_ms
    &&& exists|w: Seq<usize>|
        #[trigger] timers_fired(o.timers@, f.timers@, now_ms, w) && ({
            let (t1, r1) = wake_all(o.tasks@, o.ready(), w);
            match o.current {
                Some(c) => sched_post(t1.update(c as int, with_status(t1[c as int], TaskStatus::Ready)), r1.push(c), f),
                None => sched_post(t1, r1, f),
            }
        })
}

/// What the signal check does: a running task with a fatal signal exits
/// with its code and leaves the processor; otherwise nothing changes.
pub open spec fn signals_post(o: Kernel, f: Kernel) -> bool {
    &&& f.tasks@.len() == o.tasks@.len()
    &&& o.current is None ==> f == o
    &&& o.current matches Some(c) ==> {
        let code = fatal_code(o.tasks@[c as int].inner.signals);
        &&& code != 0 ==> f.tasks@[c as int].inner.exit_code == Some(code as i32) && f.status(c as int)
            == TaskStatus::Blocked && f.current != Some(c)
        &&& code == 0 ==> f == o
        &&& f.tasks@[c as int].inner.trap_cx == o.tasks@[c as int].inner.trap_cx
    }
}

/// Mutex `b` is what `a` may become while other tasks run: a held mutex
/// stays held by the same task, with its queue only growing at the back.
pub open spec fn mutex_kept(a: Mutex, b: Mutex) -> bool {
    &&& b.is_blocking() == a.is_blocking()
    &&& a.is_locked() ==> b.is_locked() && b.holder() == a.holder() && b.queue().len() >= a.queue().len()
        && b.queue().subrange(0, a.queue().len() as int) == a.queue()
}

/// The process tables `f` are `o` with every mutex kept as `mutex_kept`
/// says and everything else unchanged.
pub open spec fn tables_kept(o: Seq<ProcessControlBlock>, f: Seq<ProcessControlBlock>) -> bool {
    &&& f.len() == o.len()
    &&& forall|p: int|
        0 <= p < o.len() ==> (#[trigger] f[p]).pid == o[p].pid && f[p].semaphore_list@ == o[p].semaphore_list@
            && f[p].condvar_list@ == o[p].condvar_list@ && f[p].mutex_list@.len() == o[p].mutex_list@.len()
    &&& forall|p: int, j: int|
        0 <= p < o.len() && 0 <= j < o[p].mutex_list@.len() ==> (o[p].mutex_list@[j] is None <==> (
        #[trigger] f[p].mutex_list@[j]) is None) && (o[p].mutex_list@[j] is Some ==> mutex_kept(
            o[p].mutex_list@[j].unwrap(),
            f[p].mutex_list@[j].unwrap(),
        ))
}

proof fn lemma_tables_kept_refl(o: Seq<ProcessControlBlock>)
    ensures
        tables_kept(o, o),
{
    assert forall|p: int, j: int| 0 <= p < o.len() && 0 <= j < o[p].mutex_list@.len() && o[p].mutex_list@[j] is Some
        implies mutex_kept(o[p].mutex_list@[j].unwrap(), o[p].mutex_list@[j].unwrap()) by {
        let m = o[p].mutex_list@[j].unwrap();
        assert(m.queue().subrange(0, m.queue().len() as int) =~= m.queue());
    }
}

proof fn lemma_tables_kept_trans(a: Seq<ProcessControlBlock>, b: Seq<ProcessControlBlock>, c: Seq<ProcessControlBlock>)
    requires
        tables_kept(a, b),
        tables_kept(b, c),
    ensures
        tables_kept(a, c),
{
    assert forall|p: int, j: int| 0 <= p < a.len() && 0 <= j < a[p].mutex_list@.len() implies (a[p].mutex_list@[j] is None <==> (
        #[trigger] c[p].mutex_list@[j]) is None) && (a[p].mutex_list@[j] is Some ==> mutex_kept(
            a[p].mutex_list@[j].unwrap(), c[p].mutex_list@[j].unwrap())) by {
        assert(b[p].mutex_list@.len() == a[p].mutex_list@.len());
        let _ = b[p].mutex_list@[j];
        if a[p].mutex_list@[j] is Some {
            let ma = a[p].mutex_list@[j].unwrap();
            let mb = b[p].mutex_list@[j].unwrap();
            let mc = c[p].mutex_list@[j].unwrap();
            if ma.is_locked() {
                assert(mc.queue().subrange(0, ma.queue().len() as int) =~= mc.queue().subrange(0, mb.queue().len() as int).subrange(0, ma.queue().len() as int));
            }
        }
    }
}

/// Task `t` holds mutex `mid` of its process, when that mutex exists.
pub open spec fn holds(k: Kernel, t: usize, mid: usize) -> bool {
    let pid = k.tasks@[t as int].pid;
    let pi = k.proc_index(pid);
    k.has_proc(pid) && mid < k.processes@[pi].mutex_list@.len() && k.processes@[pi].mutex_list@[mid as int] is Some
        ==> k.processes@[pi].mutex_list@[mid as int].unwrap().holder() == Some(t)
}

/// `id` is one of the system calls the kernel serves.
pub open spec fn is_known_syscall(id: usize) -> bool {
    id == SYSCALL_SLEEP || id == SYSCALL_MUTEX_CREATE || id == SYSCALL_MUTEX_LOCK || id == SYSCALL_MUTEX_UNLOCK
        || id == SYSCALL_SEMAPHORE_CREATE || id == SYSCALL_SEMAPHORE_UP || id == SYSCALL_SEMAPHORE_DOWN
        || id == SYSCALL_CONDVAR_CREATE || id == SYSCALL_CONDVAR_SIGNAL || id == SYSCALL_CONDVAR_WAIT
}

/// A posted SIGSEGV or SIGILL is fatal.
proof fn lemma_fatal_signals(bits: u32)
    ensures
        fatal_code(bits | SignalFlags::SIGSEGV) != 0,
        fatal_code(bits | SignalFlags::SIGILL) != 0,
{
    assert((bits | 0x400u32) & 0x400u32 != 0) by (bit_vector);
    assert((bits | 0x8u32) & 0x8u32 != 0) by (bit_vector);
}

/// `t` with status `st`.
pub open spec fn with_status(t: TaskControlBlock, st: TaskStatus) -> TaskControlBlock {
    TaskControlBlock { inner: crate::task::TaskControlBlockInner { task_status: st, ..t.inner }, ..t }
}

/// Waking task `t`: if it is blocked and has not exited it becomes ready
/// and joins the back of the ready queue; otherwise nothing changes.
pub open spec fn wake_one(tasks: Seq<TaskControlBlock>, ready: Seq<usize>, t: usize) -> (Seq<TaskControlBlock>, Seq<usize>) {
    if t < tasks.len() && tasks[t as int].inner.task_status == TaskStatus::Blocked
        && tasks[t as int].inner.exit_code is None {
        (tasks.update(t as int, with_status(tasks[t as int], TaskStatus::Ready)), ready.push(t))
    } else {
        (tasks, ready)
    }
}

/// Waking the tasks of `ts` in order.
pub open spec fn wake_all(tasks: Seq<TaskControlBlock>, ready: Seq<usize>, ts: Seq<usize>) -> (Seq<TaskControlBlock>, Seq<usize>)
    decreases ts.len(),
{
    if ts.len() == 0 {
        (tasks, ready)
    } else {
        let (a, b) = wake_all(tasks, ready, ts.drop_last());
        wake_one(a, b, ts.last())
    }
}

/// The due timers of `before` at `now` are the first ones; `after` holds
/// the rest, all in the future; `woken` lists the due ones' tasks in order.
pub open spec fn timers_fired(before: Seq<TimerCondVar>, after: Seq<TimerCondVar>, now: u64, woken: Seq<usize>) -> bool {
    exists|k: int|
        0 <= k <= before.len() && woken == tasks_of(#[trigger] before.subrange(0, k)) && after == before.subrange(
            k,
            before.len() as int,
        ) && (forall|i: int| 0 <= i < k ==> before[i].expire_ms <= now) && (forall|i: int|
            k <= i < before.len() ==> before[i].expire_ms > now)
}

/// What the scheduler makes of the tasks `tasks` and the ready queue
/// `ready`: the first ready task runs (when it has no mutex to take
/// first), none runs when none is ready, and a task not queued is left
/// alone.
pub open spec fn sched_post(tasks: Seq<TaskControlBlock>, ready: Seq<usize>, f: Kernel) -> bool {
    &&& f.tasks@.len() == tasks.len()
    &&& ready.len() == 0 ==> f.current.is_none() && f.tasks@ == tasks
    &&& ready.len() > 0 && tasks[ready[0] as int].inner.pending_lock is None ==> f.current == Some(ready[0])
        && f.ready() == ready.drop_first()
    &&& forall|x: int| 0 <= x < tasks.len() && !ready.contains(x as usize) ==> #[trigger] f.tasks@[x] == tasks[x]
}

/// What `sys_sleep` does: from `o` to `f`, returning `r`.
pub open spec fn sys_sleep_post(o: Kernel, f: Kernel, ms: u64, r: isize) -> bool {
    &&& (f.tasks@.len() == o.tasks@.len())
    &&& (r == 0)
    &&& (f.status(o.current.unwrap() as int) == TaskStatus::Blocked)
    &&& (f.time_ms == o.time_ms)
    &&& (crate::timer::inserted(
                o.timers@,
                f.timers@,
                crate::timer::TimerCondVar {
                    expire_ms: if o.time_ms + ms <= u64::MAX {
                        (o.time_ms + ms) as u64
                    } else {
                        u64::MAX
                    },
                    task: o.current.unwrap(),
                }
            ))
}

/// What `sys_mutex_create` does: from `o` to `f`, returning `r`.
pub open spec fn sys_mutex_create_post(o: Kernel, f: Kernel, blocking: bool, r: isize) -> bool {
    &&& (f.tasks@.len() == o.tasks@.len())
    &&& (f.tasks == o.tasks)
    &&& (f.current == o.current)
    &&& (f.ready() == o.ready())
    &&& (r == -1 <==> !o.has_proc(o.cur_pid()))
    &&& (r == -1 || r >= 0)
    &&& (r == -1 ==> f.processes@ == o.processes@)
    &&& (r >= 0 ==> {
                let pi = o.proc_index(o.cur_pid());
                let ol = o.cur_proc().mutex_list@;
                let nl = f.processes@[pi].mutex_list@;
                &&& f.processes@.len() == o.processes@.len()
                &&& forall|p: int| 0 <= p < o.processes@.len() && p != pi ==> #[trigger] f.processes@[p] == o.processes@[p]
                &&& f.processes@[pi].pid == o.cur_proc().pid
                &&& f.processes@[pi].semaphore_list@ == o.cur_proc().semaphore_list@
                &&& f.processes@[pi].condvar_list@ == o.cur_proc().condvar_list@
                &&& first_free(ol, r as int)
                &&& nl.len() == if r < ol.len() { ol.len() } else { ol.len() + 1 }
                &&& forall|j: int| 0 <= j < ol.len() && j != r ==> #[trigger] nl[j] == ol[j]
                &&& nl[r as int] is Some
                &&& !nl[r as int].unwrap().is_locked()
                &&& nl[r as int].unwrap().is_blocking() == blocking
                &&& nl[r as int].unwrap().queue().len() == 0
            })
}

/// What `sys_mutex_lock` does: from `o` to `f`, returning `r`.
pub open spec fn sys_mutex_lock_post(o: Kernel, f: Kernel, mutex_id: usize, r: isize) -> bool {
    &&& (f.tasks@.len() == o.tasks@.len())
    &&& (r == 0 || r == -1)
    &&& (r == -1 <==> !(o.has_proc(o.cur_pid()) && mutex_id < o.cur_proc().mutex_list@.len()
                && o.cur_proc().mutex_list@[mutex_id as int] is Some))
    &&& (r == -1 ==> f.tasks == o.tasks && f.current == o.current)
    &&& (r == 0 && !o.cur_proc().mutex_list@[mutex_id as int].unwrap().is_locked() ==> {
                &&& f.current == o.current
                &&& f.cur_proc().mutex_list@[mutex_id as int].unwrap().holder() == o.current
            })
    &&& (r == 0 && o.cur_proc().mutex_list@[mutex_id as int].unwrap().is_locked()
                && o.cur_proc().mutex_list@[mutex_id as int].unwrap().is_blocking()
                ==> f.status(o.current.unwrap() as int) == TaskStatus::Blocked)
    &&& (r == 0 && o.cur_proc().mutex_list@[mutex_id as int].unwrap().is_locked()
        && o.cur_proc().mutex_list@[mutex_id as int].unwrap().is_blocking() ==> {
        let a = o.cur_proc().mutex_list@[mutex_id as int].unwrap();
        let b = f.processes@[o.proc_index(o.cur_pid())].mutex_list@[mutex_id as int].unwrap();
        &&& f.processes@[o.proc_index(o.cur_pid())].mutex_list@[mutex_id as int] is Some
        &&& b.is_locked()
        &&& b.holder() == a.holder()
        &&& b.queue().len() > a.queue().len()
        &&& b.queue().subrange(0, a.queue().len() + 1int) == a.queue().push(o.current.unwrap())
    })
}

/// What `sys_mutex_unlock` does: from `o` to `f`, returning `r`.
pub open spec fn sys_mutex_unlock_post(o: Kernel, f: Kernel, mutex_id: usize, r: isize) -> bool {
    &&& (f.tasks@.len() == o.tasks@.len())
    &&& (r == 0 || r == -1)
    &&& (r == -1 <==> !(o.has_proc(o.cur_pid()) && mutex_id < o.cur_proc().mutex_list@.len()
                && o.cur_proc().mutex_list@[mutex_id as int] is Some))
    &&& (f.current == o.current)
    &&& (r == -1 ==> f.tasks == o.tasks)
    &&& (r == 0 ==> exists|woken: Option<usize>|
                unlock_post(
                    #[trigger] o.cur_proc().mutex_list@[mutex_id as int].unwrap(),
                    f.processes@[o.proc_index(o.cur_pid())].mutex_list@[mutex_id as int].unwrap(),
                    woken,
                ) && (woken is Some && woken.unwrap() < o.tasks@.len() && o.status(woken.unwrap() as int)
                    == TaskStatus::Blocked && o.tasks@[woken.unwrap() as int].inner.exit_code is None
                    ==> f.status(woken.unwrap() as int) == TaskStatus::Ready && f.ready()
                    == o.ready().push(woken.unwrap())))
    &&& (r == 0 ==> {
        let pi = o.proc_index(o.cur_pid());
        &&& f.processes@.len() == o.processes@.len()
        &&& forall|p: int| 0 <= p < o.processes@.len() && p != pi ==> #[trigger] f.processes@[p] == o.processes@[p]
        &&& f.processes@[pi].mutex_changed(&o.cur_proc(), mutex_id as int)
    })
}

/// What `sys_semaphore_create` does: from `o` to `f`, returning `r`.
pub open spec fn sys_semaphore_create_post(o: Kernel, f: Kernel, res_count: usize, r: isize) -> bool {
    &&& (f.tasks@.len() == o.tasks@.len())
    &&& (f.tasks == o.tasks)
    &&& (f.current == o.current)
    &&& (r == -1 <==> !o.has_proc(o.cur_pid()))
    &&& (r == -1 || r >= 0)
    &&& (r == -1 ==> f.processes@ == o.processes@)
    &&& (r >= 0 ==> {
                let pi = o.proc_index(o.cur_pid());
                let ol = o.cur_proc().semaphore_list@;
                let nl = f.processes@[pi].semaphore_list@;
                &&& f.processes@.len() == o.processes@.len()
                &&& forall|p: int| 0 <= p < o.processes@.len() && p != pi ==> #[trigger] f.processes@[p] == o.processes@[p]
                &&& f.processes@[pi].pid == o.cur_proc().pid
                &&& f.processes@[pi].mutex_list@ == o.cur_proc().mutex_list@
                &&& f.processes@[pi].condvar_list@ == o.cur_proc().condvar_list@
                &&& first_free(ol, r as int)
                &&& nl.len() == if r < ol.len() { ol.len() } else { ol.len() + 1 }
                &&& forall|j: int| 0 <= j < ol.len() && j != r ==> #[trigger] nl[j] == ol[j]
                &&& nl[r as int] is Some
                &&& nl[r as int].unwrap().count() == res_count
                &&& nl[r as int].unwrap().queue().len() == 0
            })
}

/// What `sys_semaphore_up` does: from `o` to `f`, returning `r`.
pub open spec fn sys_semaphore_up_post(o: Kernel, f: Kernel, sem_id: usize, r: isize) -> bool {
    &&& (f.tasks@.len() == o.tasks@.len())
    &&& (r == 0 || r == -1)
    &&& (r == -1 <==> !(o.has_proc(o.cur_pid()) && sem_id < o.cur_proc().semaphore_list@.len()
                && o.cur_proc().semaphore_list@[sem_id as int] is Some
                && o.cur_proc().semaphore_list@[sem_id as int].unwrap().count() < isize::MAX))
    &&& (f.current == o.current)
    &&& (r == -1 ==> f.tasks == o.tasks)
    &&& (r == 0 ==> {
                let a = o.cur_proc().semaphore_list@[sem_id as int].unwrap();
                let b = f.processes@[o.proc_index(o.cur_pid())].semaphore_list@[sem_id as int].unwrap();
                let (c, q, w) = up_spec(a.count(), a.queue());
                &&& b.count() == c
                &&& b.queue() == q
                &&& w is Some && w.unwrap() < o.tasks@.len() && o.status(w.unwrap() as int)
                    == TaskStatus::Blocked && o.tasks@[w.unwrap() as int].inner.exit_code is None
                    ==> f.status(w.unwrap() as int) == TaskStatus::Ready && f.ready()
                    == o.ready().push(w.unwrap())
            })
}

/// What `sys_semaphore_down` does: from `o` to `f`, returning `r`.
pub open spec fn sys_semaphore_down_post(o: Kernel, f: Kernel, sem_id: usize, r: isize) -> bool {
    &&& (f.tasks@.len() == o.tasks@.len())
    &&& (r == 0 || r == -1)
    &&& (r == -1 <==> !(o.has_proc(o.cur_pid()) && sem_id < o.cur_proc().semaphore_list@.len()
                && o.cur_proc().semaphore_list@[sem_id as int] is Some
                && o.cur_proc().semaphore_list@[sem_id as int].unwrap().count() > isize::MIN))
    &&& (r == -1 ==> f.tasks == o.tasks && f.current == o.current)
    &&& (r == 0 ==> {
                let a = o.cur_proc().semaphore_list@[sem_id as int].unwrap();
                let b = f.processes@[o.proc_index(o.cur_pid())].semaphore_list@[sem_id as int].unwrap();
                let (c, q, blocked) = down_spec(a.count(), a.queue(), o.current.unwrap());
                &&& b.count() == c
                &&& b.queue() == q
                &&& blocked ==> f.status(o.current.unwrap() as int) == TaskStatus::Blocked
                &&& !blocked ==> f.current == o.current
            })
}

/// What `sys_condvar_create` does: from `o` to `f`, returning `r`.
pub open spec fn sys_condvar_create_post(o: Kernel, f: Kernel, r: isize) -> bool {
    &&& (f.tasks@.len() == o.tasks@.len())
    &&& (f.tasks == o.tasks)
    &&& (f.current == o.current)
    &&& (r == -1 <==> !o.has_proc(o.cur_pid()))
    &&& (r == -1 || r >= 0)
    &&& (r == -1 ==> f.processes@ == o.processes@)
    &&& (r >= 0 ==> {
                let pi = o.proc_index(o.cur_pid());
                let ol = o.cur_proc().condvar_list@;
                let nl = f.processes@[pi].condvar_list@;
                &&& f.processes@.len() == o.processes@.len()
                &&& forall|p: int| 0 <= p < o.processes@.len() && p != pi ==> #[trigger] f.processes@[p] == o.processes@[p]
                &&& f.processes@[pi].pid == o.cur_proc().pid
                &&& f.processes@[pi].mutex_list@ == o.cur_proc().mutex_list@
                &&& f.processes@[pi].semaphore_list@ == o.cur_proc().semaphore_list@
                &&& first_free(ol, r as int)
                &&& nl.len() == if r < ol.len() { ol.len() } else { ol.len() + 1 }
                &&& forall|j: int| 0 <= j < ol.len() && j != r ==> #[trigger] nl[j] == ol[j]
                &&& nl[r as int] is Some
                &&& nl[r as int].unwrap().queue().len() == 0
            })
}

/// What `sys_condvar_signal` does: from `o` to `f`, returning `r`.
pub open spec fn sys_condvar_signal_post(o: Kernel, f: Kernel, condvar_id: usize, r: isize) -> bool {
    &&& (f.tasks@.len() == o.tasks@.len())
    &&& (r == 0 || r == -1)
    &&& (r == -1 <==> !(o.has_proc(o.cur_pid()) && condvar_id < o.cur_proc().condvar_list@.len()
                && o.cur_proc().condvar_list@[condvar_id as int] is Some))
    &&& (f.current == o.current)
    &&& (r == -1 ==> f.tasks == o.tasks)
    &&& (r == 0 ==> {
                let a = o.cur_proc().condvar_list@[condvar_id as int].unwrap();
                let b = f.processes@[o.proc_index(o.cur_pid())].condvar_list@[condvar_id as int].unwrap();
                &&& a.queue().len() == 0 ==> b.queue() == a.queue() && f.tasks == o.tasks
                    && f.ready() == o.ready()
                &&& a.queue().len() > 0 ==> b.queue() == a.queue().drop_first()
                &&& a.queue().len() > 0 && a.queue()[0] < o.tasks@.len() && o.status(a.queue()[0] as int)
                    == TaskStatus::Blocked && o.tasks@[a.queue()[0] as int].inner.exit_code is None
                    ==> f.status(a.queue()[0] as int) == TaskStatus::Ready && f.ready()
                    == o.ready().push(a.queue()[0])
            })
}

/// What `sys_condvar_wait` does: from `o` to `f`, returning `r`.
pub open spec fn sys_condvar_wait_post(o: Kernel, f: Kernel, condvar_id: usize, mutex_id: usize, r: isize) -> bool {
    &&& (f.tasks@.len() == o.tasks@.len())
    &&& (r == 0 || r == -1)
    &&& (r == -1 <==> !(o.has_proc(o.cur_pid()) && condvar_id < o.cur_proc().condvar_list@.len()
                && o.cur_proc().condvar_list@[condvar_id as int] is Some
                && mutex_id < o.cur_proc().mutex_list@.len()
                && o.cur_proc().mutex_list@[mutex_id as int] is Some))
    &&& (r == -1 ==> f.tasks == o.tasks && f.current == o.current)
    &&& (r == 0 ==> {
                let c = o.current.unwrap();
                let b = f.processes@[o.proc_index(o.cur_pid())].condvar_list@[condvar_id as int].unwrap();
                &&& b.queue() == o.cur_proc().condvar_list@[condvar_id as int].unwrap().queue().push(c)
                &&& f.status(c as int) == TaskStatus::Blocked
                &&& f.tasks@[c as int].inner.pending_lock == Some(mutex_id)
            })
    &&& (r == 0 ==> exists|mm: Mutex, w: Option<usize>|
        #[trigger] unlock_post(o.cur_proc().mutex_list@[mutex_id as int].unwrap(), mm, w) && mutex_kept(
            mm,
            f.processes@[o.proc_index(o.cur_pid())].mutex_list@[mutex_id as int].unwrap(),
        ))
}

/// The first free slot of a table, or its length when none is free.
pub open spec fn first_free<T>(s: Seq<Option<T>>, id: int) -> bool {
    &&& 0 <= id <= s.len()
    &&& id < s.len() ==> s[id] is None
    &&& forall|i: int| 0 <= i < id ==> s[i] is Some
}

/// Finds the first free slot of `list`.
fn free_slot<T>(list: &Vec<Option<T>>) -> (r: usize)
    ensures
        first_free(list@, r as int),
{
    let mut i: usize = 0;
    while i < list.len()
        invariant
            i <= list@.len(),
            forall|j: int| 0 <= j < i ==> list@[j] is Some,
        decreases list@.len() - i,
    {
        if list[i].is_none() {
            return i;
        }
        i = i + 1;
    }
    i
}

/// The scheduling state of the machine: every task, the ready queue, the
/// running task, the sleeping tasks' timers, the processes by id, and the
/// clock in milliseconds.
pub struct Kernel {
    pub tasks: Vec<TaskControlBlock>,
    pub manager: TaskManager,
    pub current: Option<usize>,
    pub timers: TimerQueue,
    pub processes: Vec<ProcessControlBlock>,
    pub time_ms: u64,
}

impl Kernel {
    pub open spec fn status(&self, t: int) -> TaskStatus {
        self.tasks@[t].inner.task_status
    }

    pub open spec fn ready(&self) -> Seq<usize> {
        self.manager.queue()
    }

    /// The running task is the only one marked running; the ready queue
    /// holds distinct tasks, all marked ready.
    pub open spec fn wf(&self) -> bool {
        &&& self.current matches Some(c) ==> c < self.tasks@.len() && self.status(c as int)
            == TaskStatus::Running
        &&& forall|t: int|
            0 <= t < self.tasks@.len() && (#[trigger] self.tasks@[t]).inner.task_status == TaskStatus::Running
                ==> self.current == Some(t as usize)
        &&& forall|i: int|
            0 <= i < self.manager.queue().len() ==> #[trigger] self.manager.queue()[i] < self.tasks@.len()
                && self.status(self.manager.queue()[i] as int) == TaskStatus::Ready
        &&& self.ready().no_duplicates()
        &&& self.timers.wf()
        &&& forall|p: int| 0 <= p < self.processes@.len() ==> (#[trigger] self.processes@[p]).wf()
        &&& forall|p: int, q: int|
            0 <= p < self.processes@.len() && 0 <= q < self.processes@.len() && p != q
                ==> (#[trigger] self.processes@[p]).pid != (#[trigger] self.processes@[q]).pid
    }

    /// A machine with no task and no process, at time zero.
    pub fn new() -> (r: Kernel)
        ensures
            r.wf(),
            r.tasks@.len() == 0,
            r.current.is_none(),
            r.ready().len() == 0,
            r.processes@.len() == 0,
    {
        Kernel {
            tasks: Vec::new(),
            manager: TaskManager::new(),
            current: None,
            timers: TimerQueue::new(),
            processes: Vec::new(),
            time_ms: 0,
        }
    }

    /// Sets the status of task `t`; nothing else changes.
    fn set_status(&mut self, t: usize, st: TaskStatus)
        requires
            t < old(self).tasks@.len(),
        ensures
            final(self).tasks@ == old(self).tasks@.update(
                t as int,
                TaskControlBlock {
                    inner: crate::task::TaskControlBlockInner { task_status: st, ..old(self).tasks@[t as int].inner },
                    ..old(self).tasks@[t as int]
                },
            ),
            final(self).manager == old(self).manager,
            final(self).current == old(self).current,
            final(self).timers == old(self).timers,
            final(self).processes == old(self).processes,
            final(self).time_ms == old(self).time_ms,
    {
        let mut tcb = self.tasks[t];
        tcb.inner.task_status = st;
        self.tasks.set(t, tcb);
    }

    /// The index of the process with id `pid`.
    pub fn pid2process(&self, pid: usize) -> (r: Option<usize>)
        ensures
            r matches Some(i) ==> i < self.processes@.len() && self.processes@[i as int].pid == pid,
            r.is_none() ==> forall|i: int| 0 <= i < self.processes@.len() ==> self.processes@[i].pid != pid,
    {
        let mut i: usize = 0;
        while i < self.processes.len()
            invariant
                i <= self.processes@.len(),
                forall|j: int| 0 <= j < i ==> self.processes@[j].pid != pid,
            decreases self.processes@.len() - i,
        {
            if self.processes[i].pid == pid {
                return Some(i);
            }
            i = i + 1;
        }
        None
    }

    /// Registers process `process`, whose id no registered process has.
    pub fn insert_into_pid2process(&mut self, process: ProcessControlBlock)
        requires
            old(self).wf(),
            process.wf(),
            forall|i: int| 0 <= i < old(self).processes@.len() ==> old(self).processes@[i].pid != process.pid,
        ensures
            final(self).wf(),
            final(self).processes@ == old(self).processes@.push(process),
            final(self).tasks == old(self).tasks,
            final(self).current == old(self).current,
            final(self).manager == old(self).manager,
    {
        self.processes.push(process);
        proof {
            assert forall|p: int, q: int|
                0 <= p < self.processes@.len() && 0 <= q < self.processes@.len() && p != q
                implies (#[trigger] self.processes@[p]).pid != (#[trigger] self.processes@[q]).pid by {
                let n = old(self).processes@.len();
                if p < n && q < n {
                    assert(self.processes@[p] == old(self).processes@[p]);
                    assert(self.processes@[q] == old(self).processes@[q]);
                } else if p < n {
                    assert(self.processes@[p] == old(self).processes@[p]);
                } else {
                    assert(self.processes@[q] == old(self).processes@[q]);
                }
            }

            assert forall|p: int| 0 <= p < self.processes@.len() implies (#[trigger] self.processes@[p]).wf() by {
                if p < old(self).processes@.len() {
                    assert(old(self).processes@[p].wf());
                }
            }
        }
    }

    /// Forgets the process with id `pid`, which must be registered.
    pub fn remove_from_pid2process(&mut self, pid: usize)
        requires
            old(self).wf(),
            exists|i: int| 0 <= i < old(self).processes@.len() && (#[trigger] old(self).processes@[i]).pid == pid,
        ensures
            final(self).wf(),
            exists|i: int|
                0 <= i < old(self).processes@.len() && old(self).processes@[i].pid == pid && final(self).processes@
                    == old(self).processes@.remove(i),
    {
        let i = self.pid2process(pid).unwrap();
        let _p = self.processes.remove(i);
        proof {
            assert forall|p: int, q: int|
                0 <= p < self.processes@.len() && 0 <= q < self.processes@.len() && p != q
                implies (#[trigger] self.processes@[p]).pid != (#[trigger] self.processes@[q]).pid by {
                let op = if p < i { p } else { p + 1 };
                let oq = if q < i { q } else { q + 1 };
                assert(self.processes@[p] == old(self).processes@[op]);
                assert(self.processes@[q] == old(self).processes@[oq]);
            }
            assert forall|p: int| 0 <= p < self.processes@.len() implies (#[trigger] self.processes@[p]).wf() by {
                if p < i {
                    assert(old(self).processes@[p].wf());
                } else {
                    assert(old(self).processes@[p + 1].wf());
                }
            }
        }
    }

    /// Creates a ready task of process `pid` and appends it to the ready
    /// queue; returns its index.
    pub fn spawn(&mut self, pid: usize, res: Option<TaskUserRes>, trap_cx_ppn: PhysPageNum, kstack_top: usize, trap_return: usize) -> (t: usize)
        requires
            old(self).wf(),
            old(self).tasks@.len() < usize::MAX,
        ensures
            final(self).wf(),
            t == old(self).tasks@.len(),
            final(self).tasks@.len() == t + 1,
            final(self).tasks@[t as int].pid == pid,
            final(self).status(t as int) == TaskStatus::Ready,
            final(self).ready() == old(self).ready().push(t),
            final(self).current == old(self).current,
    {
        let t = self.tasks.len();
        self.tasks.push(TaskControlBlock::from_parts(pid, res, trap_cx_ppn, kstack_top, trap_return));
        self.manager.add(t);
        proof {
            let o = old(self);
            assert forall|x: int| 0 <= x < self.tasks@.len() && (#[trigger] self.tasks@[x]).inner.task_status == TaskStatus::Running
                implies self.current == Some(x as usize) by {
                assert(x < t);
                assert(o.status(x) == TaskStatus::Running);
            }
            assert forall|i: int| 0 <= i < self.ready().len() implies #[trigger] self.manager.queue()[i] < self.tasks@.len()
                && self.status(self.ready()[i] as int) == TaskStatus::Ready by {
                if i < o.ready().len() {
                    assert(o.ready()[i] < o.tasks@.len());
                }
            }
            assert(self.ready().no_duplicates()) by {
                assert forall|i: int, j: int| 0 <= i < j < self.ready().len() implies self.ready()[i] != self.ready()[j] by {
                    if j == o.ready().len() {
                        assert(o.ready()[i] < t);
                    }
                }
            }
        }
        t
    }

    /// Appends ready task `t`, not yet queued, to the ready queue.
    pub fn add_task(&mut self, t: usize)
        requires
            old(self).wf(),
            t < old(self).tasks@.len(),
            old(self).status(t as int) == TaskStatus::Ready,
            !old(self).ready().contains(t),
        ensures
            final(self).wf(),
            final(self).ready() == old(self).ready().push(t),
            final(self).tasks == old(self).tasks,
            final(self).current == old(self).current,
            final(self).processes == old(self).processes,
            final(self).timers == old(self).timers,
            final(self).time_ms == old(self).time_ms,
    {
        self.manager.add(t);
        proof {
            let o = old(self);
            assert forall|i: int| 0 <= i < self.ready().len() implies #[trigger] self.manager.queue()[i] < self.tasks@.len()
                && self.status(self.ready()[i] as int) == TaskStatus::Ready by {
                if i < o.ready().len() {
                    assert(o.ready()[i] < o.tasks@.len());
                }
            }
            assert forall|i: int, j: int| 0 <= i < j < self.ready().len() implies self.ready()[i] != self.ready()[j] by {
                if j == o.ready().len() {
                    assert(o.ready().contains(o.ready()[i]));
                }
            }
        }
    }

    /// Takes the first task off the ready queue.
    pub fn fetch_task(&mut self) -> (r: Option<usize>)
        requires
            old(self).wf(),
        ensures
            old(self).ready().len() == 0 ==> r.is_none() && final(self).ready() == old(self).ready(),
            old(self).ready().len() > 0 ==> r == Some(old(self).ready()[0]) && final(self).ready()
                == old(self).ready().drop_first(),
            final(self).time_ms == old(self).time_ms,
            final(self).tasks == old(self).tasks,
            final(self).current == old(self).current,
            final(self).timers == old(self).timers,
            final(self).processes == old(self).processes,
    {
        self.manager.fetch()
    }

    /// Makes blocked task `t` ready and appends it to the ready queue.
    pub fn wakeup_task(&mut self, t: usize)
        requires
            old(self).wf(),
            t < old(self).tasks@.len(),
            old(self).status(t as int) == TaskStatus::Blocked,
        ensures
            final(self).wf(),
            final(self).status(t as int) == TaskStatus::Ready,
            final(self).tasks@ == old(self).tasks@.update(t as int, with_status(old(self).tasks@[t as int], TaskStatus::Ready)),
            forall|x: int| 0 <= x < old(self).tasks@.len() && x != t ==> #[trigger] final(self).status(x)
                == old(self).status(x),
            final(self).tasks@.len() == old(self).tasks@.len(),
            final(self).ready() == old(self).ready().push(t),
            final(self).current == old(self).current,
            final(self).processes == old(self).processes,
            final(self).timers == old(self).timers,
            final(self).time_ms == old(self).time_ms,
    {
        self.set_status(t, TaskStatus::Ready);
        proof {
            let o = old(self);
            assert forall|x: int| 0 <= x < self.tasks@.len() && (#[trigger] self.tasks@[x]).inner.task_status == TaskStatus::Running
                implies self.current == Some(x as usize) by {
                assert(o.status(x) == TaskStatus::Running);
            }
            assert forall|i: int| 0 <= i < self.ready().len() implies #[trigger] self.manager.queue()[i] < self.tasks@.len()
                && self.status(self.ready()[i] as int) == TaskStatus::Ready by {
                assert(o.ready()[i] < o.tasks@.len());
            }
            assert(!self.ready().contains(t)) by {
                if self.ready().contains(t) {
                    let i = choose|i: int| 0 <= i < self.ready().len() && self.ready()[i] == t;
                    assert(o.ready()[i] == t);
                }
            }
        }
        self.add_task(t);
    }

    /// Wakes task `t` if it is blocked and has not exited; otherwise
    /// changes nothing. Returns whether it woke it.
    pub fn wake_blocked(&mut self, t: usize) -> (woke: bool)
        requires
            old(self).wf(),
        ensures
            final(self).wf(),
            woke == (t < old(self).tasks@.len() && old(self).status(t as int) == TaskStatus::Blocked
                && old(self).tasks@[t as int].inner.exit_code.is_none()),
            woke ==> final(self).status(t as int) == TaskStatus::Ready && final(self).ready() == old(self).ready().push(t),
            !woke ==> final(self).tasks@ == old(self).tasks@ && final(self).ready() == old(self).ready(),
            (final(self).tasks@, final(self).ready()) == wake_one(old(self).tasks@, old(self).ready(), t),
            forall|x: int| 0 <= x < old(self).tasks@.len() && x != t ==> #[trigger] final(self).status(x)
                == old(self).status(x),
            final(self).tasks@.len() == old(self).tasks@.len(),
            final(self).current == old(self).current,
            final(self).processes == old(self).processes,
            final(self).timers == old(self).timers,
            final(self).time_ms == old(self).time_ms,
    {
        if t < self.tasks.len() && self.tasks[t].inner.task_status == TaskStatus::Blocked
            && self.tasks[t].inner.exit_code.is_none() {
            self.wakeup_task(t);
            true
        } else {
            false
        }
    }

    /// Task `t`, just dispatched, takes the mutex `mid` of its process that
    /// it must hold before it returns to user mode. Returns 0 when it holds
    /// it (or no such mutex exists), 1 when a blocking mutex queued it, 2
    /// when a spin mutex is held by another task.
    fn relock(&mut self, t: usize, mid: usize) -> (outcome: u8)
        requires
            old(self).wf(),
            t < old(self).tasks@.len(),
        ensures
            final(self).wf(),
            outcome <= 2,
            final(self).tasks == old(self).tasks,
            final(self).manager == old(self).manager,
            final(self).current == old(self).current,
            final(self).timers == old(self).timers,
            final(self).time_ms == old(self).time_ms,
            final(self).processes@.len() == old(self).processes@.len(),
            forall|p: int| 0 <= p < final(self).processes@.len() ==> (#[trigger] final(self).processes@[p]).pid
                == old(self).processes@[p].pid,
            forall|p: int| 0 <= p < final(self).processes@.len() ==> (#[trigger] final(self).processes@[p]).semaphore_list@
                == old(self).processes@[p].semaphore_list@ && final(self).processes@[p].condvar_list@
                == old(self).processes@[p].condvar_list@,
            tables_kept(old(self).processes@, final(self).processes@),
            outcome == 0 ==> holds(*final(self), t, mid),
    {
        proof {
            lemma_tables_kept_refl(self.processes@);
        }
        let pi = match self.pid2process(self.tasks[t].pid) {
            Some(pi) => pi,
            None => {
                return 0;
            },
        };
        if mid >= self.processes[pi].mutex_list.len() {
            return 0;
        }
        let ghost old_p = self.processes@[pi as int];
        let mut pcb = self.processes.remove(pi);
        let mut slot = pcb.mutex_list.remove(mid);
        let ghost pre = slot;
        let outcome: u8 = match slot {
            Some(ref mut m) => {
                proof {
                    assert(old_p.mutex_list@[mid as int] is Some);
                }
                let blocking = match m {
                    Mutex::Blocking(_) => true,
                    Mutex::Spin(_) => false,
                };
                if m.lock(t) {
                    0
                } else if blocking {
                    1
                } else {
                    2
                }
            },
            None => 0,
        };
        pcb.mutex_list.insert(mid, slot);
        self.processes.insert(pi, pcb);
        proof {
            let np = self.processes@[pi as int];
            assert forall|i: int| 0 <= i < np.mutex_list@.len() && (#[trigger] np.mutex_list@[i]) is Some
                implies np.mutex_list@[i].unwrap().wf() by {
                if i != mid {
                    assert(np.mutex_list@[i] == old_p.mutex_list@[i]);
                }
            }
            assert(np.semaphore_list@ == old_p.semaphore_list@);
            assert forall|p: int, q: int|
                0 <= p < self.processes@.len() && 0 <= q < self.processes@.len() && p != q
                implies (#[trigger] self.processes@[p]).pid != (#[trigger] self.processes@[q]).pid by {
                assert(self.processes@[p].pid == old(self).processes@[p].pid);
                assert(self.processes@[q].pid == old(self).processes@[q].pid);
            }
            assert forall|p: int| 0 <= p < self.processes@.len() implies (#[trigger] self.processes@[p]).wf() by {
                if p != pi {
                    assert(self.processes@[p] == old(self).processes@[p]);
                }
            }
            assert forall|p: int| 0 <= p < self.processes@.len() implies (#[trigger] self.processes@[p]).pid
                == old(self).processes@[p].pid by {
                if p != pi {
                    assert(self.processes@[p] == old(self).processes@[p]);
                }
            }
            assert forall|p: int| 0 <= p < self.processes@.len() implies (#[trigger] self.processes@[p]).semaphore_list@
                == old(self).processes@[p].semaphore_list@ && self.processes@[p].condvar_list@
                == old(self).processes@[p].condvar_list@ by {
                if p != pi {
                    assert(self.processes@[p] == old(self).processes@[p]);
                }
            }
            let o = old(self).processes@;
            let f = self.processes@;
            assert forall|p: int, j: int| 0 <= p < o.len() && 0 <= j < o[p].mutex_list@.len() implies (o[p].mutex_list@[j] is None <==> (
                #[trigger] f[p].mutex_list@[j]) is None) && (o[p].mutex_list@[j] is Some ==> mutex_kept(
                    o[p].mutex_list@[j].unwrap(), f[p].mutex_list@[j].unwrap())) by {
                if p != pi {
                    assert(f[p] == o[p]);
                    let m = o[p].mutex_list@[j];
                    if m is Some {
                        assert(m.unwrap().queue().subrange(0, m.unwrap().queue().len() as int) =~= m.unwrap().queue());
                    }
                } else if j != mid {
                    assert(f[p].mutex_list@[j] == o[p].mutex_list@[j]);
                    let m = o[p].mutex_list@[j];
                    if m is Some {
                        assert(m.unwrap().queue().subrange(0, m.unwrap().queue().len() as int) =~= m.unwrap().queue());
                    }
                } else {
                    assert(f[p].mutex_list@[j] == slot);
                    assert(o[p].mutex_list@[j] == pre);
                    if pre is Some {
                        let a = pre.unwrap();
                        let b = slot.unwrap();
                        assert(a.queue().push(t).subrange(0, a.queue().len() as int) =~= a.queue());
                        assert(a.queue().subrange(0, a.queue().len() as int) =~= a.queue());
                    }
                }
            }
        }
        outcome
    }

    /// Sets the pending mutex of task `t`; nothing else changes.
    fn set_pending(&mut self, t: usize, mid: Option<usize>)
        requires
            old(self).wf(),
            t < old(self).tasks@.len(),
        ensures
            final(self).wf(),
            final(self).tasks@ == old(self).tasks@.update(
                t as int,
                TaskControlBlock {
                    inner: crate::task::TaskControlBlockInner { pending_lock: mid, ..old(self).tasks@[t as int].inner },
                    ..old(self).tasks@[t as int]
                },
            ),
            final(self).manager == old(self).manager,
            final(self).current == old(self).current,
            final(self).timers == old(self).timers,
            final(self).processes == old(self).processes,
            final(self).time_ms == old(self).time_ms,
    {
        let mut tcb = self.tasks[t];
        tcb.inner.pending_lock = mid;
        self.tasks.set(t, tcb);
        proof {
            let o = old(self);
            assert forall|x: int| 0 <= x < self.tasks@.len() && (#[trigger] self.tasks@[x]).inner.task_status == TaskStatus::Running
                implies self.current == Some(x as usize) by {
                assert(o.tasks@[x].inner.task_status == TaskStatus::Running);
            }
            assert forall|i: int| 0 <= i < self.ready().len() implies #[trigger] self.manager.queue()[i] < self.tasks@.len()
                && self.status(self.ready()[i] as int) == TaskStatus::Ready by {
                assert(o.manager.queue()[i] < o.tasks@.len());
            }
        }
    }

    /// Dispatches the first ready task. A task that must take a mutex first
    /// does so now: if it cannot, it blocks (blocking mutex) or goes back to
    /// the end of the queue (spin mutex), and no task runs yet. Returns
    /// whether the dispatch is settled: a task runs, or none is ready.
    fn dispatch_one(&mut self) -> (settled: bool)
        requires
            old(self).wf(),
            old(self).current.is_none(),
        ensures
            final(self).wf(),
            settled == (final(self).current.is_some() || old(self).ready().len() == 0),
            !settled ==> final(self).current.is_none(),
            final(self).tasks@.len() == old(self).tasks@.len(),
            final(self).processes@.len() == old(self).processes@.len(),
            forall|p: int| 0 <= p < final(self).processes@.len() ==> (#[trigger] final(self).processes@[p]).pid
                == old(self).processes@[p].pid,
            forall|p: int| 0 <= p < final(self).processes@.len() ==> (#[trigger] final(self).processes@[p]).semaphore_list@
                == old(self).processes@[p].semaphore_list@ && final(self).processes@[p].condvar_list@
                == old(self).processes@[p].condvar_list@,
            final(self).timers == old(self).timers,
            final(self).time_ms == old(self).time_ms,
            old(self).ready().len() == 0 ==> final(self).tasks == old(self).tasks && final(self).processes
                == old(self).processes,
            old(self).ready().len() > 0 && old(self).tasks@[old(self).ready()[0] as int].inner.pending_lock is None
                ==> final(self).current == Some(old(self).ready()[0]) && final(self).ready()
                == old(self).ready().drop_first(),
            forall|x: int|
                0 <= x < old(self).tasks@.len() && !old(self).ready().contains(x as usize)
                    ==> #[trigger] final(self).tasks@[x] == old(self).tasks@[x],
            forall|i: int| 0 <= i < final(self).ready().len() ==> old(self).ready().contains(#[trigger] final(self).ready()[i]),
            tables_kept(old(self).processes@, final(self).processes@),
            final(self).current matches Some(c) ==> old(self).ready().len() > 0 && c == old(self).ready()[0],
            final(self).current is Some && old(self).tasks@[final(self).current.unwrap() as int].inner.pending_lock is Some
                ==> holds(*final(self), final(self).current.unwrap(), old(self).tasks@[final(self).current.unwrap() as int].inner.pending_lock.unwrap()),
            forall|i: int|
                0 <= i < final(self).ready().len() ==> final(self).tasks@[#[trigger] final(self).ready()[i] as int].inner.pending_lock
                    == old(self).tasks@[final(self).ready()[i] as int].inner.pending_lock,
            final(self).current matches Some(c) ==> final(self).tasks@[c as int].inner.pending_lock is None,
    {
        proof {
            lemma_tables_kept_refl(self.processes@);
        }
        let t = match self.fetch_task() {
            Some(t) => t,
            None => {
                return true;
            },
        };
        let ghost o = *old(self);
        let ghost q = o.ready();
        proof {
            assert(q[0] == t);
            assert(t < self.tasks@.len());
            assert forall|i: int| 0 <= i < self.ready().len() implies self.ready()[i] != t by {
                assert(q[i + 1] == self.ready()[i]);
            }
        }
        self.set_status(t, TaskStatus::Running);
        self.current = Some(t);
        proof {
            assert forall|x: int| 0 <= x < self.tasks@.len() && (#[trigger] self.tasks@[x]).inner.task_status == TaskStatus::Running
                implies self.current == Some(x as usize) by {
                if x != t {
                    assert(o.tasks@[x].inner.task_status == TaskStatus::Running);
                }
            }
            assert forall|i: int| 0 <= i < self.ready().len() implies #[trigger] self.manager.queue()[i] < self.tasks@.len()
                && self.status(self.ready()[i] as int) == TaskStatus::Ready by {
                assert(q[i + 1] == self.ready()[i]);
                assert(o.manager.queue()[i + 1] < o.tasks@.len());
            }
            assert(self.ready().no_duplicates()) by {
                assert forall|i: int, j: int| 0 <= i < j < self.ready().len() implies self.ready()[i] != self.ready()[j] by {
                    assert(q[i + 1] == self.ready()[i]);
                    assert(q[j + 1] == self.ready()[j]);
                }
            }
            assert forall|i: int| 0 <= i < self.ready().len() implies q.contains(#[trigger] self.ready()[i]) by {
                assert(q[i + 1] == self.ready()[i]);
            }
            assert forall|x: int| 0 <= x < o.tasks@.len() && !q.contains(x as usize) implies #[trigger] self.tasks@[x] == o.tasks@[x] by {
                assert(x != t);
            }
        }
        let pending = self.tasks[t].inner.pending_lock;
        match pending {
            None => true,
            Some(mid) => {
                let outcome = self.relock(t, mid);
                if outcome == 0 {
                    let ghost s0 = *self;
                    self.set_pending(t, None);
                    proof {
                        assert(holds(s0, t, mid));
                        assert(self.tasks@[t as int].pid == s0.tasks@[t as int].pid);
                        assert(self.processes == s0.processes);
                    }
                    true
                } else {
                    self.current = None;
                    let ghost s1 = *self;
                    if outcome == 1 {
                        self.set_status(t, TaskStatus::Blocked);
                        proof {
                            assert forall|x: int| 0 <= x < self.tasks@.len() && (#[trigger] self.tasks@[x]).inner.task_status == TaskStatus::Running
                                implies self.current == Some(x as usize) by {
                                assert(s1.tasks@[x].inner.task_status == TaskStatus::Running);
                            }
                            assert forall|i: int| 0 <= i < self.ready().len() implies #[trigger] self.manager.queue()[i] < self.tasks@.len()
                                && self.status(self.ready()[i] as int) == TaskStatus::Ready by {
                                assert(s1.manager.queue()[i] < s1.tasks@.len());
                                assert(self.ready()[i] != t);
                            }
                        }
                        self.set_pending(t, None);
                    } else {
                        self.set_status(t, TaskStatus::Ready);
                        proof {
                            assert forall|x: int| 0 <= x < self.tasks@.len() && (#[trigger] self.tasks@[x]).inner.task_status == TaskStatus::Running
                                implies self.current == Some(x as usize) by {
                                assert(s1.tasks@[x].inner.task_status == TaskStatus::Running);
                            }
                            assert forall|i: int| 0 <= i < self.ready().len() implies #[trigger] self.manager.queue()[i] < self.tasks@.len()
                                && self.status(self.ready()[i] as int) == TaskStatus::Ready by {
                                assert(s1.manager.queue()[i] < s1.tasks@.len());
                                assert(self.ready()[i] != t);
                            }
                            assert(!self.ready().contains(t)) by {
                                if self.ready().contains(t) {
                                    let i = choose|i: int| 0 <= i < self.ready().len() && self.ready()[i] == t;
                                }
                            }
                        }
                        self.add_task(t);
                    }
                    false
                }
            },
        }
    }

    /// Runs the next task that can run, as `dispatch_one` picks them, trying
    /// each queued task at most once; with none, the processor idles.
    pub fn schedule(&mut self)
        requires
            old(self).wf(),
            old(self).current.is_none(),
        ensures
            final(self).wf(),
            sched_post(old(self).tasks@, old(self).ready(), *final(self)),
            final(self).tasks@.len() == old(self).tasks@.len(),
            final(self).processes@.len() == old(self).processes@.len(),
            forall|p: int| 0 <= p < final(self).processes@.len() ==> (#[trigger] final(self).processes@[p]).pid
                == old(self).processes@[p].pid,
            forall|p: int| 0 <= p < final(self).processes@.len() ==> (#[trigger] final(self).processes@[p]).semaphore_list@
                == old(self).processes@[p].semaphore_list@ && final(self).processes@[p].condvar_list@
                == old(self).processes@[p].condvar_list@,
            final(self).timers == old(self).timers,
            final(self).time_ms == old(self).time_ms,
            old(self).ready().len() == 0 ==> final(self).current.is_none() && final(self).tasks
                == old(self).tasks,
            old(self).ready().len() > 0 && old(self).tasks@[old(self).ready()[0] as int].inner.pending_lock is None
                ==> final(self).current == Some(old(self).ready()[0]) && final(self).ready()
                == old(self).ready().drop_first(),
            forall|x: int|
                0 <= x < old(self).tasks@.len() && !old(self).ready().contains(x as usize)
                    ==> #[trigger] final(self).tasks@[x] == old(self).tasks@[x],
            tables_kept(old(self).processes@, final(self).processes@),
            final(self).current is Some && old(self).tasks@[final(self).current.unwrap() as int].inner.pending_lock is Some
                ==> holds(*final(self), final(self).current.unwrap(), old(self).tasks@[final(self).current.unwrap() as int].inner.pending_lock.unwrap()),
            final(self).current matches Some(c) ==> final(self).tasks@[c as int].inner.pending_lock is None,
    {
        let mut fuel = self.manager.len();
        if self.dispatch_one() {
            return;
        }
        while fuel > 0
            invariant
                self.wf(),
                self.current.is_none(),
                self.tasks@.len() == old(self).tasks@.len(),
                self.processes@.len() == old(self).processes@.len(),
                forall|p: int| 0 <= p < self.processes@.len() ==> (#[trigger] self.processes@[p]).pid
                    == old(self).processes@[p].pid,
                forall|p: int| 0 <= p < self.processes@.len() ==> (#[trigger] self.processes@[p]).semaphore_list@
                    == old(self).processes@[p].semaphore_list@ && self.processes@[p].condvar_list@
                    == old(self).processes@[p].condvar_list@,
                self.timers == old(self).timers,
                self.time_ms == old(self).time_ms,
                old(self).ready().len() > 0,
                !(old(self).tasks@[old(self).ready()[0] as int].inner.pending_lock is None),
                forall|x: int|
                    0 <= x < old(self).tasks@.len() && !old(self).ready().contains(x as usize)
                        ==> #[trigger] self.tasks@[x] == old(self).tasks@[x],
                forall|i: int| 0 <= i < self.ready().len() ==> old(self).ready().contains(#[trigger] self.ready()[i]),
                tables_kept(old(self).processes@, self.processes@),
                forall|i: int|
                    0 <= i < self.ready().len() ==> self.tasks@[#[trigger] self.ready()[i] as int].inner.pending_lock
                        == old(self).tasks@[self.ready()[i] as int].inner.pending_lock,
            decreases fuel,
        {
            fuel = fuel - 1;
            let ghost before = *self;
            let settled = self.dispatch_one();
            proof {
                lemma_tables_kept_trans(old(self).processes@, before.processes@, self.processes@);
                if self.current is Some {
                    let c = self.current.unwrap();
                    assert(before.ready()[0] == c);
                    assert(before.tasks@[c as int].inner.pending_lock == old(self).tasks@[c as int].inner.pending_lock);
                }
                assert forall|i: int|
                    0 <= i < self.ready().len() implies self.tasks@[#[trigger] self.ready()[i] as int].inner.pending_lock
                        == old(self).tasks@[self.ready()[i] as int].inner.pending_lock by {
                    let x = self.ready()[i];
                    assert(before.tasks@[x as int].inner.pending_lock == self.tasks@[x as int].inner.pending_lock);
                    assert(before.ready().contains(x));
                    let k = choose|k: int| 0 <= k < before.ready().len() && before.ready()[k] == x;
                    assert(before.tasks@[before.ready()[k] as int].inner.pending_lock == old(self).tasks@[before.ready()[k] as int].inner.pending_lock);
                }
                assert forall|x: int|
                    0 <= x < old(self).tasks@.len() && !old(self).ready().contains(x as usize)
                        implies #[trigger] self.tasks@[x] == old(self).tasks@[x] by {
                    if before.ready().contains(x as usize) {
                        let i = choose|i: int| 0 <= i < before.ready().len() && before.ready()[i] == x as usize;
                        assert(old(self).ready().contains(before.ready()[i]));
                    }
                }
                assert forall|p: int| 0 <= p < self.processes@.len() implies (#[trigger] self.processes@[p]).semaphore_list@
                    == old(self).processes@[p].semaphore_list@ && self.processes@[p].condvar_list@
                    == old(self).processes@[p].condvar_list@ by {
                    assert(before.processes@[p].semaphore_list@ == old(self).processes@[p].semaphore_list@);
                }
                assert forall|i: int| 0 <= i < self.ready().len() implies old(self).ready().contains(#[trigger] self.ready()[i]) by {
                    assert(before.ready().contains(self.ready()[i]));
                    let k = choose|k: int| 0 <= k < before.ready().len() && before.ready()[k] == self.ready()[i];
                    assert(old(self).ready().contains(before.ready()[k]));
                }
            }
            if settled {
                return;
            }
        }
    }

    /// The process id of the running task.
    pub open spec fn cur_pid(&self) -> usize {
        self.tasks@[self.current.unwrap() as int].pid
    }

    /// Process `pid` is registered.
    pub open spec fn has_proc(&self, pid: usize) -> bool {
        exists|i: int| 0 <= i < self.processes@.len() && (#[trigger] self.processes@[i]).pid == pid
    }

    /// Where the first process with id `pid` is.
    pub open spec fn proc_index(&self, pid: usize) -> int {
        choose|i: int| 0 <= i < self.processes@.len() && (#[trigger] self.processes@[i]).pid == pid
    }

    /// The running task's process.
    pub open spec fn cur_proc(&self) -> ProcessControlBlock {
        self.processes@[self.proc_index(self.cur_pid())]
    }

    /// The index of the running task's process.
    fn current_process(&self) -> (r: Option<usize>)
        requires
            self.wf(),
            self.current.is_some(),
        ensures
            r.is_none() <==> !self.has_proc(self.cur_pid()),
            r matches Some(pi) ==> pi == self.proc_index(self.cur_pid()) && pi < self.processes@.len(),
    {
        let c = self.current.unwrap();
        let pid = self.tasks[c].pid;
        let mut i: usize = 0;
        while i < self.processes.len()
            invariant
                i <= self.processes@.len(),
                self.wf(),
                self.current.is_some(),
                pid == self.cur_pid(),
                forall|j: int| 0 <= j < i ==> (#[trigger] self.processes@[j]).pid != pid,
            decreases self.processes@.len() - i,
        {
            if self.processes[i].pid == pid {
                proof {
                    assert(self.processes@[i as int].pid == pid);
                    assert(pid == self.cur_pid());
                    assert(self.has_proc(self.cur_pid()));
                    let k = self.proc_index(pid);
                    assert(0 <= k < self.processes@.len() && self.processes@[k].pid == pid);
                    if k != i {
                        assert(self.processes@[k].pid != self.processes@[i as int].pid);
                    }
                }
                return Some(i);
            }
            i = i + 1;
        }
        None
    }

    /// The running task blocks; the next task runs.
    pub fn block_current_and_run_next(&mut self)
        requires
            old(self).wf(),
            old(self).current.is_some(),
        ensures
            final(self).wf(),
            tables_kept(old(self).processes@, final(self).processes@),
            sched_post(
                old(self).tasks@.update(old(self).current.unwrap() as int, with_status(old(self).tasks@[old(self).current.unwrap() as int], TaskStatus::Blocked)),
                old(self).ready(),
                *final(self),
            ),
            final(self).tasks@[old(self).current.unwrap() as int] == (TaskControlBlock {
                inner: crate::task::TaskControlBlockInner {
                    task_status: TaskStatus::Blocked,
                    ..old(self).tasks@[old(self).current.unwrap() as int].inner
                },
                ..old(self).tasks@[old(self).current.unwrap() as int]
            }),
            final(self).tasks@.len() == old(self).tasks@.len(),
            final(self).processes@.len() == old(self).processes@.len(),
            forall|p: int| 0 <= p < final(self).processes@.len() ==> (#[trigger] final(self).processes@[p]).pid
                == old(self).processes@[p].pid && final(self).processes@[p].semaphore_list@
                == old(self).processes@[p].semaphore_list@ && final(self).processes@[p].condvar_list@
                == old(self).processes@[p].condvar_list@,
            final(self).timers == old(self).timers,
            final(self).time_ms == old(self).time_ms,
            old(self).ready().len() == 0 ==> final(self).current.is_none(),
            old(self).ready().len() > 0 && old(self).tasks@[old(self).ready()[0] as int].inner.pending_lock is None
                ==> final(self).current == Some(old(self).ready()[0]),
    {
        let _n = self.tasks.len();
        let c = self.current.unwrap();
        self.set_status(c, TaskStatus::Blocked);
        self.current = None;
        let ghost s1 = *self;
        proof {
            let o = old(self);
            assert forall|x: int| 0 <= x < self.tasks@.len() && (#[trigger] self.tasks@[x]).inner.task_status == TaskStatus::Running
                implies self.current == Some(x as usize) by {
                assert(o.current == Some(c));
                if x != c as int {
                    assert(self.tasks@[x] == o.tasks@[x]);
                    assert(o.current == Some(x as usize));
                    assert(x as usize == c);
                    assert(false);
                } else {
                    assert(self.tasks@[x].inner.task_status != TaskStatus::Running);
                }
            }
            assert forall|i: int| 0 <= i < self.ready().len() implies #[trigger] self.manager.queue()[i] < self.tasks@.len()
                && self.status(self.ready()[i] as int) == TaskStatus::Ready by {
                assert(o.manager.queue()[i] < o.tasks@.len());
            }
            assert(!self.ready().contains(c)) by {
                if self.ready().contains(c) {
                    let i = choose|i: int| 0 <= i < self.ready().len() && self.ready()[i] == c;
                    assert(o.manager.queue()[i] < o.tasks@.len());
                }
            }
        }
        self.schedule();
        proof {
            assert(self.tasks@[c as int] == s1.tasks@[c as int]);
        }
    }

    /// The running task goes back to the end of the ready queue; the next
    /// task runs.
    pub fn suspend_current_and_run_next(&mut self)
        requires
            old(self).wf(),
            old(self).current.is_some(),
        ensures
            final(self).wf(),
            tables_kept(old(self).processes@, final(self).processes@),
            sched_post(
                old(self).tasks@.update(old(self).current.unwrap() as int, with_status(old(self).tasks@[old(self).current.unwrap() as int], TaskStatus::Ready)),
                old(self).ready().push(old(self).current.unwrap()),
                *final(self),
            ),
            final(self).tasks@.len() == old(self).tasks@.len(),
            final(self).processes@.len() == old(self).processes@.len(),
            forall|p: int| 0 <= p < final(self).processes@.len() ==> (#[trigger] final(self).processes@[p]).pid
                == old(self).processes@[p].pid && final(self).processes@[p].semaphore_list@
                == old(self).processes@[p].semaphore_list@ && final(self).processes@[p].condvar_list@
                == old(self).processes@[p].condvar_list@,
            final(self).timers == old(self).timers,
            final(self).time_ms == old(self).time_ms,
            old(self).ready().len() > 0 && old(self).tasks@[old(self).ready()[0] as int].inner.pending_lock is None
                ==> final(self).current == Some(old(self).ready()[0]),
    {
        let _n = self.tasks.len();
        let c = self.current.unwrap();
        self.set_status(c, TaskStatus::Ready);
        self.current = None;
        proof {
            let o = old(self);
            assert forall|x: int| 0 <= x < self.tasks@.len() && (#[trigger] self.tasks@[x]).inner.task_status == TaskStatus::Running
                implies self.current == Some(x as usize) by {
                assert(o.current == Some(c));
                if x != c as int {
                    assert(self.tasks@[x] == o.tasks@[x]);
                    assert(o.current == Some(x as usize));
                    assert(x as usize == c);
                    assert(false);
                } else {
                    assert(self.tasks@[x].inner.task_status != TaskStatus::Running);
                }
            }
            assert forall|i: int| 0 <= i < self.ready().len() implies #[trigger] self.manager.queue()[i] < self.tasks@.len()
                && self.status(self.ready()[i] as int) == TaskStatus::Ready by {
                assert(o.manager.queue()[i] < o.tasks@.len());
            }
            assert(!self.ready().contains(c)) by {
                if self.ready().contains(c) {
                    let i = choose|i: int| 0 <= i < self.ready().len() && self.ready()[i] == c;
                    assert(o.manager.queue()[i] < o.tasks@.len());
                }
            }
        }
        self.add_task(c);
        self.schedule();
    }

    /// The running task ends with `exit_code`; it is never scheduled again.
    pub fn exit_current_and_run_next(&mut self, exit_code: i32)
        requires
            old(self).wf(),
            old(self).current.is_some(),
        ensures
            final(self).wf(),
            final(self).tasks@[old(self).current.unwrap() as int].inner.exit_code == Some(exit_code),
            final(self).tasks@[old(self).current.unwrap() as int].inner.trap_cx == old(self).tasks@[old(
                self,
            ).current.unwrap() as int].inner.trap_cx,
            final(self).status(old(self).current.unwrap() as int) == TaskStatus::Blocked,
            final(self).tasks@.len() == old(self).tasks@.len(),
    {
        let c = self.current.unwrap();
        let mut tcb = self.tasks[c];
        tcb.inner.exit_code = Some(exit_code);
        self.tasks.set(c, tcb);
        proof {
            let o = old(self);
            assert forall|x: int| 0 <= x < self.tasks@.len() && (#[trigger] self.tasks@[x]).inner.task_status == TaskStatus::Running
                implies self.current == Some(x as usize) by {
                assert(o.current == Some(c));
                if x != c as int {
                    assert(self.tasks@[x] == o.tasks@[x]);
                    assert(o.current == Some(x as usize));
                }
            }
            assert forall|i: int| 0 <= i < self.ready().len() implies #[trigger] self.manager.queue()[i] < self.tasks@.len()
                && self.status(self.ready()[i] as int) == TaskStatus::Ready by {
                assert(o.manager.queue()[i] < o.tasks@.len());
            }
        }
        self.block_current_and_run_next();
    }

    /// Puts `pcb` back at `pi`, where `take` left the tables.
    proof fn lemma_put_back(&self, old: &Kernel, pi: int)
        requires
            old.wf(),
            0 <= pi < old.processes@.len(),
            self.processes@ == old.processes@.update(pi, self.processes@[pi]),
            self.processes@[pi].wf(),
            self.processes@[pi].pid == old.processes@[pi].pid,
            self.tasks == old.tasks,
            self.manager == old.manager,
            self.current == old.current,
            self.timers == old.timers,
        ensures
            self.wf(),
            self.proc_index(old.processes@[pi].pid) == pi,
            old.proc_index(old.processes@[pi].pid) == pi,
            self.has_proc(old.processes@[pi].pid),
            old.has_proc(old.processes@[pi].pid),
    {
        assert forall|p: int| 0 <= p < self.processes@.len() implies (#[trigger] self.processes@[p]).wf() by {
            if p != pi {
                assert(self.processes@[p] == old.processes@[p]);
            }
        }
        assert forall|p: int, q: int|
            0 <= p < self.processes@.len() && 0 <= q < self.processes@.len() && p != q
            implies (#[trigger] self.processes@[p]).pid != (#[trigger] self.processes@[q]).pid by {
            assert(self.processes@[p].pid == old.processes@[p].pid);
            assert(self.processes@[q].pid == old.processes@[q].pid);
        }
        let pid = old.processes@[pi].pid;
        assert(self.processes@[pi].pid == pid);
        assert(old.processes@[pi].pid == pid);
        let k = self.proc_index(pid);
        if k != pi {
            assert(self.processes@[k].pid != self.processes@[pi].pid);
        }
        let k2 = old.proc_index(pid);
        if k2 != pi {
            assert(old.processes@[k2].pid != old.processes@[pi].pid);
        }
    }

    /// Creates a mutex, blocking or spinning, in the running task's process;
    /// returns its id, the first free slot, or -1 when the task has no
    /// process.
    pub fn sys_mutex_create(&mut self, blocking: bool) -> (r: isize)
        requires
            old(self).wf(),
            old(self).current.is_some(),
            old(self).has_proc(old(self).cur_pid()) ==> old(self).cur_proc().mutex_list@.len() < isize::MAX,
        ensures
            final(self).wf(),
            sys_mutex_create_post(*old(self), *final(self), blocking, r),
    {
        let pi = match self.current_process() {
            Some(pi) => pi,
            None => {
                return -1;
            },
        };
        let mut pcb = self.processes.remove(pi);
        let id = pcb.add_mutex(Mutex::new(blocking));
        self.processes.insert(pi, pcb);
        proof {
            assert(self.processes@ =~= old(self).processes@.update(pi as int, self.processes@[pi as int]));
            self.lemma_put_back(old(self), pi as int);
        }
        id as isize
    }

    /// One lock attempt of the running task on mutex `mutex_id` of its
    /// process. Free: the task takes it and keeps running. Held, blocking:
    /// the task is queued on it and blocks. Held, spinning: the task yields
    /// and tries again when it next runs. -1 when there is no such mutex.
    pub fn sys_mutex_lock(&mut self, mutex_id: usize) -> (r: isize)
        requires
            old(self).wf(),
            old(self).current.is_some(),
        ensures
            final(self).wf(),
            sys_mutex_lock_post(*old(self), *final(self), mutex_id, r),
    {
        let c = self.current.unwrap();
        let pi = match self.current_process() {
            Some(pi) => pi,
            None => {
                return -1;
            },
        };
        let mut pcb = self.processes.remove(pi);
        let res = pcb.mutex_lock(mutex_id, c);
        self.processes.insert(pi, pcb);
        proof {
            assert(self.processes@ =~= old(self).processes@.update(pi as int, self.processes@[pi as int]));
            self.lemma_put_back(old(self), pi as int);
            assert(self.cur_pid() == old(self).cur_pid());
            assert(self.proc_index(self.cur_pid()) == pi) by {
                let k = self.proc_index(self.cur_pid());
                assert(self.processes@[pi as int].pid == self.cur_pid());
                if k < pi {
                    assert(self.processes@[k] == old(self).processes@[k]);
                } else if k > pi {
                }
            }
        }
        match res {
            None => -1,
            Some((acquired, blocking)) => {
                if acquired {
                    0
                } else if blocking {
                    self.block_current_and_run_next();
                    0
                } else {
                    self.set_pending(c, Some(mutex_id));
                    self.suspend_current_and_run_next();
                    0
                }
            },
        }
    }

    /// Releases mutex `mutex_id` of the running task's process; the task it
    /// is handed to, if blocked, becomes ready. -1 when there is no such
    /// mutex.
    pub fn sys_mutex_unlock(&mut self, mutex_id: usize) -> (r: isize)
        requires
            old(self).wf(),
            old(self).current.is_some(),
            old(self).has_proc(old(self).cur_pid()) && mutex_id < old(self).cur_proc().mutex_list@.len()
                && old(self).cur_proc().mutex_list@[mutex_id as int] is Some
                && old(self).cur_proc().mutex_list@[mutex_id as int].unwrap().is_blocking()
                ==> old(self).cur_proc().mutex_list@[mutex_id as int].unwrap().is_locked(),
        ensures
            final(self).wf(),
            sys_mutex_unlock_post(*old(self), *final(self), mutex_id, r),
    {
        let pi = match self.current_process() {
            Some(pi) => pi,
            None => {
                return -1;
            },
        };
        let mut pcb = self.processes.remove(pi);
        let res = pcb.mutex_unlock(mutex_id);
        self.processes.insert(pi, pcb);
        proof {
            assert(self.processes@ =~= old(self).processes@.update(pi as int, self.processes@[pi as int]));
            self.lemma_put_back(old(self), pi as int);
        }
        match res {
            None => -1,
            Some(woken) => {
                match woken {
                    Some(w) => {
                        self.wake_blocked(w);
                    },
                    None => {},
                }
                proof {
                    assert(unlock_post(old(self).cur_proc().mutex_list@[mutex_id as int].unwrap(),
                        self.processes@[old(self).proc_index(old(self).cur_pid())].mutex_list@[mutex_id as int].unwrap(), woken));
                }
                0
            },
        }
    }

    /// Creates a semaphore with `res_count` resources in the running task's
    /// process; returns its id, the first free slot, or -1 when the task has
    /// no process.
    pub fn sys_semaphore_create(&mut self, res_count: usize) -> (r: isize)
        requires
            old(self).wf(),
            old(self).current.is_some(),
            res_count <= isize::MAX,
            old(self).has_proc(old(self).cur_pid()) ==> old(self).cur_proc().semaphore_list@.len() < isize::MAX,
        ensures
            final(self).wf(),
            sys_semaphore_create_post(*old(self), *final(self), res_count, r),
    {
        let pi = match self.current_process() {
            Some(pi) => pi,
            None => {
                return -1;
            },
        };
        let mut pcb = self.processes.remove(pi);
        let id = pcb.add_semaphore(Semaphore::new(res_count));
        self.processes.insert(pi, pcb);
        proof {
            assert(self.processes@ =~= old(self).processes@.update(pi as int, self.processes@[pi as int]));
            self.lemma_put_back(old(self), pi as int);
        }
        id as isize
    }

    /// `up` on semaphore `sem_id` of the running task's process; a waiter it
    /// frees becomes ready. -1 when there is no such semaphore or its count
    /// is at its largest.
    pub fn sys_semaphore_up(&mut self, sem_id: usize) -> (r: isize)
        requires
            old(self).wf(),
            old(self).current.is_some(),
        ensures
            final(self).wf(),
            sys_semaphore_up_post(*old(self), *final(self), sem_id, r),
    {
        let pi = match self.current_process() {
            Some(pi) => pi,
            None => {
                return -1;
            },
        };
        let mut pcb = self.processes.remove(pi);
        let res = pcb.semaphore_up(sem_id);
        self.processes.insert(pi, pcb);
        proof {
            assert(self.processes@ =~= old(self).processes@.update(pi as int, self.processes@[pi as int]));
            self.lemma_put_back(old(self), pi as int);
        }
        match res {
            None => -1,
            Some(woken) => {
                match woken {
                    Some(w) => {
                        self.wake_blocked(w);
                    },
                    None => {},
                }
                0
            },
        }
    }

    /// `down` by the running task on semaphore `sem_id` of its process;
    /// when no resource is free the task is queued and blocks. -1 when
    /// there is no such semaphore or its count is at its smallest.
    pub fn sys_semaphore_down(&mut self, sem_id: usize) -> (r: isize)
        requires
            old(self).wf(),
            old(self).current.is_some(),
        ensures
            final(self).wf(),
            sys_semaphore_down_post(*old(self), *final(self), sem_id, r),
    {
        let c = self.current.unwrap();
        let pi = match self.current_process() {
            Some(pi) => pi,
            None => {
                return -1;
            },
        };
        let mut pcb = self.processes.remove(pi);
        let res = pcb.semaphore_down(sem_id, c);
        self.processes.insert(pi, pcb);
        proof {
            assert(self.processes@ =~= old(self).processes@.update(pi as int, self.processes@[pi as int]));
            self.lemma_put_back(old(self), pi as int);
        }
        match res {
            None => -1,
            Some(blocked) => {
                if blocked {
                    let ghost before = *self;
                    self.block_current_and_run_next();
                    proof {
                        assert(self.processes@[pi as int].semaphore_list@ == before.processes@[pi as int].semaphore_list@);
                    }
                }
                0
            },
        }
    }

    /// Creates a condition variable in the running task's process; returns
    /// its id, the first free slot, or -1 when the task has no process.
    pub fn sys_condvar_create(&mut self) -> (r: isize)
        requires
            old(self).wf(),
            old(self).current.is_some(),
            old(self).has_proc(old(self).cur_pid()) ==> old(self).cur_proc().condvar_list@.len() < isize::MAX,
        ensures
            final(self).wf(),
            sys_condvar_create_post(*old(self), *final(self), r),
    {
        let pi = match self.current_process() {
            Some(pi) => pi,
            None => {
                return -1;
            },
        };
        let mut pcb = self.processes.remove(pi);
        let id = pcb.add_condvar(Condvar::new());
        self.processes.insert(pi, pcb);
        proof {
            assert(self.processes@ =~= old(self).processes@.update(pi as int, self.processes@[pi as int]));
            self.lemma_put_back(old(self), pi as int);
        }
        id as isize
    }

    /// Signals condition variable `condvar_id` of the running task's
    /// process: its first waiter, if blocked, becomes ready; with no waiter
    /// nothing changes. -1 when there is no such condition variable.
    pub fn sys_condvar_signal(&mut self, condvar_id: usize) -> (r: isize)
        requires
            old(self).wf(),
            old(self).current.is_some(),
        ensures
            final(self).wf(),
            sys_condvar_signal_post(*old(self), *final(self), condvar_id, r),
    {
        let pi = match self.current_process() {
            Some(pi) => pi,
            None => {
                return -1;
            },
        };
        let mut pcb = self.processes.remove(pi);
        let res = pcb.condvar_signal(condvar_id);
        self.processes.insert(pi, pcb);
        proof {
            assert(self.processes@ =~= old(self).processes@.update(pi as int, self.processes@[pi as int]));
            self.lemma_put_back(old(self), pi as int);
        }
        match res {
            None => -1,
            Some(woken) => {
                match woken {
                    Some(w) => {
                        self.wake_blocked(w);
                    },
                    None => {},
                }
                0
            },
        }
    }

    /// The running task waits on condition variable `condvar_id` with mutex
    /// `mutex_id`: the mutex is released (its next holder, if blocked,
    /// becomes ready), the task is queued on the condition variable and
    /// blocks, and it takes the mutex again when it next runs. -1 when
    /// either object is missing.
    pub fn sys_condvar_wait(&mut self, condvar_id: usize, mutex_id: usize) -> (r: isize)
        requires
            old(self).wf(),
            old(self).current.is_some(),
            old(self).has_proc(old(self).cur_pid()) && mutex_id < old(self).cur_proc().mutex_list@.len()
                && old(self).cur_proc().mutex_list@[mutex_id as int] is Some
                && old(self).cur_proc().mutex_list@[mutex_id as int].unwrap().is_blocking()
                ==> old(self).cur_proc().mutex_list@[mutex_id as int].unwrap().is_locked(),
        ensures
            final(self).wf(),
            sys_condvar_wait_post(*old(self), *final(self), condvar_id, mutex_id, r),
    {
        let c = self.current.unwrap();
        let pi = match self.current_process() {
            Some(pi) => pi,
            None => {
                return -1;
            },
        };
        let mut pcb = self.processes.remove(pi);
        let res = pcb.condvar_wait(condvar_id, mutex_id, c);
        self.processes.insert(pi, pcb);
        proof {
            assert(self.processes@ =~= old(self).processes@.update(pi as int, self.processes@[pi as int]));
            self.lemma_put_back(old(self), pi as int);
        }
        match res {
            None => -1,
            Some(woken) => {
                let ghost s0 = *self;
                match woken {
                    Some(w) => {
                        self.wake_blocked(w);
                    },
                    None => {},
                }
                proof {
                    assert(self.current == Some(c));
                }
                self.set_pending(c, Some(mutex_id));
                let ghost s1 = *self;
                self.block_current_and_run_next();
                proof {
                    assert(self.processes@[pi as int].condvar_list@ == s0.processes@[pi as int].condvar_list@);
                    assert(s1.tasks@[c as int].inner.pending_lock == Some(mutex_id));
                }
                0
            },
        }
    }

    /// The running task sleeps for `ms` milliseconds: a timer is set at the
    /// current time plus `ms` (at most the largest time) and the task blocks
    /// until the timer fires.
    pub fn sys_sleep(&mut self, ms: u64) -> (r: isize)
        requires
            old(self).wf(),
            old(self).current.is_some(),
        ensures
            final(self).wf(),
            sys_sleep_post(*old(self), *final(self), ms, r),
    {
        let c = self.current.unwrap();
        let expire = if ms <= u64::MAX - self.time_ms {
            self.time_ms + ms
        } else {
            u64::MAX
        };
        self.timers.add_timer(expire, c);
        self.block_current_and_run_next();
        0
    }

    /// The clock advances to `now_ms`, every timer due is taken off in
    /// expiry order and its task, if blocked and not exited, becomes ready
    /// and joins the back of the ready queue. Returns the tasks taken off.
    pub fn fire_timers(&mut self, now_ms: u64) -> (woken: Vec<usize>)
        requires
            old(self).wf(),
        ensures
            final(self).wf(),
            final(self).time_ms == now_ms,
            final(self).current == old(self).current,
            final(self).processes == old(self).processes,
            timers_fired(old(self).timers@, final(self).timers@, now_ms, woken@),
            (final(self).tasks@, final(self).ready()) == wake_all(old(self).tasks@, old(self).ready(), woken@),
    {
        self.time_ms = now_ms;
        let woken = self.timers.check_timer(now_ms);
        let ghost tm = self.timers;
        let ghost t0 = self.tasks@;
        let ghost r0 = self.ready();
        let mut i: usize = 0;
        proof {
            assert(woken@.subrange(0, 0) =~= Seq::<usize>::empty());
        }
        while i < woken.len()
            invariant
                self.wf(),
                self.time_ms == now_ms,
                self.timers == tm,
                self.current == old(self).current,
                self.processes == old(self).processes,
                i <= woken@.len(),
                (self.tasks@, self.ready()) == wake_all(t0, r0, woken@.subrange(0, i as int)),
            decreases woken@.len() - i,
        {
            proof {
                assert(woken@.subrange(0, i + 1).drop_last() =~= woken@.subrange(0, i as int));
            }
            self.wake_blocked(woken[i]);
            i = i + 1;
        }
        proof {
            assert(woken@.subrange(0, woken@.len() as int) =~= woken@);
        }
        woken
    }

    /// A timer interrupt at time `now_ms`: the due timers fire as
    /// `fire_timers` says; then the running task, if any, goes to the back
    /// of the ready queue and the scheduler runs.
    pub fn timer_tick(&mut self, now_ms: u64)
        requires
            old(self).wf(),
        ensures
            final(self).wf(),
            final(self).time_ms == now_ms,
            timer_tick_post(*old(self), *final(self), now_ms),
    {
        let woken = self.fire_timers(now_ms);
        if self.current.is_some() {
            self.suspend_current_and_run_next();
        } else {
            self.schedule();
        }
    }

    /// Whether releasing mutex `mutex_id` of the running task's process
    /// would release a blocking mutex that is not held.
    pub fn unlock_would_fail(&self, mutex_id: usize) -> (r: bool)
        requires
            self.wf(),
            self.current.is_some(),
        ensures
            r == (self.has_proc(self.cur_pid()) && mutex_id < self.cur_proc().mutex_list@.len()
                && self.cur_proc().mutex_list@[mutex_id as int] is Some
                && self.cur_proc().mutex_list@[mutex_id as int].unwrap().is_blocking()
                && !self.cur_proc().mutex_list@[mutex_id as int].unwrap().is_locked()),
    {
        let pi = match self.current_process() {
            Some(pi) => pi,
            None => {
                return false;
            },
        };
        if mutex_id >= self.processes[pi].mutex_list.len() {
            return false;
        }
        match &self.processes[pi].mutex_list[mutex_id] {
            Some(m) => {
                let blocking = match m {
                    Mutex::Blocking(_) => true,
                    Mutex::Spin(_) => false,
                };
                blocking && !m.locked()
            },
            None => false,
        }
    }

    /// Posts the signals `flags` to the running task.
    fn post_signal(&mut self, flags: u32)
        requires
            old(self).wf(),
            old(self).current.is_some(),
        ensures
            final(self).wf(),
            final(self).current == old(self).current,
            final(self).tasks@.len() == old(self).tasks@.len(),
            final(self).tasks@[old(self).current.unwrap() as int].inner.signals
                == old(self).tasks@[old(self).current.unwrap() as int].inner.signals | flags,
    {
        let c = self.current.unwrap();
        let mut tcb = self.tasks[c];
        tcb.inner.signals = tcb.inner.signals | flags;
        self.tasks.set(c, tcb);
        proof {
            let o = old(self);
            assert forall|x: int| 0 <= x < self.tasks@.len() && (#[trigger] self.tasks@[x]).inner.task_status == TaskStatus::Running
                implies self.current == Some(x as usize) by {
                assert(o.tasks@[x].inner.task_status == TaskStatus::Running);
            }
            assert forall|i: int| 0 <= i < self.ready().len() implies #[trigger] self.manager.queue()[i] < self.tasks@.len()
                && self.status(self.ready()[i] as int) == TaskStatus::Ready by {
                assert(o.manager.queue()[i] < o.tasks@.len());
            }
        }
    }

    /// Replaces the saved trap context of task `t`.
    fn set_trap_cx(&mut self, t: usize, cx: TrapContext)
        requires
            old(self).wf(),
            t < old(self).tasks@.len(),
        ensures
            final(self).wf(),
            final(self).current == old(self).current,
            final(self).tasks@.len() == old(self).tasks@.len(),
            final(self).tasks@[t as int].inner.trap_cx == cx,
    {
        let mut tcb = self.tasks[t];
        tcb.inner.trap_cx = cx;
        self.tasks.set(t, tcb);
        proof {
            let o = old(self);
            assert forall|x: int| 0 <= x < self.tasks@.len() && (#[trigger] self.tasks@[x]).inner.task_status == TaskStatus::Running
                implies self.current == Some(x as usize) by {
                assert(o.tasks@[x].inner.task_status == TaskStatus::Running);
            }
            assert forall|i: int| 0 <= i < self.ready().len() implies #[trigger] self.manager.queue()[i] < self.tasks@.len()
                && self.status(self.ready()[i] as int) == TaskStatus::Ready by {
                assert(o.manager.queue()[i] < o.tasks@.len());
            }
        }
    }

    /// Runs system call `id` with arguments `a0` and `a1` for the running
    /// task. Returns its result, or `None` when the call is one the kernel
    /// must stop on (releasing a blocking mutex that is not held). An
    /// unknown call gives -1.
    pub fn syscall(&mut self, id: usize, a0: usize, a1: usize) -> (r: Option<isize>)
        requires
            old(self).wf(),
            old(self).current.is_some(),
        ensures
            final(self).wf(),
            final(self).tasks@.len() == old(self).tasks@.len(),
            syscall_post(*old(self), *final(self), id, a0, a1, r),
    {
        if id == SYSCALL_SLEEP {
            Some(self.sys_sleep(a0 as u64))
        } else if id == SYSCALL_MUTEX_CREATE {
            if self.table_full(0) {
                return Some(-1);
            }
            Some(self.sys_mutex_create(a0 != 0))
        } else if id == SYSCALL_MUTEX_LOCK {
            Some(self.sys_mutex_lock(a0))
        } else if id == SYSCALL_MUTEX_UNLOCK {
            if self.unlock_would_fail(a0) {
                return None;
            }
            Some(self.sys_mutex_unlock(a0))
        } else if id == SYSCALL_SEMAPHORE_CREATE {
            if self.table_full(1) || a0 > isize::MAX as usize {
                return Some(-1);
            }
            Some(self.sys_semaphore_create(a0))
        } else if id == SYSCALL_SEMAPHORE_UP {
            Some(self.sys_semaphore_up(a0))
        } else if id == SYSCALL_SEMAPHORE_DOWN {
            Some(self.sys_semaphore_down(a0))
        } else if id == SYSCALL_CONDVAR_CREATE {
            if self.table_full(2) {
                return Some(-1);
            }
            Some(self.sys_condvar_create())
        } else if id == SYSCALL_CONDVAR_SIGNAL {
            Some(self.sys_condvar_signal(a0))
        } else if id == SYSCALL_CONDVAR_WAIT {
            if self.unlock_would_fail(a1) {
                return None;
            }
            Some(self.sys_condvar_wait(a0, a1))
        } else {
            Some(-1)
        }
    }

    /// Releasing mutex `mutex_id` of the running task's process would
    /// release a blocking mutex that is not held.
    pub open spec fn unlock_fails(&self, mutex_id: usize) -> bool {
        self.has_proc(self.cur_pid()) && mutex_id < self.cur_proc().mutex_list@.len()
            && self.cur_proc().mutex_list@[mutex_id as int] is Some
            && self.cur_proc().mutex_list@[mutex_id as int].unwrap().is_blocking()
            && !self.cur_proc().mutex_list@[mutex_id as int].unwrap().is_locked()
    }

    /// Whether the running task's process has no id left in its table of
    /// mutexes (0), semaphores (1) or condition variables (2).
    fn table_full(&self, which: u8) -> (r: bool)
        requires
            self.wf(),
            self.current.is_some(),
        ensures
            r == table_full_spec(*self, which),
    {
        match self.current_process() {
            Some(pi) => {
                let n = if which == 0 {
                    self.processes[pi].mutex_list.len()
                } else if which == 1 {
                    self.processes[pi].semaphore_list.len()
                } else {
                    self.processes[pi].condvar_list.len()
                };
                n >= isize::MAX as usize
            },
            None => false,
        }
    }

    /// Handles a trap from user mode taken by the running task, `stval`
    /// being the faulting address. A system call moves the saved program
    /// counter past the call and leaves the result in register a0; a memory
    /// fault posts SIGSEGV and an illegal instruction SIGILL; a timer
    /// interrupt at `now_ms` fires the due timers and makes the task yield.
    /// Then, if the running task has a fatal signal, it exits with that
    /// signal's code. Any other cause stops the kernel.
    pub fn trap_handler(&mut self, cause: TrapCause, stval: usize, now_ms: u64) -> (r: TrapOutcome)
        requires
            old(self).wf(),
            old(self).current.is_some(),
        ensures
            final(self).wf(),
            r matches TrapOutcome::Return(t) ==> final(self).current == Some(t),
            r is Idle ==> final(self).current.is_none(),
            r is Fatal <==> (cause is SupervisorExternal || cause is Other || (cause is UserEnvCall && (
                (old(self).tasks@[old(self).current.unwrap() as int].inner.trap_cx.general_regs.x@[17] == SYSCALL_MUTEX_UNLOCK
                    && old(self).unlock_fails(old(self).tasks@[old(self).current.unwrap() as int].inner.trap_cx.general_regs.x@[10]))
                || (old(self).tasks@[old(self).current.unwrap() as int].inner.trap_cx.general_regs.x@[17] == SYSCALL_CONDVAR_WAIT
                    && old(self).unlock_fails(old(self).tasks@[old(self).current.unwrap() as int].inner.trap_cx.general_regs.x@[11]))))),
            (cause is StoreFault || cause is StorePageFault || cause is InstructionFault || cause is InstructionPageFault
                || cause is LoadFault || cause is LoadPageFault) ==> final(self).tasks@[old(self).current.unwrap() as int].inner.exit_code
                == Some(fatal_code(old(self).tasks@[old(self).current.unwrap() as int].inner.signals | SignalFlags::SIGSEGV) as i32),
            cause is IllegalInstruction ==> final(self).tasks@[old(self).current.unwrap() as int].inner.exit_code
                == Some(fatal_code(old(self).tasks@[old(self).current.unwrap() as int].inner.signals | SignalFlags::SIGILL) as i32),
            (cause is StoreFault || cause is StorePageFault || cause is InstructionFault || cause is InstructionPageFault
                || cause is LoadFault || cause is LoadPageFault || cause is IllegalInstruction) ==> final(self).status(
                old(self).current.unwrap() as int,
            ) == TaskStatus::Blocked && final(self).current != old(self).current,
            cause is SupervisorTimer ==> exists|mid: Kernel|
                timer_tick_post(*old(self), mid, now_ms) && #[trigger] signals_post(mid, *final(self)),
            cause is UserEnvCall && !(r is Fatal) ==> exists|mid: Kernel, res: isize|
                #[trigger] syscall_post(
                    *old(self),
                    mid,
                    old(self).tasks@[old(self).current.unwrap() as int].inner.trap_cx.general_regs.x@[17],
                    old(self).tasks@[old(self).current.unwrap() as int].inner.trap_cx.general_regs.x@[10],
                    old(self).tasks@[old(self).current.unwrap() as int].inner.trap_cx.general_regs.x@[11],
                    Some(res),
                ) && final(self).tasks@[old(self).current.unwrap() as int].inner.trap_cx.general_regs.x@[10]
                    == encode_result(res),
            cause is UserEnvCall && !(r is Fatal) ==> {
                let c = old(self).current.unwrap() as int;
                let ocx = old(self).tasks@[c].inner.trap_cx;
                let ncx = final(self).tasks@[c].inner.trap_cx;
                &&& ncx.sepc == if ocx.sepc <= usize::MAX - 4 { (ocx.sepc + 4) as usize } else { ocx.sepc }
                &&& forall|i: int| 0 <= i < 32 && i != 10 ==> ncx.general_regs.x@[i] == ocx.general_regs.x@[i]
                &&& !is_known_syscall(ocx.general_regs.x@[17]) ==> ncx.general_regs.x@[10] == usize::MAX
            },
    {
        let c = self.current.unwrap();
        proof {
            lemma_fatal_signals(self.tasks@[c as int].inner.signals);
        }
        let mut saved: Option<TrapContext> = None;
        let ghost mut mid_state = *self;
        let ghost mut res_value: isize = 0;
        match cause {
            TrapCause::UserEnvCall => {
                let mut cx = self.tasks[c].inner.trap_cx;
                let id = cx.general_regs.x[17];
                let a0 = cx.general_regs.x[10];
                let a1 = cx.general_regs.x[11];
                let ghost before_call = *self;
                let result = match self.syscall(id, a0, a1) {
                    Some(v) => v,
                    None => {
                        return TrapOutcome::Fatal(cause, stval);
                    },
                };
                cx.sepc = if cx.sepc <= usize::MAX - 4 {
                    cx.sepc + 4
                } else {
                    cx.sepc
                };
                let value: usize = if result < 0 {
                    usize::MAX - ((-1 - result) as usize)
                } else {
                    result as usize
                };
                cx.general_regs.x.set(10, value);
                saved = Some(cx);
                proof {
                    mid_state = *self;
                    res_value = result;
                }
            },
            TrapCause::StoreFault | TrapCause::StorePageFault | TrapCause::InstructionFault
            | TrapCause::InstructionPageFault | TrapCause::LoadFault | TrapCause::LoadPageFault => {
                self.post_signal(SignalFlags::SIGSEGV);
            },
            TrapCause::IllegalInstruction => {
                self.post_signal(SignalFlags::SIGILL);
            },
            TrapCause::SupervisorTimer => {
                self.timer_tick(now_ms);
                proof {
                    mid_state = *self;
                }
            },
            _ => {
                return TrapOutcome::Fatal(cause, stval);
            },
        }
        let ghost pre_signals = *self;
        self.handle_signals();
        proof {
            if cause is SupervisorTimer {
                assert(signals_post(mid_state, *self));
            }
        }
        match saved {
            Some(cx) => {
                if c < self.tasks.len() {
                    self.set_trap_cx(c, cx);
                }
            },
            None => {},
        }
        match self.current {
            Some(t) => TrapOutcome::Return(t),
            None => TrapOutcome::Idle,
        }
    }

    /// Ends the running task if it has a fatal signal, with that signal's
    /// exit code.
    pub fn handle_signals(&mut self)
        requires
            old(self).wf(),
        ensures
            final(self).wf(),
            signals_post(*old(self), *final(self)),
    {
        match self.current {
            Some(c) => {
                let flags = SignalFlags { bits: self.tasks[c].inner.signals };
                match flags.check_error() {
                    Some((code, _msg)) => {
                        self.exit_current_and_run_next(code);
                    },
                    None => {},
                }
            },
            None => {},
        }
    }

    /// Handles a trap taken in kernel mode: a timer interrupt at `now_ms`
    /// fires the due timers; any other cause stops the kernel.
    pub fn trap_from_kernel(&mut self, cause: TrapCause, stval: usize, now_ms: u64) -> (r: Option<TrapOutcome>)
        requires
            old(self).wf(),
        ensures
            final(self).wf(),
            r.is_none() <==> cause is SupervisorTimer,
            r.is_none() ==> final(self).time_ms == now_ms,
            r.is_none() ==> exists|w: Seq<usize>|
                #[trigger] timers_fired(old(self).timers@, final(self).timers@, now_ms, w)
                    && (final(self).tasks@, final(self).ready()) == wake_all(old(self).tasks@, old(self).ready(), w),
            final(self).current == old(self).current,
            r matches Some(o) ==> o == TrapOutcome::Fatal(cause, stval) && final(self).tasks == old(self).tasks,
    {
        match cause {
            TrapCause::SupervisorTimer => {
                let woken = self.fire_timers(now_ms);
                None
            },
            _ => Some(TrapOutcome::Fatal(cause, stval)),
        }
    }

    /// A task of process `pid`: the running task if it is one, else the
    /// first such task in the ready queue.
    pub fn find_task_by_pid(&self, pid: usize) -> (r: Option<usize>)
        requires
            self.wf(),
        ensures
            self.current is Some && self.tasks@[self.current.unwrap() as int].pid == pid ==> r == self.current,
            r matches Some(t) ==> t < self.tasks@.len() && self.tasks@[t as int].pid == pid,
            r.is_none() ==> forall|i: int|
                0 <= i < self.ready().len() ==> self.tasks@[self.ready()[i] as int].pid != pid,
            r.is_none() && self.current is Some ==> self.tasks@[self.current.unwrap() as int].pid != pid,
    {
        match self.current {
            Some(c) => {
                if self.tasks[c].pid == pid {
                    return Some(c);
                }
            },
            None => {},
        }
        let r = self.manager.find_by_pid(&self.tasks, pid);
        proof {
            assert forall|i: int| 0 <= i < self.ready().len() implies self.ready()[i] < self.tasks@.len() by {
                assert(self.manager.queue()[i] < self.tasks@.len());
            }
        }
        r
    }

    /// The running task waits on condition variable `condvar_id` of its
    /// process: it is queued there and marked blocked, and no other task is
    /// dispatched yet. Returns its saved kernel context, for the caller to
    /// switch away from; `None` when there is no such condition variable.
    pub fn wait_no_sched(&mut self, condvar_id: usize) -> (r: Option<TaskContext>)
        requires
            old(self).wf(),
            old(self).current.is_some(),
        ensures
            final(self).wf(),
            r.is_none() <==> !(old(self).has_proc(old(self).cur_pid()) && condvar_id < old(self).cur_proc().condvar_list@.len()
                && old(self).cur_proc().condvar_list@[condvar_id as int] is Some),
            r.is_none() ==> final(self).tasks == old(self).tasks && final(self).current == old(self).current,
            r.is_some() ==> {
                let c = old(self).current.unwrap();
                let pi = old(self).proc_index(old(self).cur_pid());
                &&& final(self).current.is_none()
                &&& final(self).tasks@ == old(self).tasks@.update(c as int, with_status(old(self).tasks@[c as int], TaskStatus::Blocked))
                &&& final(self).ready() == old(self).ready()
                &&& final(self).processes@[pi].condvar_list@[condvar_id as int].unwrap().queue()
                    == old(self).cur_proc().condvar_list@[condvar_id as int].unwrap().queue().push(c)
                &&& r == Some(old(self).tasks@[c as int].inner.task_cx)
            },
    {
        let c = self.current.unwrap();
        let _n = self.tasks.len();
        let pi = match self.current_process() {
            Some(pi) => pi,
            None => {
                return None;
            },
        };
        let mut pcb = self.processes.remove(pi);
        let queued = pcb.condvar_enqueue(condvar_id, c);
        self.processes.insert(pi, pcb);
        proof {
            assert(self.processes@ =~= old(self).processes@.update(pi as int, self.processes@[pi as int]));
            self.lemma_put_back(old(self), pi as int);
        }
        if !queued {
            return None;
        }
        let ghost s1 = *self;
        self.set_status(c, TaskStatus::Blocked);
        self.current = None;
        proof {
            assert(s1.current == Some(c));
            assert forall|x: int| 0 <= x < self.tasks@.len() && (#[trigger] self.tasks@[x]).inner.task_status == TaskStatus::Running
                implies self.current == Some(x as usize) by {
                if x != c as int {
                    assert(self.tasks@[x] == s1.tasks@[x]);
                    assert(s1.current == Some(x as usize));
                }
            }
            assert forall|i: int| 0 <= i < self.ready().len() implies #[trigger] self.manager.queue()[i] < self.tasks@.len()
                && self.status(self.ready()[i] as int) == TaskStatus::Ready by {
                assert(s1.manager.queue()[i] < s1.tasks@.len());
                assert(s1.status(s1.ready()[i] as int) == TaskStatus::Ready);
            }
        }
        Some(self.tasks[c].inner.task_cx)
    }
}

} // verus!

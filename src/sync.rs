use vstd::prelude::*;
use std::collections::VecDeque;

verus! {

/// A mutex that a waiting task polls: a task that finds it held yields the
/// processor and tries again when it next runs.
pub struct MutexSpin {
    locked: bool,
    /// The task inside the critical section.
    holder: Ghost<Option<usize>>,
}

/// A mutex with a queue of blocked tasks. Unlocking hands the mutex to the
/// first waiter, which then runs without locking again.
pub struct MutexBlocking {
    inner: MutexBlockingInner,
}

/// The state of a blocking mutex.
pub struct MutexBlockingInner {
    locked: bool,
    wait_queue: VecDeque<usize>,
    holder: Ghost<Option<usize>>,
}

/// A mutex of either strategy, chosen when it is created.
pub enum Mutex {
    Spin(MutexSpin),
    Blocking(MutexBlocking),
}

impl MutexSpin {
    pub closed spec fn is_locked(&self) -> bool {
        self.locked
    }

    pub closed spec fn holder(&self) -> Option<usize> {
        self.holder@
    }

    pub open spec fn wf(&self) -> bool {
        self.is_locked() == self.holder().is_some()
    }

    pub fn new() -> (r: MutexSpin)
        ensures
            r.wf(),
            !r.is_locked(),
    {
        MutexSpin { locked: false, holder: Ghost(None) }
    }

    /// Takes the mutex for `cur` when it is free; returns whether it did.
    pub fn lock(&mut self, cur: usize) -> (acquired: bool)
        requires
            old(self).wf(),
        ensures
            final(self).wf(),
            acquired == !old(self).is_locked(),
            acquired ==> final(self).holder() == Some(cur),
            !acquired ==> *final(self) == *old(self),
    {
        if self.locked {
            false
        } else {
            self.locked = true;
            self.holder = Ghost(Some(cur));
            true
        }
    }

    pub fn unlock(&mut self)
        ensures
            final(self).wf(),
            !final(self).is_locked(),
    {
        self.locked = false;
        self.holder = Ghost(None);
    }

    pub fn locked(&self) -> (r: bool)
        ensures
            r == self.is_locked(),
    {
        self.locked
    }
}

impl MutexBlocking {
    pub closed spec fn is_locked(&self) -> bool {
        self.inner.locked
    }

    pub closed spec fn holder(&self) -> Option<usize> {
        self.inner.holder@
    }

    /// The blocked tasks, first to be woken first.
    pub closed spec fn queue(&self) -> Seq<usize> {
        self.inner.wait_queue@
    }

    pub open spec fn wf(&self) -> bool {
        &&& self.is_locked() == self.holder().is_some()
        &&& !self.is_locked() ==> self.queue().len() == 0
    }

    pub fn new() -> (r: MutexBlocking)
        ensures
            r.wf(),
            !r.is_locked(),
            r.queue().len() == 0,
    {
        MutexBlocking {
            inner: MutexBlockingInner { locked: false, wait_queue: VecDeque::new(), holder: Ghost(None) },
        }
    }

    /// Takes the mutex for `cur` when it is free and returns true; else
    /// queues `cur`, which must then block, and returns false.
    pub fn lock(&mut self, cur: usize) -> (acquired: bool)
        requires
            old(self).wf(),
        ensures
            final(self).wf(),
            acquired == !old(self).is_locked(),
            final(self).is_locked(),
            acquired ==> final(self).holder() == Some(cur) && final(self).queue() == old(self).queue(),
            !acquired ==> final(self).holder() == old(self).holder() && final(self).queue() == old(
                self,
            ).queue().push(cur),
    {
        if self.inner.locked {
            self.inner.wait_queue.push_back(cur);
            false
        } else {
            self.inner.locked = true;
            self.inner.holder = Ghost(Some(cur));
            true
        }
    }

    /// Releases the mutex: the first waiter, returned, becomes its holder
    /// and must be woken; with no waiter the mutex becomes free.
    pub fn unlock(&mut self) -> (woken: Option<usize>)
        requires
            old(self).wf(),
            old(self).is_locked(),
        ensures
            final(self).wf(),
            old(self).queue().len() == 0 ==> woken.is_none() && !final(self).is_locked()
                && final(self).queue().len() == 0,
            old(self).queue().len() > 0 ==> woken == Some(old(self).queue()[0]) && final(self).is_locked()
                && final(self).holder() == woken && final(self).queue() == old(self).queue().drop_first(),
    {
        match self.inner.wait_queue.pop_front() {
            Some(t) => {
                self.inner.holder = Ghost(Some(t));
                Some(t)
            },
            None => {
                self.inner.locked = false;
                self.inner.holder = Ghost(None);
                None
            },
        }
    }

    pub fn locked(&self) -> (r: bool)
        ensures
            r == self.is_locked(),
    {
        self.inner.locked
    }
}

impl Mutex {
    pub open spec fn wf(&self) -> bool {
        match self {
            Mutex::Spin(m) => m.wf(),
            Mutex::Blocking(m) => m.wf(),
        }
    }

    pub open spec fn is_locked(&self) -> bool {
        match self {
            Mutex::Spin(m) => m.is_locked(),
            Mutex::Blocking(m) => m.is_locked(),
        }
    }

    pub open spec fn holder(&self) -> Option<usize> {
        match self {
            Mutex::Spin(m) => m.holder(),
            Mutex::Blocking(m) => m.holder(),
        }
    }

    pub open spec fn is_blocking(&self) -> bool {
        self is Blocking
    }

    /// The tasks queued on a blocking mutex; none for a spin mutex.
    pub open spec fn queue(&self) -> Seq<usize> {
        match self {
            Mutex::Spin(_) => Seq::empty(),
            Mutex::Blocking(m) => m.queue(),
        }
    }

    /// A free mutex: blocking or spinning as asked.
    pub fn new(blocking: bool) -> (r: Mutex)
        ensures
            r.wf(),
            !r.is_locked(),
            r.is_blocking() == blocking,
            r.queue().len() == 0,
    {
        if blocking {
            Mutex::Blocking(MutexBlocking::new())
        } else {
            Mutex::Spin(MutexSpin::new())
        }
    }

    /// One attempt of `cur` to take the mutex. When it fails, a blocking
    /// mutex has queued `cur`, which must block; for a spin mutex `cur` must
    /// yield and try again.
    pub fn lock(&mut self, cur: usize) -> (acquired: bool)
        requires
            old(self).wf(),
        ensures
            lock_post(*old(self), *final(self), cur, acquired),
    {
        match self {
            Mutex::Spin(m) => m.lock(cur),
            Mutex::Blocking(m) => m.lock(cur),
        }
    }

    /// Releases the mutex; returns the task that now holds it and must be
    /// woken, if any.
    pub fn unlock(&mut self) -> (woken: Option<usize>)
        requires
            old(self).wf(),
            old(self).is_blocking() ==> old(self).is_locked(),
        ensures
            unlock_post(*old(self), *final(self), woken),
    {
        match self {
            Mutex::Spin(m) => {
                m.unlock();
                None
            },
            Mutex::Blocking(m) => m.unlock(),
        }
    }

    pub fn locked(&self) -> (r: bool)
        ensures
            r == self.is_locked(),
    {
        match self {
            Mutex::Spin(m) => m.locked(),
            Mutex::Blocking(m) => m.locked(),
        }
    }
}

/// What one lock attempt does.
pub open spec fn lock_post(a: Mutex, b: Mutex, cur: usize, acquired: bool) -> bool {
    &&& b.wf()
    &&& b.is_blocking() == a.is_blocking()
    &&& acquired == !a.is_locked()
    &&& b.is_locked()
    &&& acquired ==> b.holder() == Some(cur) && b.queue() == a.queue()
    &&& !acquired ==> b.holder() == a.holder() && b.queue() == if a.is_blocking() {
        a.queue().push(cur)
    } else {
        a.queue()
    }
}

/// What one unlock does: the first waiter of a blocking mutex becomes its
/// holder; with no waiter the mutex is free.
pub open spec fn unlock_post(a: Mutex, b: Mutex, woken: Option<usize>) -> bool {
    &&& b.wf()
    &&& b.is_blocking() == a.is_blocking()
    &&& a.queue().len() == 0 ==> woken.is_none() && !b.is_locked() && b.holder().is_none() && b.queue().len() == 0
    &&& a.queue().len() > 0 ==> woken == Some(a.queue()[0]) && b.is_locked() && b.holder() == woken
        && b.queue() == a.queue().drop_first()
}

/// Mutual exclusion, for both strategies: a task enters the critical
/// section only when nobody is in it, and an attempt on a held mutex leaves
/// its holder in place; an unlock passes the mutex to at most one task.
pub proof fn lemma_mutual_exclusion(a: Mutex, b: Mutex, c: Mutex, cur: usize, acquired: bool, woken: Option<usize>)
    requires
        a.wf(),
        lock_post(a, b, cur, acquired),
        unlock_post(b, c, woken),
    ensures
        acquired ==> a.holder().is_none() && b.holder() == Some(cur),
        a.holder() matches Some(h) ==> !acquired && b.holder() == Some(h),
        c.holder() == woken,
        woken matches Some(w) ==> b.is_blocking() && w == b.queue()[0],
{
}

/// One step of a run on a mutex: a lock attempt by a task and whether it
/// succeeded, or an unlock by the holder and the task it handed over to.
pub enum MutexOp {
    Lock(usize, bool),
    Unlock(Option<usize>),
}

/// The tasks inside the critical section after the first `i` steps of
/// `ops`, from a free mutex: a successful lock enters its task; an unlock
/// takes the holder out and, on a hand-over, enters the woken task.
pub open spec fn inside_after(ops: Seq<MutexOp>, i: nat) -> Set<usize>
    decreases i,
{
    if i == 0 {
        Set::empty()
    } else {
        let prev = inside_after(ops, (i - 1) as nat);
        match ops[i - 1] {
            MutexOp::Lock(t, true) => prev.insert(t),
            MutexOp::Lock(_, false) => prev,
            MutexOp::Unlock(Some(w)) => Set::empty().insert(w),
            MutexOp::Unlock(None) => Set::empty(),
        }
    }
}

/// Step `i` of a run on a mutex.
pub open spec fn mutex_step(states: Seq<Mutex>, ops: Seq<MutexOp>, i: int) -> bool {
    match ops[i] {
        MutexOp::Lock(t, acquired) => lock_post(states[i], states[i + 1], t, acquired),
        MutexOp::Unlock(w) => (states[i].is_blocking() ==> states[i].is_locked()) && unlock_post(
            states[i],
            states[i + 1],
            w,
        ),
    }
}

/// The holder as a set.
pub open spec fn holder_set(h: Option<usize>) -> Set<usize> {
    match h {
        Some(t) => Set::empty().insert(t),
        None => Set::empty(),
    }
}

/// Mutual exclusion under any interleaving, for both strategies: from a
/// free mutex, after every run of lock attempts and unlocks by any tasks,
/// the tasks inside the critical section are exactly the holder, so at
/// most one.
pub proof fn lemma_mutual_exclusion_run(states: Seq<Mutex>, ops: Seq<MutexOp>, n: nat)
    requires
        n <= ops.len(),
        states.len() == ops.len() + 1,
        states[0].wf(),
        !states[0].is_locked(),
        forall|i: int| 0 <= i < n ==> mutex_step(states, ops, i),
    ensures
        states[n as int].wf(),
        inside_after(ops, n) == holder_set(states[n as int].holder()),
        inside_after(ops, n).len() <= 1,
    decreases n,
{
    if n > 0 {
        let m = (n - 1) as nat;
        lemma_mutual_exclusion_run(states, ops, m);
        assert(mutex_step(states, ops, m as int));
        let a = states[m as int];
        let b = states[n as int];
        match ops[m as int] {
            MutexOp::Lock(t, acquired) => {
                if acquired {
                    assert(a.holder().is_none());
                    assert(inside_after(ops, n) =~= holder_set(b.holder()));
                }
            },
            MutexOp::Unlock(w) => {
                assert(inside_after(ops, n) =~= holder_set(b.holder()));
            },
        }
    }
    let h = states[n as int].holder();
    if h is Some {
        assert(holder_set(h).len() == 1);
    } else {
        assert(holder_set(h).len() == 0);
    }
}

/// A counting semaphore: `count` is the free resources less the blocked
/// waiters, and the queue holds exactly the waiters.
pub struct Semaphore {
    inner: SemaphoreInner,
}

pub struct SemaphoreInner {
    count: isize,
    wait_queue: VecDeque<usize>,
}

/// The queue length a semaphore with `count` has.
pub open spec fn waiters_for(count: int) -> int {
    if count < 0 {
        -count
    } else {
        0
    }
}

impl Semaphore {
    pub closed spec fn count(&self) -> int {
        self.inner.count as int
    }

    pub closed spec fn queue(&self) -> Seq<usize> {
        self.inner.wait_queue@
    }

    pub open spec fn wf(&self) -> bool {
        self.queue().len() == waiters_for(self.count())
    }

    pub fn new(res_count: usize) -> (r: Semaphore)
        requires
            res_count <= isize::MAX,
        ensures
            r.wf(),
            r.count() == res_count,
            r.queue().len() == 0,
    {
        Semaphore { inner: SemaphoreInner { count: res_count as isize, wait_queue: VecDeque::new() } }
    }

    /// Returns a resource; a waiter that it frees is returned, to be woken.
    pub fn up(&mut self) -> (woken: Option<usize>)
        requires
            old(self).wf(),
            old(self).count() < isize::MAX,
        ensures
            final(self).wf(),
            (final(self).count(), final(self).queue(), woken) == up_spec(old(self).count(), old(self).queue()),
    {
        self.inner.count = self.inner.count + 1;
        if self.inner.count <= 0 {
            self.inner.wait_queue.pop_front()
        } else {
            None
        }
    }

    /// Takes a resource for `cur`; returns true when none was free, in
    /// which case `cur` is queued and must block.
    pub fn down(&mut self, cur: usize) -> (blocked: bool)
        requires
            old(self).wf(),
            old(self).count() > isize::MIN,
        ensures
            final(self).wf(),
            (final(self).count(), final(self).queue(), blocked) == down_spec(
                old(self).count(),
                old(self).queue(),
                cur,
            ),
    {
        self.inner.count = self.inner.count - 1;
        if self.inner.count < 0 {
            self.inner.wait_queue.push_back(cur);
            true
        } else {
            false
        }
    }

    pub fn get_count(&self) -> (r: isize)
        ensures
            r == self.count(),
    {
        self.inner.count
    }

    pub fn waiters(&self) -> (r: usize)
        ensures
            r == self.queue().len(),
    {
        self.inner.wait_queue.len()
    }
}

/// One `up` on a semaphore with `count` and `queue`.
pub open spec fn up_spec(count: int, queue: Seq<usize>) -> (int, Seq<usize>, Option<usize>) {
    if count + 1 <= 0 && queue.len() > 0 {
        (count + 1, queue.drop_first(), Some(queue[0]))
    } else {
        (count + 1, queue, None)
    }
}

/// One `down` by `cur` on a semaphore with `count` and `queue`.
pub open spec fn down_spec(count: int, queue: Seq<usize>, cur: usize) -> (int, Seq<usize>, bool) {
    if count - 1 < 0 {
        (count - 1, queue.push(cur), true)
    } else {
        (count - 1, queue, false)
    }
}

/// `down` by each task of `ts` in turn.
pub open spec fn run_downs(count: int, queue: Seq<usize>, ts: Seq<usize>) -> (int, Seq<usize>)
    decreases ts.len(),
{
    if ts.len() == 0 {
        (count, queue)
    } else {
        let (c, q, _) = down_spec(count, queue, ts[0]);
        run_downs(c, q, ts.drop_first())
    }
}

/// `n` calls of `up`: the final state and the tasks woken, in order.
pub open spec fn run_ups(count: int, queue: Seq<usize>, n: nat) -> (int, Seq<usize>, Seq<usize>)
    decreases n,
{
    if n == 0 {
        (count, queue, Seq::empty())
    } else {
        let (c, q, w) = up_spec(count, queue);
        let (c2, q2, ws) = run_ups(c, q, (n - 1) as nat);
        (c2, q2, if w is Some { seq![w.unwrap()] + ws } else { ws })
    }
}

/// The semaphore keeps its invariant: the queue length is the missing count.
pub proof fn lemma_semaphore_invariant(count: int, queue: Seq<usize>, cur: usize)
    requires
        queue.len() == waiters_for(count),
    ensures
        ({
            let (c, q, _) = down_spec(count, queue, cur);
            q.len() == waiters_for(c)
        }),
        ({
            let (c, q, _) = up_spec(count, queue);
            q.len() == waiters_for(c)
        }),
{
}

/// Downs beyond the initial count block exactly the excess callers, queued
/// in call order.
pub proof fn lemma_downs_block_excess(count: nat, ts: Seq<usize>)
    ensures
        run_downs(count as int, Seq::empty(), ts) == (
            count - ts.len(),
            if ts.len() <= count { Seq::empty() } else { ts.subrange(count as int, ts.len() as int) },
        ),
    decreases ts.len(),
{
    if ts.len() > 0 {
        if count == 0 {
            lemma_downs_from_empty_queue(0, Seq::empty(), ts);
            assert(ts.subrange(0, ts.len() as int) =~= ts);
        } else {
            lemma_downs_block_excess((count - 1) as nat, ts.drop_first());
            if ts.len() > count {
                assert(ts.drop_first().subrange((count - 1) as int, ts.drop_first().len() as int)
                    =~= ts.subrange(count as int, ts.len() as int));
            }
        }
    }
}

/// With no free resource left, every down queues its caller.
proof fn lemma_downs_from_empty_queue(count: int, queue: Seq<usize>, ts: Seq<usize>)
    requires
        count <= 0,
    ensures
        run_downs(count, queue, ts) == (count - ts.len(), queue + ts),
    decreases ts.len(),
{
    if ts.len() == 0 {
        assert(queue + ts =~= queue);
    } else {
        lemma_downs_from_empty_queue(count - 1, queue.push(ts[0]), ts.drop_first());
        assert(queue.push(ts[0]) + ts.drop_first() =~= queue + ts);
    }
}

/// Matching ups wake the blocked waiters in the order they blocked.
pub proof fn lemma_ups_wake_fifo(queue: Seq<usize>, n: nat)
    requires
        n <= queue.len(),
    ensures
        run_ups(-(queue.len() as int), queue, n) == (
            n - queue.len(),
            queue.subrange(n as int, queue.len() as int),
            queue.subrange(0, n as int),
        ),
    decreases n,
{
    if n == 0 {
        assert(queue.subrange(0, queue.len() as int) =~= queue);
        assert(queue.subrange(0, 0) =~= Seq::<usize>::empty());
    } else {
        let q = queue.drop_first();
        lemma_ups_wake_fifo(q, (n - 1) as nat);
        assert(q.subrange((n - 1) as int, q.len() as int) =~= queue.subrange(n as int, queue.len() as int));
        assert(seq![queue[0]] + q.subrange(0, (n - 1) as int) =~= queue.subrange(0, n as int));
    }
}

/// A condition variable: only a queue of waiting tasks.
pub struct Condvar {
    inner: CondvarInner,
}

pub struct CondvarInner {
    wait_queue: VecDeque<usize>,
}

impl Condvar {
    pub closed spec fn queue(&self) -> Seq<usize> {
        self.inner.wait_queue@
    }

    pub fn new() -> (r: Condvar)
        ensures
            r.queue().len() == 0,
    {
        Condvar { inner: CondvarInner { wait_queue: VecDeque::new() } }
    }

    /// Takes the first waiter off the queue, to be woken; with no waiter
    /// nothing changes.
    pub fn signal(&mut self) -> (woken: Option<usize>)
        ensures
            old(self).queue().len() == 0 ==> woken.is_none() && final(self).queue() == old(self).queue(),
            old(self).queue().len() > 0 ==> woken == Some(old(self).queue()[0]) && final(self).queue()
                == old(self).queue().drop_first(),
    {
        self.inner.wait_queue.pop_front()
    }

    /// Queues `cur`, which must then block.
    pub fn wait_no_sched(&mut self, cur: usize)
        ensures
            final(self).queue() == old(self).queue().push(cur),
    {
        self.inner.wait_queue.push_back(cur);
    }

    /// Releases `mutex` and queues `cur`, which must then block and, once
    /// woken, take the mutex again. Returns the task that the release hands
    /// the mutex to, which must be woken.
    pub fn wait_with_mutex(&mut self, cur: usize, mutex: &mut Mutex) -> (woken: Option<usize>)
        requires
            old(mutex).wf(),
            old(mutex).is_blocking() ==> old(mutex).is_locked(),
        ensures
            unlock_post(*old(mutex), *final(mutex), woken),
            final(self).queue() == old(self).queue().push(cur),
    {
        let woken = mutex.unlock();
        self.inner.wait_queue.push_back(cur);
        woken
    }

    pub fn waiters(&self) -> (r: usize)
        ensures
            r == self.queue().len(),
    {
        self.inner.wait_queue.len()
    }
}

} // verus!

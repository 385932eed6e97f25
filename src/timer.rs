use vstd::prelude::*;
use crate::config::{CLOCK_FREQ, MSEC_PER_SEC, TICKS_PER_SEC, USEC_PER_SEC};

verus! {

/// The clock's frequency in ticks per second.
pub fn get_clock_freq() -> (r: usize)
    ensures
        r == CLOCK_FREQ,
{
    CLOCK_FREQ
}

/// Whole seconds in a clock reading of `ticks`.
pub fn get_time_sec(ticks: u64) -> (r: u64)
    ensures
        r == ticks / CLOCK_FREQ as u64,
{
    ticks / CLOCK_FREQ as u64
}

/// Milliseconds in a clock reading of `ticks`.
pub fn get_time_ms(ticks: u64) -> (r: u64)
    ensures
        r == ticks / (CLOCK_FREQ / MSEC_PER_SEC) as u64,
{
    ticks / (CLOCK_FREQ / MSEC_PER_SEC) as u64
}

/// Microseconds in a clock reading of `ticks`, at the clock's whole
/// number of ticks per microsecond.
pub fn get_time_us(ticks: u64) -> (r: u64)
    ensures
        r == ticks / (CLOCK_FREQ / USEC_PER_SEC) as u64,
{
    ticks / (CLOCK_FREQ / USEC_PER_SEC) as u64
}

/// The clock reading at which the next timer interrupt is due, one tick
/// period after `now`.
pub fn set_next_trigger(now: u64) -> (r: u64)
    requires
        now + CLOCK_FREQ / TICKS_PER_SEC <= u64::MAX,
    ensures
        r == now + CLOCK_FREQ / TICKS_PER_SEC,
{
    now + (CLOCK_FREQ / TICKS_PER_SEC) as u64
}

/// A pending wake-up: `task` sleeps until the clock reaches `expire_ms`.
#[derive(Clone, Copy, PartialEq, Eq, Structural, Debug)]
pub struct TimerCondVar {
    pub expire_ms: u64,
    pub task: usize,
}

/// The pending timers, earliest first; among equal expiries, the first
/// added comes first.
pub struct TimerQueue {
    timers: Vec<TimerCondVar>,
}

/// `s` is ordered by expiry.
pub open spec fn sorted(s: Seq<TimerCondVar>) -> bool {
    forall|i: int, j: int| 0 <= i < j < s.len() ==> s[i].expire_ms <= s[j].expire_ms
}

/// `b` is `a` with `e` inserted somewhere.
pub open spec fn inserted(a: Seq<TimerCondVar>, b: Seq<TimerCondVar>, e: TimerCondVar) -> bool {
    exists|k: int| 0 <= k <= a.len() && #[trigger] a.insert(k, e) == b
}

/// The tasks of `s`, in order.
pub open spec fn tasks_of(s: Seq<TimerCondVar>) -> Seq<usize> {
    s.map_values(|t: TimerCondVar| t.task)
}

impl TimerQueue {
    pub closed spec fn view(&self) -> Seq<TimerCondVar> {
        self.timers@
    }

    pub open spec fn wf(&self) -> bool {
        sorted(self@)
    }

    pub fn new() -> (r: TimerQueue)
        ensures
            r.wf(),
            r@.len() == 0,
    {
        TimerQueue { timers: Vec::new() }
    }

    pub fn len(&self) -> (r: usize)
        ensures
            r == self@.len(),
    {
        self.timers.len()
    }

    /// Registers a wake-up of `task` at `expire_ms`, after every pending
    /// one due at or before it.
    pub fn add_timer(&mut self, expire_ms: u64, task: usize)
        requires
            old(self).wf(),
        ensures
            final(self).wf(),
            exists|k: int|
                0 <= k <= old(self)@.len() && final(self)@ == old(self)@.insert(
                    k,
                    TimerCondVar { expire_ms, task },
                ) && (forall|i: int| 0 <= i < k ==> old(self)@[i].expire_ms <= expire_ms) && (forall|
                    i: int,
                |
                    k <= i < old(self)@.len() ==> old(self)@[i].expire_ms > expire_ms),
    {
        let mut k: usize = 0;
        while k < self.timers.len() && self.timers[k].expire_ms <= expire_ms
            invariant
                k <= self@.len(),
                self@ == old(self)@,
                sorted(self@),
                forall|i: int| 0 <= i < k ==> self@[i].expire_ms <= expire_ms,
            decreases self@.len() - k,
        {
            k = k + 1;
        }
        let ghost s = self@;
        proof {
            assert forall|i: int| k <= i < s.len() implies s[i].expire_ms > expire_ms by {
                assert(s[k as int].expire_ms > expire_ms);
            }
        }
        self.timers.insert(k, TimerCondVar { expire_ms, task });
        proof {
            let t = TimerCondVar { expire_ms, task };
            assert forall|i: int, j: int| 0 <= i < j < self@.len() implies self@[i].expire_ms <= self@[j].expire_ms by {
                if j < k {
                } else if j == k {
                } else if i < k {
                    assert(self@[j] == s[j - 1]);
                } else if i == k {
                    assert(self@[j] == s[j - 1]);
                } else {
                    assert(self@[i] == s[i - 1]);
                    assert(self@[j] == s[j - 1]);
                }
            }
        }
    }

    /// Takes off every timer due at `now` or earlier and returns their
    /// tasks, earliest first; it stops at the first timer still in the
    /// future, and every timer left is in the future.
    pub fn check_timer(&mut self, now: u64) -> (woken: Vec<usize>)
        requires
            old(self).wf(),
        ensures
            final(self).wf(),
            exists|k: int|
                0 <= k <= old(self)@.len() && woken@ == tasks_of(old(self)@.subrange(0, k)) && final(self)@
                    == old(self)@.subrange(k, old(self)@.len() as int) && (forall|i: int|
                    0 <= i < k ==> old(self)@[i].expire_ms <= now) && (forall|i: int|
                    k <= i < old(self)@.len() ==> old(self)@[i].expire_ms > now),
    {
        let mut woken: Vec<usize> = Vec::new();
        let ghost s = self@;
        let ghost mut k: int = 0;
        while self.timers.len() > 0 && self.timers[0].expire_ms <= now
            invariant
                0 <= k <= s.len(),
                sorted(s),
                self@ == s.subrange(k, s.len() as int),
                woken@ == tasks_of(s.subrange(0, k)),
                forall|i: int| 0 <= i < k ==> s[i].expire_ms <= now,
            decreases self@.len(),
        {
            let t = self.timers.remove(0);
            woken.push(t.task);
            proof {
                assert(s.subrange(0, k + 1) =~= s.subrange(0, k).push(t));
                assert(tasks_of(s.subrange(0, k + 1)) =~= tasks_of(s.subrange(0, k)).push(t.task));
                k = k + 1;
                assert(self@ =~= s.subrange(k, s.len() as int));
            }
        }
        proof {
            assert forall|i: int| k <= i < s.len() implies s[i].expire_ms > now by {
                assert(s[k].expire_ms > now);
            }
        }
        woken
    }
}

/// Takes off every timer of `timers` due at `now_ms` or earlier and returns
/// their tasks, earliest first.
pub fn check_timer(timers: &mut TimerQueue, now_ms: u64) -> (woken: Vec<usize>)
    requires
        old(timers).wf(),
    ensures
        final(timers).wf(),
        exists|k: int|
            0 <= k <= old(timers)@.len() && woken@ == tasks_of(old(timers)@.subrange(0, k)) && final(timers)@
                == old(timers)@.subrange(k, old(timers)@.len() as int) && (forall|i: int|
                0 <= i < k ==> old(timers)@[i].expire_ms <= now_ms) && (forall|i: int|
                k <= i < old(timers)@.len() ==> old(timers)@[i].expire_ms > now_ms),
{
    timers.check_timer(now_ms)
}

} // verus!

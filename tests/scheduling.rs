use os_kernel::address::PhysPageNum;
use os_kernel::kernel::{Kernel, ProcessControlBlock};
use os_kernel::sync::{Condvar, Mutex, MutexBlocking, MutexSpin, Semaphore};
use os_kernel::task::{TaskContext, TaskManager, TaskStatus};
use os_kernel::timer::{check_timer, get_time_ms, get_time_sec, get_time_us, set_next_trigger, TimerQueue};

fn kernel_with_tasks(n: usize) -> (Kernel, Vec<usize>) {
    let mut k = Kernel::new();
    k.insert_into_pid2process(ProcessControlBlock::new(1));
    let mut ts = Vec::new();
    for i in 0..n {
        ts.push(k.spawn(1, None, PhysPageNum(0), 0x1000 * (i + 1), 0xdead));
    }
    k.schedule();
    (k, ts)
}

fn status(k: &Kernel, t: usize) -> TaskStatus {
    k.tasks[t].inner.task_status
}

#[test]
fn task_manager_is_fifo() {
    let mut m = TaskManager::new();
    m.add(3);
    m.add(1);
    m.add(2);
    assert_eq!(m.fetch(), Some(3));
    assert_eq!(m.fetch(), Some(1));
    assert_eq!(m.fetch(), Some(2));
    assert_eq!(m.fetch(), None);
}

#[test]
fn schedule_runs_the_first_ready_task() {
    let (k, ts) = kernel_with_tasks(3);
    assert_eq!(k.current, Some(ts[0]));
    assert_eq!(status(&k, ts[0]), TaskStatus::Running);
    assert_eq!(status(&k, ts[1]), TaskStatus::Ready);
    assert_eq!(k.manager.len(), 2);
}

#[test]
fn task_context_for_trap_return() {
    let c = TaskContext::goto_trap_return(0x8020_0000, 0x9000);
    assert_eq!(c.ra, 0x8020_0000);
    assert_eq!(c.sp, 0x9000);
    assert_eq!(c.s, [0; 12]);
    let z = TaskContext::zero_init();
    assert_eq!(z.ra, 0);
    assert_eq!(z.sp, 0);
}

#[test]
fn blocking_mutex_hands_over_to_the_waiter() {
    let (mut k, ts) = kernel_with_tasks(2);
    let (a, b) = (ts[0], ts[1]);
    assert_eq!(k.sys_mutex_create(true), 0);
    assert_eq!(k.sys_mutex_lock(0), 0);
    assert_eq!(k.current, Some(a));
    k.suspend_current_and_run_next();
    assert_eq!(k.current, Some(b));
    assert_eq!(k.sys_mutex_lock(0), 0);
    assert_eq!(status(&k, b), TaskStatus::Blocked);
    assert_eq!(k.current, Some(a));
    assert_eq!(k.sys_mutex_unlock(0), 0);
    assert_eq!(status(&k, b), TaskStatus::Ready);
    assert!(k.processes[0].mutex_list[0].as_ref().unwrap().locked());
    k.suspend_current_and_run_next();
    assert_eq!(k.current, Some(b));
    assert!(k.tasks[b].inner.pending_lock.is_none());
    assert_eq!(k.sys_mutex_unlock(0), 0);
    assert!(!k.processes[0].mutex_list[0].as_ref().unwrap().locked());
}

#[test]
fn spin_mutex_makes_the_waiter_retry() {
    let (mut k, ts) = kernel_with_tasks(2);
    let (a, b) = (ts[0], ts[1]);
    assert_eq!(k.sys_mutex_create(false), 0);
    assert_eq!(k.sys_mutex_lock(0), 0);
    k.suspend_current_and_run_next();
    assert_eq!(k.current, Some(b));
    assert_eq!(k.sys_mutex_lock(0), 0);
    assert_eq!(status(&k, b), TaskStatus::Ready);
    assert_eq!(k.tasks[b].inner.pending_lock, Some(0));
    assert_eq!(k.current, Some(a));
    assert_eq!(k.sys_mutex_unlock(0), 0);
    k.suspend_current_and_run_next();
    assert_eq!(k.current, Some(b));
    assert!(k.tasks[b].inner.pending_lock.is_none());
    assert!(k.processes[0].mutex_list[0].as_ref().unwrap().locked());
}

#[test]
fn mutual_exclusion_under_interleaving() {
    let (mut k, ts) = kernel_with_tasks(3);
    assert_eq!(k.sys_mutex_create(true), 0);
    let mut holder: Option<usize> = None;
    for round in 0..40usize {
        let cur = match k.current {
            Some(c) => c,
            None => break,
        };
        if holder == Some(cur) {
            let before: Vec<TaskStatus> = ts.iter().map(|&t| status(&k, t)).collect();
            assert_eq!(k.sys_mutex_unlock(0), 0);
            let woken: Vec<usize> = ts
                .iter()
                .copied()
                .filter(|&t| before[t] == TaskStatus::Blocked && status(&k, t) == TaskStatus::Ready)
                .collect();
            assert!(woken.len() <= 1);
            holder = woken.first().copied();
            assert_eq!(k.processes[0].mutex_list[0].as_ref().unwrap().locked(), holder.is_some());
        } else if round % 2 == 0 || round % 3 == 0 {
            assert_eq!(k.sys_mutex_lock(0), 0);
            if k.current == Some(cur) {
                assert!(holder.is_none());
                holder = Some(cur);
            } else {
                assert_eq!(status(&k, cur), TaskStatus::Blocked);
                assert!(holder.is_some());
            }
        }
        if k.current.is_some() {
            k.suspend_current_and_run_next();
        }
    }
}

#[test]
fn semaphore_blocks_the_excess_and_wakes_in_order() {
    let (mut k, ts) = kernel_with_tasks(4);
    assert_eq!(k.sys_semaphore_create(1), 0);
    assert_eq!(k.sys_semaphore_down(0), 0);
    assert_eq!(k.current, Some(ts[0]));
    k.suspend_current_and_run_next();
    assert_eq!(k.sys_semaphore_down(0), 0);
    assert_eq!(status(&k, ts[1]), TaskStatus::Blocked);
    assert_eq!(k.current, Some(ts[2]));
    assert_eq!(k.sys_semaphore_down(0), 0);
    assert_eq!(status(&k, ts[2]), TaskStatus::Blocked);
    let sem = k.processes[0].semaphore_list[0].as_ref().unwrap();
    assert_eq!(sem.get_count(), -2);
    assert_eq!(sem.waiters(), 2);
    assert_eq!(k.current, Some(ts[3]));
    assert_eq!(k.sys_semaphore_up(0), 0);
    assert_eq!(status(&k, ts[1]), TaskStatus::Ready);
    assert_eq!(status(&k, ts[2]), TaskStatus::Blocked);
    assert_eq!(k.sys_semaphore_up(0), 0);
    assert_eq!(status(&k, ts[2]), TaskStatus::Ready);
    let sem = k.processes[0].semaphore_list[0].as_ref().unwrap();
    assert_eq!(sem.get_count(), 0);
    assert_eq!(sem.waiters(), 0);
}

#[test]
fn semaphore_queue_length_tracks_count() {
    let mut s = Semaphore::new(2);
    for t in 0..5usize {
        let blocked = s.down(t);
        assert_eq!(blocked, t >= 2);
        let c = s.get_count();
        assert_eq!(s.waiters() as isize, if c < 0 { -c } else { 0 });
    }
    assert_eq!(s.up(), Some(2));
    assert_eq!(s.up(), Some(3));
    assert_eq!(s.up(), Some(4));
    assert_eq!(s.up(), None);
    assert_eq!(s.get_count(), 1);
}

#[test]
fn condvar_signal_on_empty_queue_is_a_no_op() {
    let mut cv = Condvar::new();
    assert_eq!(cv.signal(), None);
    assert_eq!(cv.waiters(), 0);
    let (mut k, _ts) = kernel_with_tasks(1);
    assert_eq!(k.sys_condvar_create(), 0);
    let before = k.manager.len();
    assert_eq!(k.sys_condvar_signal(0), 0);
    assert_eq!(k.manager.len(), before);
}

#[test]
fn condvar_signal_wakes_the_first_waiter() {
    let mut cv = Condvar::new();
    cv.wait_no_sched(5);
    cv.wait_no_sched(6);
    cv.wait_no_sched(7);
    assert_eq!(cv.signal(), Some(5));
    assert_eq!(cv.waiters(), 2);
    assert_eq!(cv.signal(), Some(6));
}

#[test]
fn condvar_wait_releases_and_retakes_the_mutex() {
    let (mut k, ts) = kernel_with_tasks(2);
    let (a, b) = (ts[0], ts[1]);
    assert_eq!(k.sys_mutex_create(true), 0);
    assert_eq!(k.sys_condvar_create(), 0);
    assert_eq!(k.sys_mutex_lock(0), 0);
    assert_eq!(k.sys_condvar_wait(0, 0), 0);
    assert_eq!(status(&k, a), TaskStatus::Blocked);
    assert!(!k.processes[0].mutex_list[0].as_ref().unwrap().locked());
    assert_eq!(k.current, Some(b));
    assert_eq!(k.sys_mutex_lock(0), 0);
    assert_eq!(k.sys_condvar_signal(0), 0);
    assert_eq!(status(&k, a), TaskStatus::Ready);
    assert_eq!(k.sys_mutex_unlock(0), 0);
    k.suspend_current_and_run_next();
    assert_eq!(k.current, Some(a));
    assert!(k.tasks[a].inner.pending_lock.is_none());
    assert!(k.processes[0].mutex_list[0].as_ref().unwrap().locked());
}

#[test]
fn wait_with_mutex_hands_the_mutex_on() {
    let mut m = Mutex::Blocking(MutexBlocking::new());
    assert!(m.lock(1));
    assert!(!m.lock(2));
    let mut cv = Condvar::new();
    assert_eq!(cv.wait_with_mutex(1, &mut m), Some(2));
    assert!(m.locked());
    assert_eq!(cv.waiters(), 1);
    let mut s = MutexSpin::new();
    assert!(s.lock(1));
    assert!(!s.lock(2));
    s.unlock();
    assert!(s.lock(2));
}

#[test]
fn timers_fire_in_expiry_order() {
    let mut q = TimerQueue::new();
    q.add_timer(50, 0);
    q.add_timer(10, 1);
    q.add_timer(30, 2);
    assert_eq!(q.check_timer(40), vec![1, 2]);
    assert_eq!(q.len(), 1);
    assert_eq!(q.check_timer(49), Vec::<usize>::new());
    assert_eq!(q.check_timer(50), vec![0]);
}

#[test]
fn sleep_resumes_only_when_due() {
    let (mut k, ts) = kernel_with_tasks(1);
    let a = ts[0];
    k.timer_tick(1000);
    assert_eq!(k.current, Some(a));
    assert_eq!(k.sys_sleep(100), 0);
    assert_eq!(status(&k, a), TaskStatus::Blocked);
    assert_eq!(k.current, None);
    k.timer_tick(1050);
    assert_eq!(status(&k, a), TaskStatus::Blocked);
    k.timer_tick(1099);
    assert_eq!(status(&k, a), TaskStatus::Blocked);
    k.timer_tick(1100);
    assert_eq!(k.current, Some(a));
    assert_eq!(status(&k, a), TaskStatus::Running);
}

#[test]
fn clock_conversions() {
    assert_eq!(get_time_sec(25_000_000), 2);
    assert_eq!(get_time_ms(25_000_000), 2000);
    assert_eq!(get_time_us(24), 2);
    assert_eq!(set_next_trigger(1000), 1000 + 500_000);
    let mut q = TimerQueue::new();
    q.add_timer(5, 9);
    assert_eq!(check_timer(&mut q, 5), vec![9]);
}

#[test]
fn invalid_ids_fail_closed() {
    let (mut k, _ts) = kernel_with_tasks(1);
    assert_eq!(k.sys_mutex_lock(3), -1);
    assert_eq!(k.sys_mutex_unlock(0), -1);
    assert_eq!(k.sys_semaphore_up(0), -1);
    assert_eq!(k.sys_semaphore_down(0), -1);
    assert_eq!(k.sys_condvar_signal(0), -1);
    assert_eq!(k.sys_condvar_wait(0, 0), -1);
}

#[test]
fn freed_pid_is_gone() {
    let mut k = Kernel::new();
    k.insert_into_pid2process(ProcessControlBlock::new(7));
    k.insert_into_pid2process(ProcessControlBlock::new(8));
    assert_eq!(k.pid2process(8), Some(1));
    k.remove_from_pid2process(7);
    assert_eq!(k.pid2process(7), None);
    assert_eq!(k.pid2process(8), Some(0));
}

#[test]
fn create_calls_reuse_the_first_free_slot() {
    let (mut k, _ts) = kernel_with_tasks(1);
    assert_eq!(k.sys_mutex_create(true), 0);
    assert_eq!(k.sys_mutex_create(false), 1);
    assert_eq!(k.processes[0].mutex_list.len(), 2);
    k.processes[0].mutex_list[0] = None;
    assert_eq!(k.sys_mutex_create(false), 0);
    assert_eq!(k.processes[0].mutex_list.len(), 2);
    assert_eq!(k.sys_semaphore_create(3), 0);
    assert_eq!(k.processes[0].semaphore_list[0].as_ref().unwrap().get_count(), 3);
    assert_eq!(k.sys_condvar_create(), 0);
    assert_eq!(k.sys_condvar_create(), 1);
}

#[test]
fn blocked_lockers_queue_in_order() {
    let (mut k, ts) = kernel_with_tasks(3);
    assert_eq!(k.sys_mutex_create(true), 0);
    assert_eq!(k.sys_mutex_lock(0), 0);
    k.suspend_current_and_run_next();
    assert_eq!(k.sys_mutex_lock(0), 0);
    assert_eq!(k.current, Some(ts[2]));
    assert_eq!(k.sys_mutex_lock(0), 0);
    assert_eq!(k.current, Some(ts[0]));
    assert_eq!(k.sys_mutex_unlock(0), 0);
    assert_eq!(status(&k, ts[1]), TaskStatus::Ready);
    assert_eq!(status(&k, ts[2]), TaskStatus::Blocked);
}

#[test]
fn timer_interrupt_wakes_due_sleepers_in_expiry_order() {
    let (mut k, ts) = kernel_with_tasks(4);
    assert_eq!(k.sys_sleep(50), 0);
    assert_eq!(k.sys_sleep(10), 0);
    assert_eq!(k.sys_sleep(30), 0);
    assert_eq!(k.current, Some(ts[3]));
    assert_eq!(k.trap_from_kernel(os_kernel::trap::TrapCause::SupervisorTimer, 0, 40), None);
    assert_eq!(status(&k, ts[1]), TaskStatus::Ready);
    assert_eq!(status(&k, ts[2]), TaskStatus::Ready);
    assert_eq!(status(&k, ts[0]), TaskStatus::Blocked);
    assert_eq!(k.timers.len(), 1);
    assert_eq!(k.current, Some(ts[3]));
    k.suspend_current_and_run_next();
    assert_eq!(k.current, Some(ts[1]));
    k.suspend_current_and_run_next();
    assert_eq!(k.current, Some(ts[2]));
}

#[test]
fn wait_no_sched_queues_and_blocks_without_dispatch() {
    let (mut k, ts) = kernel_with_tasks(2);
    assert_eq!(k.sys_condvar_create(), 0);
    assert!(k.wait_no_sched(1).is_none());
    let cx = k.wait_no_sched(0).unwrap();
    assert_eq!(cx.sp, 0x1000);
    assert_eq!(status(&k, ts[0]), TaskStatus::Blocked);
    assert_eq!(k.current, None);
    assert_eq!(k.processes[0].condvar_list[0].as_ref().unwrap().waiters(), 1);
    k.schedule();
    assert_eq!(k.current, Some(ts[1]));
}

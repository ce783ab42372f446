use kernel_core::kernel::Kernel;
use kernel_core::loader::{AppImage, Segment};
use kernel_core::mm::memory_set::MapPermission;
use kernel_core::sync::condvar::Condvar;
use kernel_core::sync::mutex::{LockOutcome, Mutex, MutexBlocking, MutexSpin};
use kernel_core::sync::semaphore::Semaphore;
use kernel_core::syscall::process::sys_yield;
use kernel_core::syscall::sync::{
    resume_pending, sleep, sys_condvar_create, sys_condvar_signal, sys_condvar_wait, sys_enable_deadlock_detect,
    sys_mutex_create, sys_mutex_lock, sys_mutex_unlock, sys_semaphore_create, sys_semaphore_down,
    sys_semaphore_up, sys_sleep, sys_thread_create,
};
use kernel_core::task::process::MutexKind;
use kernel_core::task::task::{Pending, TaskId, TaskStatus};

const DEADLOCK: isize = -0xDEAD;

fn boot() -> Kernel {
    let apps = vec![AppImage {
        name: b"init".to_vec(),
        entry: 0x10000,
        segments: vec![Segment {
            start_va: 0x10000,
            end_va: 0x11000,
            perm: MapPermission { r: true, w: false, x: true, u: false },
            data: vec![],
        }],
    }];
    let mut k = Kernel::new(0x80000, 0x80040, 4, apps, 0).unwrap();
    k.run_next();
    k
}

fn task(tid: usize) -> TaskId {
    TaskId { pid: 0, tid }
}

fn status(k: &Kernel, tid: usize) -> TaskStatus {
    k.procs[0].as_ref().unwrap().tasks[tid].task_status
}

fn locked(k: &Kernel, id: usize) -> bool {
    k.procs[0].as_ref().unwrap().mutex_list[id].as_ref().unwrap().mutex.is_locked()
}

/// Thread 0 runs; thread 1 is created and ready.
fn two_threads() -> Kernel {
    let mut k = boot();
    assert_eq!(sys_thread_create(&mut k, 0x10100, 0x14000, 7), 1);
    k
}

/// Takes the running thread off the processor and runs the next.
fn switch(k: &mut Kernel) {
    sys_yield(k);
    k.run_next();
}

#[test]
fn spin_mutex_decides() {
    let mut m = MutexSpin::new();
    assert!(matches!(m.lock(0, false), LockOutcome::Acquired));
    assert!(m.is_locked());
    assert!(matches!(m.lock(1, false), LockOutcome::MustYield));
    assert!(matches!(m.lock(1, true), LockOutcome::WouldDeadlock));
    assert_eq!(m.unlock(), None);
    assert!(!m.is_locked());
}

#[test]
fn blocking_mutex_passes_to_the_first_waiter() {
    let mut m = MutexBlocking::new();
    assert!(matches!(m.lock(0, false), LockOutcome::Acquired));
    assert!(matches!(m.lock(1, false), LockOutcome::MustBlock));
    assert!(matches!(m.lock(2, false), LockOutcome::MustBlock));
    assert!(matches!(m.lock(3, true), LockOutcome::WouldDeadlock));
    assert_eq!(m.waiting(), 2);
    assert_eq!(m.unlock(), Some(1));
    assert!(m.is_locked());
    assert_eq!(m.unlock(), Some(2));
    assert_eq!(m.unlock(), None);
    assert!(!m.is_locked());
}

#[test]
fn semaphore_counts_waiters_below_zero() {
    let mut s = Semaphore::new(1);
    assert!(!s.down(0));
    assert!(s.down(1));
    assert!(s.down(2));
    assert_eq!((s.value(), s.waiting()), (-2, 2));
    assert_eq!(s.up(), Some(1));
    assert_eq!(s.up(), Some(2));
    assert_eq!(s.up(), None);
    assert_eq!((s.value(), s.waiting()), (1, 0));
}

#[test]
fn condvar_wakes_first_come_first() {
    let mut c = Condvar::new();
    assert_eq!(c.signal(), None);
    c.wait(4);
    c.wait(2);
    assert_eq!(c.waiting(), 2);
    assert_eq!(c.signal(), Some(4));
    assert_eq!(c.signal(), Some(2));
    assert_eq!(c.signal(), None);
}

#[test]
fn thread_create_adds_a_ready_task() {
    let mut k = two_threads();
    assert_eq!(k.current, Some(task(0)));
    assert_eq!(k.ready_queue.back(), Some(&task(1)));
    let p = k.procs[0].as_ref().unwrap();
    assert_eq!(p.tasks[1].task_cx.sepc, 0x10100);
    assert_eq!(p.tasks[1].task_cx.sp, 0x14000);
    assert_eq!(p.tasks[1].task_cx.a0, 7);
    assert_eq!(p.detector.tid_list, vec![0, 1]);
    assert_eq!(sys_thread_create(&mut k, 0, 0, 0), 2);
}

#[test]
fn mutex_create_reuses_nothing_and_counts_up() {
    let mut k = boot();
    assert_eq!(sys_mutex_create(&mut k, true), 0);
    assert_eq!(sys_mutex_create(&mut k, false), 1);
    let p = k.procs[0].as_ref().unwrap();
    assert!(matches!(p.mutex_list[0].as_ref().unwrap().mutex, MutexKind::Blocking(_)));
    assert!(matches!(p.mutex_list[1].as_ref().unwrap().mutex, MutexKind::Spin(_)));
    assert_eq!(p.detector.available, vec![1, 1]);
    assert_eq!(sys_mutex_lock(&mut k, 2), -1);
    assert_eq!(sys_mutex_unlock(&mut k, 2), -1);
}

#[test]
fn two_threads_contend_a_blocking_mutex() {
    let mut k = two_threads();
    let m = sys_mutex_create(&mut k, true) as usize;
    // A locks and yields
    assert_eq!(sys_mutex_lock(&mut k, m), 0);
    assert!(locked(&k, m));
    switch(&mut k);
    assert_eq!(k.current, Some(task(1)));
    // B blocks
    assert_eq!(sys_mutex_lock(&mut k, m), 0);
    assert!(k.current.is_none());
    assert_eq!(status(&k, 1), TaskStatus::Blocked);
    assert!(k.procs[0].as_ref().unwrap().deadlocked);
    k.run_next();
    assert_eq!(k.current, Some(task(0)));
    // A unlocks: the mutex passes to B, which is ready
    assert_eq!(sys_mutex_unlock(&mut k, m), 0);
    assert!(locked(&k, m));
    assert_eq!(status(&k, 1), TaskStatus::Ready);
    assert!(!k.procs[0].as_ref().unwrap().deadlocked);
    assert_eq!(k.ready_queue.back(), Some(&task(1)));
    assert_eq!(k.procs[0].as_ref().unwrap().detector.allocation, vec![vec![0], vec![1]]);
    // A locks again and blocks; B runs with the mutex held
    assert_eq!(sys_mutex_lock(&mut k, m), 0);
    assert_eq!(status(&k, 0), TaskStatus::Blocked);
    k.run_next();
    assert_eq!(k.current, Some(task(1)));
    assert_eq!(status(&k, 1), TaskStatus::Running);
    assert!(resume_pending(&mut k));
    assert!(locked(&k, m));
}

#[test]
fn spin_mutex_is_retried_after_the_yield() {
    let mut k = two_threads();
    let m = sys_mutex_create(&mut k, false) as usize;
    assert_eq!(sys_mutex_lock(&mut k, m), 0);
    switch(&mut k);
    // B finds the mutex held: it yields, to try again
    assert_eq!(sys_mutex_lock(&mut k, m), 0);
    assert!(k.current.is_none());
    assert_eq!(status(&k, 1), TaskStatus::Ready);
    assert!(matches!(k.procs[0].as_ref().unwrap().tasks[1].pending, Pending::LockMutex(0)));
    k.run_next();
    assert_eq!(k.current, Some(task(0)));
    assert!(resume_pending(&mut k));
    switch(&mut k);
    // still held: B yields again
    assert_eq!(k.current, Some(task(1)));
    assert!(!resume_pending(&mut k));
    k.run_next();
    assert_eq!(sys_mutex_unlock(&mut k, m), 0);
    assert!(!locked(&k, m));
    switch(&mut k);
    assert_eq!(k.current, Some(task(1)));
    assert!(resume_pending(&mut k));
    assert!(locked(&k, m));
    assert_eq!(k.procs[0].as_ref().unwrap().tasks[1].task_cx.a0, 0);
    assert!(matches!(k.procs[0].as_ref().unwrap().tasks[1].pending, Pending::Nothing));
}

#[test]
fn crossed_locks_with_detection_are_given_up() {
    let mut k = two_threads();
    assert_eq!(sys_enable_deadlock_detect(&mut k, 1), 0);
    let m1 = sys_mutex_create(&mut k, true) as usize;
    let m2 = sys_mutex_create(&mut k, true) as usize;
    assert_eq!(sys_mutex_lock(&mut k, m1), 0);
    switch(&mut k);
    assert_eq!(sys_mutex_lock(&mut k, m2), 0);
    // B asks for the mutex that A holds
    assert_eq!(sys_mutex_lock(&mut k, m1), DEADLOCK);
    assert_eq!(k.current, Some(task(1)));
    assert_eq!(status(&k, 1), TaskStatus::Running);
    // the request is taken back
    assert_eq!(k.procs[0].as_ref().unwrap().detector.need, vec![vec![0, 0], vec![0, 0]]);
    assert_eq!(k.procs[0].as_ref().unwrap().detector.allocation, vec![vec![1, 0], vec![0, 1]]);
}

#[test]
fn crossed_locks_without_detection_block_both() {
    let mut k = two_threads();
    let m1 = sys_mutex_create(&mut k, true) as usize;
    let m2 = sys_mutex_create(&mut k, true) as usize;
    assert_eq!(sys_mutex_lock(&mut k, m1), 0);
    switch(&mut k);
    assert_eq!(sys_mutex_lock(&mut k, m2), 0);
    assert_eq!(sys_mutex_lock(&mut k, m1), 0);
    k.run_next();
    assert_eq!(k.current, Some(task(0)));
    assert_eq!(sys_mutex_lock(&mut k, m2), 0);
    k.run_next();
    assert!(k.current.is_none());
    assert_eq!(status(&k, 0), TaskStatus::Blocked);
    assert_eq!(status(&k, 1), TaskStatus::Blocked);
    assert!(k.ready_queue.is_empty());
}

#[test]
fn unsafe_request_is_refused_by_the_bankers_check() {
    let mut k = two_threads();
    let m1 = sys_mutex_create(&mut k, true) as usize;
    let m2 = sys_mutex_create(&mut k, true) as usize;
    // A holds m1; B holds m2 and waits for m1, without detection
    assert_eq!(sys_mutex_lock(&mut k, m1), 0);
    switch(&mut k);
    assert_eq!(sys_mutex_lock(&mut k, m2), 0);
    assert_eq!(sys_mutex_lock(&mut k, m1), 0);
    k.run_next();
    assert_eq!(k.current, Some(task(0)));
    k.procs[0].as_mut().unwrap().deadlocked = false;
    // with detection, the request of A for m2 would close the circle
    sys_enable_deadlock_detect(&mut k, 1);
    assert_eq!(sys_mutex_lock(&mut k, m2), DEADLOCK);
    assert_eq!(status(&k, 0), TaskStatus::Running);
    // refused by the check, before the mutex was looked at
    assert!(!k.procs[0].as_ref().unwrap().deadlocked);
    assert_eq!(k.procs[0].as_ref().unwrap().detector.need, vec![vec![0, 0], vec![1, 0]]);
    assert_eq!(k.procs[0].as_ref().unwrap().detector.finish, vec![false, false]);
}

#[test]
fn semaphore_blocks_and_wakes() {
    let mut k = two_threads();
    assert_eq!(sys_semaphore_create(&mut k, usize::MAX), -1);
    let s = sys_semaphore_create(&mut k, 1) as usize;
    assert_eq!(s, 0);
    assert_eq!(sys_semaphore_down(&mut k, 3), -1);
    assert_eq!(sys_semaphore_up(&mut k, 3), -1);
    assert_eq!(sys_semaphore_down(&mut k, s), 0);
    switch(&mut k);
    assert_eq!(sys_semaphore_down(&mut k, s), 0);
    assert_eq!(status(&k, 1), TaskStatus::Blocked);
    k.run_next();
    assert_eq!(sys_semaphore_up(&mut k, s), 0);
    assert_eq!(status(&k, 1), TaskStatus::Ready);
    let slot = k.procs[0].as_ref().unwrap().semaphore_list[s].as_ref().unwrap();
    assert_eq!((slot.sem.value(), slot.sem.waiting()), (0, 0));
    assert_eq!(sys_semaphore_up(&mut k, s), 0);
    let slot = k.procs[0].as_ref().unwrap().semaphore_list[s].as_ref().unwrap();
    assert_eq!(slot.sem.value(), 1);
}

#[test]
fn semaphore_down_with_detection_runs_the_check() {
    let mut k = two_threads();
    sys_enable_deadlock_detect(&mut k, 1);
    let s = sys_semaphore_create(&mut k, 1) as usize;
    assert_eq!(sys_semaphore_down(&mut k, s), 0);
    // the holder may ask again: nobody could give it an instance
    assert_eq!(sys_semaphore_down(&mut k, s), DEADLOCK);
    switch(&mut k);
    // another thread may wait: the holder can finish
    assert_eq!(sys_semaphore_down(&mut k, s), 0);
    assert_eq!(status(&k, 1), TaskStatus::Blocked);
}

#[test]
fn condvar_wait_gives_the_mutex_up_and_takes_it_again() {
    let mut k = two_threads();
    let m = sys_mutex_create(&mut k, true) as usize;
    let c = sys_condvar_create(&mut k) as usize;
    assert_eq!(sys_condvar_wait(&mut k, c, 5), -1);
    assert_eq!(sys_condvar_wait(&mut k, 5, m), -1);
    assert_eq!(sys_condvar_signal(&mut k, 5), -1);
    assert_eq!(sys_mutex_lock(&mut k, m), 0);
    assert_eq!(sys_condvar_wait(&mut k, c, m), 0);
    assert!(k.current.is_none());
    assert_eq!(status(&k, 0), TaskStatus::Blocked);
    assert!(!locked(&k, m));
    k.run_next();
    assert_eq!(k.current, Some(task(1)));
    assert_eq!(sys_mutex_lock(&mut k, m), 0);
    assert_eq!(sys_condvar_signal(&mut k, c), 0);
    assert_eq!(status(&k, 0), TaskStatus::Ready);
    // nobody waits any more
    assert_eq!(sys_condvar_signal(&mut k, c), 0);
    assert_eq!(k.ready_queue.len(), 1);
    switch(&mut k);
    // A is to take the mutex again, which B holds: it waits for it
    assert_eq!(k.current, Some(task(0)));
    assert!(!resume_pending(&mut k));
    assert_eq!(status(&k, 0), TaskStatus::Blocked);
    k.run_next();
    assert_eq!(sys_mutex_unlock(&mut k, m), 0);
    switch(&mut k);
    assert_eq!(k.current, Some(task(0)));
    assert!(resume_pending(&mut k));
    assert!(locked(&k, m));
}

#[test]
fn sleeping_tasks_wake_in_order_of_time() {
    let mut k = two_threads();
    sys_thread_create(&mut k, 0, 0, 0);
    k.tick(1_000);
    assert_eq!(sys_sleep(&mut k, 50), 0);
    assert_eq!(status(&k, 0), TaskStatus::Blocked);
    k.run_next();
    assert_eq!(sys_sleep(&mut k, 20), 0);
    k.run_next();
    assert_eq!(k.current, Some(task(2)));
    let due: Vec<(usize, usize)> = k.timers.iter().map(|t| (t.expire_ms, t.task.tid)).collect();
    assert_eq!(due, vec![(21, 1), (51, 0)]);
    k.tick(20_999);
    assert_eq!(k.timers.len(), 2);
    k.tick(21_000);
    assert_eq!(status(&k, 1), TaskStatus::Ready);
    assert_eq!(status(&k, 0), TaskStatus::Blocked);
    // the clock does not go back
    k.tick(5);
    assert_eq!(k.now_us, 21_000);
    k.tick(60_000);
    assert!(k.timers.is_empty());
    let queue: Vec<TaskId> = k.ready_queue.iter().copied().collect();
    assert_eq!(queue, vec![task(1), task(0)]);
}

#[test]
fn sleep_yields_until_the_time_has_passed() {
    let mut k = two_threads();
    k.tick(10_000);
    sleep(&mut k, 0);
    assert_eq!(k.current, Some(task(0)));
    sleep(&mut k, 5);
    assert!(k.current.is_none());
    assert!(matches!(k.procs[0].as_ref().unwrap().tasks[0].pending, Pending::Sleep(15)));
    k.run_next();
    assert!(resume_pending(&mut k));
    switch(&mut k);
    assert_eq!(k.current, Some(task(0)));
    k.tick(14_999);
    assert!(!resume_pending(&mut k));
    k.run_next();
    switch(&mut k);
    k.tick(15_000);
    assert!(resume_pending(&mut k));
    assert_eq!(k.current, Some(task(0)));
    assert!(matches!(k.procs[0].as_ref().unwrap().tasks[0].pending, Pending::Nothing));
}

#[test]
fn exit_of_the_first_thread_ends_all() {
    let mut k = two_threads();
    sys_thread_create(&mut k, 0, 0, 0);
    let m = sys_mutex_create(&mut k, true) as usize;
    sys_mutex_lock(&mut k, m);
    switch(&mut k);
    // thread 1 waits for the mutex, thread 2 sleeps
    sys_mutex_lock(&mut k, m);
    k.run_next();
    assert_eq!(k.current, Some(task(2)));
    sys_sleep(&mut k, 10);
    k.run_next();
    assert_eq!(k.current, Some(task(0)));
    k.exit_current(3);
    assert!(k.current.is_none());
    assert!(k.ready_queue.is_empty());
    assert!(k.timers.is_empty());
    let p = k.procs[0].as_ref().unwrap();
    assert!(p.is_zombie);
    assert_eq!(p.exit_code, 3);
    assert!(p.tasks.iter().all(|t| t.task_status == TaskStatus::Zombie));
    assert!(p.mutex_list.is_empty());
    assert!(p.fd_table.is_empty());
}

#[test]
fn exit_of_another_thread_ends_it_alone() {
    let mut k = two_threads();
    switch(&mut k);
    assert_eq!(k.current, Some(task(1)));
    k.exit_current(9);
    assert_eq!(status(&k, 1), TaskStatus::Zombie);
    assert_eq!(k.procs[0].as_ref().unwrap().tasks[1].exit_code, 9);
    assert!(!k.procs[0].as_ref().unwrap().is_zombie);
    k.run_next();
    assert_eq!(k.current, Some(task(0)));
}

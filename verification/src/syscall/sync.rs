//! System calls for synchronisation. A call that makes the running task
//! wait or yield takes it off the processor; nobody runs until the
//! scheduler puts the first task of the ready queue there.

use vstd::prelude::*;
use crate::config::{DEADLOCK, FAILURE, SYSCALL_ENABLE_DEADLOCK_DETECT, SYSCALL_SLEEP};
use crate::kernel::Kernel;
use crate::sync::mutex::{LockOutcome, Mutex};
use crate::task::process::{find_free_slot, free_slot};
use crate::task::task::{LockMode, Pending, TaskId};

verus! {

/// The task of the process of `id` with the number `tid`, if any.
pub open spec fn sibling(id: TaskId, tid: Option<usize>) -> Option<TaskId> {
    match tid {
        Some(t) => Some(TaskId { pid: id.pid, tid: t }),
        None => None,
    }
}

/// What `sys_mutex_create` makes of the kernel: whether the call, made in the state
/// `k0`, leaves the state `k1` and returns `r`.
pub open spec fn sys_mutex_create_post(k0: Kernel, k1: Kernel, blocking: bool, r: isize) -> bool {
    &&& k1.running()
    &&& r == (if free_slot(k0.cur_proc().mutex_list@, 0) < isize::MAX {
        free_slot(k0.cur_proc().mutex_list@, 0)
    } else {
        FAILURE as int
    })
    &&& r < 0 ==> k1 == k0
    &&& r >= 0 ==> k1.stepped_from(k0, None, None, false) && k1.cur_proc().mutex_create_post(k0.cur_proc(), blocking, r as usize)
}

/// Creates a mutex, blocking or spinning, in the process of the running
/// task, and returns its number: that of the first empty slot of the
/// table. Fails with -1, and changes nothing, exactly when that number
/// does not fit in what is returned.
pub fn sys_mutex_create(k: &mut Kernel, blocking: bool) -> (r: isize)
    requires
        old(k).running(),
    ensures
        sys_mutex_create_post(*old(k), *final(k), blocking, r),
{
    let ghost before = *k;
    let cur = k.current_id();
    let slot: usize = find_free_slot(&k.current_process().mutex_list);
    if slot >= isize::MAX as usize {
        return FAILURE;
    }
    let id: usize = match &mut k.procs[cur.pid] {
        Some(p) => p.mutex_create(blocking),
        None => 0,
    };
    proof {
        assert(k.proc(cur.pid as int).tasks@ == before.proc(cur.pid as int).tasks@);
        k.lemma_sync_step(before, cur, None);
    }
    k.settle(None, None, false);
    id as isize
}

/// What a lock attempt returns: the sentinel where it is given up to
/// avoid a deadlock, 0 otherwise.
pub open spec fn lock_result(outcome: LockOutcome) -> isize {
    if outcome is WouldDeadlock {
        DEADLOCK
    } else {
        0
    }
}

/// What `sys_mutex_lock` makes of the kernel: whether the call, made in the state
/// `k0`, leaves the state `k1` and returns `r`.
pub open spec fn sys_mutex_lock_post(k0: Kernel, k1: Kernel, mutex_id: usize, r: isize) -> bool {
    &&& k1.wf()
    &&& !k0.cur_proc().has_mutex(mutex_id as int) ==> r == FAILURE && k1 == k0
    &&& k0.cur_proc().has_mutex(mutex_id as int) ==> {
        let cur = k0.current.unwrap();
        let outcome = k0.cur_proc().lock_outcome(cur.tid, mutex_id);
        &&& r == lock_result(outcome)
        &&& k1.stepped_from(
            k0,
            None,
            if outcome is MustYield {
                Some(cur)
            } else {
                None
            },
            outcome is MustYield || outcome is MustBlock,
        )
        &&& k1.proc(cur.pid as int).mutex_lock_post(
            k0.cur_proc(),
            cur.tid,
            mutex_id,
            LockMode::First,
            outcome,
        )
    }
}

/// Takes mutex `mutex_id` for the running task. Where the mutex is held,
/// the task waits in the queue of a blocking mutex, or yields and tries
/// again when it next runs, with a spinning one; either way it is taken
/// off the processor. Where deadlocks are detected, the attempt is given
/// up instead, and the sentinel returned, when the mutex is held or the
/// request leaves the process in a state that is not safe. Returns 0
/// otherwise; fails with -1, and changes nothing, exactly when the process
/// has no such mutex.
pub fn sys_mutex_lock(k: &mut Kernel, mutex_id: usize) -> (r: isize)
    requires
        old(k).running(),
    ensures
        sys_mutex_lock_post(*old(k), *final(k), mutex_id, r),
{
    let ghost before = *k;
    let cur = k.current_id();
    let p = k.current_process();
    if mutex_id >= p.mutex_list.len() || p.mutex_list[mutex_id].is_none() {
        return FAILURE;
    }
    let outcome: LockOutcome = match &mut k.procs[cur.pid] {
        Some(p) => p.mutex_lock(cur.tid, mutex_id, LockMode::First),
        None => LockOutcome::WouldDeadlock,
    };
    proof {
        k.lemma_sync_step(before, cur, None);
    }
    match outcome {
        LockOutcome::Acquired => {
            k.settle(None, None, false);
            0
        },
        LockOutcome::WouldDeadlock => {
            k.settle(None, None, false);
            DEADLOCK
        },
        LockOutcome::MustYield => {
            k.settle(None, Some(cur), true);
            0
        },
        LockOutcome::MustBlock => {
            k.settle(None, None, true);
            0
        },
    }
}

/// What `sys_mutex_unlock` makes of the kernel: whether the call, made in the state
/// `k0`, leaves the state `k1` and returns `r`.
pub open spec fn sys_mutex_unlock_post(k0: Kernel, k1: Kernel, mutex_id: usize, r: isize) -> bool {
    &&& k1.running()
    &&& r == (if k0.cur_proc().has_mutex(mutex_id as int) {
        0
    } else {
        FAILURE
    })
    &&& r != 0 ==> k1 == k0
    &&& r == 0 ==> {
        let cur = k0.current.unwrap();
        let waiters = k0.cur_proc().mutex_list@[mutex_id as int].unwrap().mutex.waiters();
        let woken = if waiters.len() > 0 {
            Some(waiters[0])
        } else {
            None
        };
        &&& k1.stepped_from(k0, sibling(cur, woken), None, false)
        &&& k1.cur_proc().mutex_unlock_post(k0.cur_proc(), cur.tid, mutex_id, woken)
    }
}

/// Gives up mutex `mutex_id` for the running task. Where threads wait for
/// the mutex, the first of them is woken and the mutex passes to it.
/// Returns 0; fails with -1, and changes nothing, exactly when the process
/// has no such mutex. A blocking mutex must be held.
pub fn sys_mutex_unlock(k: &mut Kernel, mutex_id: usize) -> (r: isize)
    requires
        old(k).running(),
        old(k).cur_proc().has_mutex(mutex_id as int) && old(k).cur_proc().mutex_list@[mutex_id as int].unwrap().mutex.blocking() ==> old(k).cur_proc().mutex_list@[mutex_id as int].unwrap().mutex.locked(),
    ensures
        sys_mutex_unlock_post(*old(k), *final(k), mutex_id, r),
{
    let ghost before = *k;
    let cur = k.current_id();
    let p = k.current_process();
    if mutex_id >= p.mutex_list.len() || p.mutex_list[mutex_id].is_none() {
        return FAILURE;
    }
    let woken: Option<usize> = match &mut k.procs[cur.pid] {
        Some(p) => p.mutex_unlock(cur.tid, mutex_id),
        None => None,
    };
    proof {
        if woken.is_some() {
            assert(woken.unwrap() != cur.tid);
        } else {
            assert(k.proc(cur.pid as int).tasks@ == before.proc(cur.pid as int).tasks@);
        }
        k.lemma_sync_step(before, cur, woken);
    }
    let woken_id: Option<TaskId> = match woken {
        Some(w) => Some(TaskId { pid: cur.pid, tid: w }),
        None => None,
    };
    k.settle(woken_id, None, false);
    0
}

/// Whether `semaphore_create` goes through: the count and the number of
/// the new semaphore fit in a signed number.
pub open spec fn semaphore_create_plan(k: Kernel, res_count: usize) -> bool {
    res_count <= isize::MAX && free_slot(k.cur_proc().semaphore_list@, 0) < isize::MAX
}

/// What `sys_semaphore_create` makes of the kernel: whether the call, made in the state
/// `k0`, leaves the state `k1` and returns `r`.
pub open spec fn sys_semaphore_create_post(k0: Kernel, k1: Kernel, res_count: usize, r: isize) -> bool {
    &&& k1.running()
    &&& r == (if semaphore_create_plan(k0, res_count) {
        free_slot(k0.cur_proc().semaphore_list@, 0)
    } else {
        FAILURE as int
    })
    &&& r < 0 ==> k1 == k0
    &&& r >= 0 ==> k1.stepped_from(k0, None, None, false) && k1.cur_proc().semaphore_create_post(k0.cur_proc(), res_count, r as usize)
}

/// Creates a semaphore with `res_count` free instances in the process of
/// the running task, and returns its number: that of the first empty slot
/// of the table. Fails with -1, and changes nothing, exactly when
/// `semaphore_create_plan` does not hold.
pub fn sys_semaphore_create(k: &mut Kernel, res_count: usize) -> (r: isize)
    requires
        old(k).running(),
    ensures
        sys_semaphore_create_post(*old(k), *final(k), res_count, r),
{
    let ghost before = *k;
    let cur = k.current_id();
    let slot: usize = find_free_slot(&k.current_process().semaphore_list);
    if slot >= isize::MAX as usize || res_count > isize::MAX as usize {
        return FAILURE;
    }
    let id: usize = match &mut k.procs[cur.pid] {
        Some(p) => p.semaphore_create(res_count),
        None => 0,
    };
    proof {
        assert(k.proc(cur.pid as int).tasks@ == before.proc(cur.pid as int).tasks@);
        k.lemma_sync_step(before, cur, None);
    }
    k.settle(None, None, false);
    id as isize
}

/// Whether `semaphore_up` goes through: the process has the semaphore, and
/// its count is below the largest signed number.
pub open spec fn semaphore_up_plan(k: Kernel, sem_id: usize) -> bool {
    &&& k.cur_proc().has_semaphore(sem_id as int)
    &&& k.cur_proc().semaphore_list@[sem_id as int].unwrap().sem.count() < isize::MAX
}

/// What `sys_semaphore_up` makes of the kernel: whether the call, made in the state
/// `k0`, leaves the state `k1` and returns `r`.
pub open spec fn sys_semaphore_up_post(k0: Kernel, k1: Kernel, sem_id: usize, r: isize) -> bool {
    &&& k1.running()
    &&& r == (if semaphore_up_plan(k0, sem_id) {
        0
    } else {
        FAILURE
    })
    &&& r != 0 ==> k1 == k0
    &&& r == 0 ==> {
        let cur = k0.current.unwrap();
        let sem = k0.cur_proc().semaphore_list@[sem_id as int].unwrap().sem;
        let woken = if sem.count() < 0 {
            Some(sem.waiters()[0])
        } else {
            None
        };
        &&& k1.stepped_from(k0, sibling(cur, woken), None, false)
        &&& k1.cur_proc().semaphore_up_post(k0.cur_proc(), cur.tid, sem_id, woken)
    }
}

/// Adds one to semaphore `sem_id`. Where threads wait for the semaphore,
/// the first of them is woken. Returns 0; fails with -1, and changes
/// nothing, exactly when `semaphore_up_plan` does not hold.
pub fn sys_semaphore_up(k: &mut Kernel, sem_id: usize) -> (r: isize)
    requires
        old(k).running(),
    ensures
        sys_semaphore_up_post(*old(k), *final(k), sem_id, r),
{
    let ghost before = *k;
    let cur = k.current_id();
    let p = k.current_process();
    if sem_id >= p.semaphore_list.len() {
        return FAILURE;
    }
    let full: bool = match &p.semaphore_list[sem_id] {
        Some(slot) => slot.sem.value() == isize::MAX,
        None => true,
    };
    if full {
        return FAILURE;
    }
    let woken: Option<usize> = match &mut k.procs[cur.pid] {
        Some(p) => p.semaphore_up(cur.tid, sem_id),
        None => None,
    };
    proof {
        if woken.is_some() {
            assert(woken.unwrap() != cur.tid);
        } else {
            assert(k.proc(cur.pid as int).tasks@ == before.proc(cur.pid as int).tasks@);
        }
        k.lemma_sync_step(before, cur, woken);
    }
    let woken_id: Option<TaskId> = match woken {
        Some(w) => Some(TaskId { pid: cur.pid, tid: w }),
        None => None,
    };
    k.settle(woken_id, None, false);
    0
}

/// Whether `semaphore_down` goes through: the process has the semaphore,
/// and its count is above the smallest signed number.
pub open spec fn semaphore_down_plan(k: Kernel, sem_id: usize) -> bool {
    &&& k.cur_proc().has_semaphore(sem_id as int)
    &&& k.cur_proc().semaphore_list@[sem_id as int].unwrap().sem.count() > isize::MIN
}

/// What `sys_semaphore_down` makes of the kernel: whether the call, made in the state
/// `k0`, leaves the state `k1` and returns `r`.
pub open spec fn sys_semaphore_down_post(k0: Kernel, k1: Kernel, sem_id: usize, r: isize) -> bool {
    &&& k1.wf()
    &&& !semaphore_down_plan(k0, sem_id) ==> r == FAILURE && k1 == k0
    &&& semaphore_down_plan(k0, sem_id) ==> {
        let cur = k0.current.unwrap();
        let outcome = k0.cur_proc().down_outcome(cur.tid, sem_id);
        &&& r == lock_result(outcome)
        &&& k1.stepped_from(k0, None, None, outcome is MustBlock)
        &&& k1.proc(cur.pid as int).semaphore_down_post(
            k0.cur_proc(),
            cur.tid,
            sem_id,
            outcome,
        )
    }
}

/// Takes an instance of semaphore `sem_id` for the running task. Where
/// none is free, the task waits in the queue of the semaphore and is taken
/// off the processor. Where deadlocks are detected and the request leaves
/// the process in a state that is not safe, the attempt is given up
/// instead, and the sentinel returned. Returns 0 otherwise; fails with -1,
/// and changes nothing, exactly when `semaphore_down_plan` does not hold.
pub fn sys_semaphore_down(k: &mut Kernel, sem_id: usize) -> (r: isize)
    requires
        old(k).running(),
    ensures
        sys_semaphore_down_post(*old(k), *final(k), sem_id, r),
{
    let ghost before = *k;
    let cur = k.current_id();
    let p = k.current_process();
    if sem_id >= p.semaphore_list.len() {
        return FAILURE;
    }
    let empty: bool = match &p.semaphore_list[sem_id] {
        Some(slot) => slot.sem.value() == isize::MIN,
        None => true,
    };
    if empty {
        return FAILURE;
    }
    let outcome: LockOutcome = match &mut k.procs[cur.pid] {
        Some(p) => p.semaphore_down(cur.tid, sem_id),
        None => LockOutcome::WouldDeadlock,
    };
    proof {
        k.lemma_sync_step(before, cur, None);
    }
    match outcome {
        LockOutcome::MustBlock => {
            k.settle(None, None, true);
            0
        },
        LockOutcome::WouldDeadlock => {
            k.settle(None, None, false);
            DEADLOCK
        },
        _ => {
            k.settle(None, None, false);
            0
        },
    }
}

/// What `sys_condvar_create` makes of the kernel: whether the call, made in the state
/// `k0`, leaves the state `k1` and returns `r`.
pub open spec fn sys_condvar_create_post(k0: Kernel, k1: Kernel, r: isize) -> bool {
    &&& k1.running()
    &&& r == (if free_slot(k0.cur_proc().condvar_list@, 0) < isize::MAX {
        free_slot(k0.cur_proc().condvar_list@, 0)
    } else {
        FAILURE as int
    })
    &&& r < 0 ==> k1 == k0
    &&& r >= 0 ==> k1.stepped_from(k0, None, None, false) && k1.cur_proc().condvar_create_post(k0.cur_proc(), r as usize)
}

/// Creates a condition variable in the process of the running task, and
/// returns its number: that of the first empty slot of the table. Fails
/// with -1, and changes nothing, exactly when that number does not fit in
/// what is returned.
pub fn sys_condvar_create(k: &mut Kernel) -> (r: isize)
    requires
        old(k).running(),
    ensures
        sys_condvar_create_post(*old(k), *final(k), r),
{
    let ghost before = *k;
    let cur = k.current_id();
    let slot: usize = find_free_slot(&k.current_process().condvar_list);
    if slot >= isize::MAX as usize {
        return FAILURE;
    }
    let id: usize = match &mut k.procs[cur.pid] {
        Some(p) => p.condvar_create(),
        None => 0,
    };
    proof {
        assert(k.proc(cur.pid as int).tasks@ == before.proc(cur.pid as int).tasks@);
        k.lemma_sync_step(before, cur, None);
    }
    k.settle(None, None, false);
    id as isize
}

/// What `sys_condvar_signal` makes of the kernel: whether the call, made in the state
/// `k0`, leaves the state `k1` and returns `r`.
pub open spec fn sys_condvar_signal_post(k0: Kernel, k1: Kernel, condvar_id: usize, r: isize) -> bool {
    &&& k1.running()
    &&& r == (if k0.cur_proc().has_condvar(condvar_id as int) {
        0
    } else {
        FAILURE
    })
    &&& r != 0 ==> k1 == k0
    &&& r == 0 ==> {
        let cur = k0.current.unwrap();
        let waiters = k0.cur_proc().condvar_list@[condvar_id as int].unwrap().waiters();
        let woken = if waiters.len() > 0 {
            Some(waiters[0])
        } else {
            None
        };
        &&& k1.stepped_from(k0, sibling(cur, woken), None, false)
        &&& k1.cur_proc().condvar_signal_post(k0.cur_proc(), condvar_id, woken)
    }
}

/// Wakes the first thread that waits for condition variable `condvar_id`,
/// if any; it takes its mutex again when it next runs. Returns 0; fails
/// with -1, and changes nothing, exactly when the process has no such
/// condition variable.
pub fn sys_condvar_signal(k: &mut Kernel, condvar_id: usize) -> (r: isize)
    requires
        old(k).running(),
    ensures
        sys_condvar_signal_post(*old(k), *final(k), condvar_id, r),
{
    let ghost before = *k;
    let cur = k.current_id();
    let p = k.current_process();
    if condvar_id >= p.condvar_list.len() || p.condvar_list[condvar_id].is_none() {
        return FAILURE;
    }
    let woken: Option<usize> = match &mut k.procs[cur.pid] {
        Some(p) => p.condvar_signal(condvar_id),
        None => None,
    };
    proof {
        if woken.is_some() {
            assert(woken.unwrap() != cur.tid);
        } else {
            assert(k.proc(cur.pid as int).tasks@ == before.proc(cur.pid as int).tasks@);
        }
        k.lemma_sync_step(before, cur, woken);
    }
    let woken_id: Option<TaskId> = match woken {
        Some(w) => Some(TaskId { pid: cur.pid, tid: w }),
        None => None,
    };
    k.settle(woken_id, None, false);
    0
}

/// Whether `condvar_wait` goes through: the process has the condition
/// variable and the mutex.
pub open spec fn condvar_wait_plan(k: Kernel, condvar_id: usize, mutex_id: usize) -> bool {
    k.cur_proc().has_condvar(condvar_id as int) && k.cur_proc().has_mutex(mutex_id as int)
}

/// What `sys_condvar_wait` makes of the kernel: whether the call, made in the state
/// `k0`, leaves the state `k1` and returns `r`.
pub open spec fn sys_condvar_wait_post(k0: Kernel, k1: Kernel, condvar_id: usize, mutex_id: usize, r: isize) -> bool {
    &&& k1.wf()
    &&& r == (if condvar_wait_plan(k0, condvar_id, mutex_id) {
        0
    } else {
        FAILURE
    })
    &&& r != 0 ==> k1 == k0
    &&& r == 0 ==> {
        let cur = k0.current.unwrap();
        let waiters = k0.cur_proc().mutex_list@[mutex_id as int].unwrap().mutex.waiters();
        let woken = if waiters.len() > 0 {
            Some(waiters[0])
        } else {
            None
        };
        &&& k1.stepped_from(k0, sibling(cur, woken), None, true)
        &&& k1.proc(cur.pid as int).condvar_wait_post(
            k0.cur_proc(),
            cur.tid,
            condvar_id,
            mutex_id,
            woken,
        )
    }
}

/// Makes the running task wait for condition variable `condvar_id`: it
/// gives up mutex `mutex_id`, which passes to the first thread that waits
/// for it, if any; it is blocked in the queue of the condition variable
/// and taken off the processor; and it takes the mutex again when it next
/// runs. Returns 0; fails with -1, and changes nothing, exactly when
/// `condvar_wait_plan` does not hold. A blocking mutex must be held.
pub fn sys_condvar_wait(k: &mut Kernel, condvar_id: usize, mutex_id: usize) -> (r: isize)
    requires
        old(k).running(),
        condvar_wait_plan(*old(k), condvar_id, mutex_id) && old(k).cur_proc().mutex_list@[mutex_id as int].unwrap().mutex.blocking() ==> old(k).cur_proc().mutex_list@[mutex_id as int].unwrap().mutex.locked(),
    ensures
        sys_condvar_wait_post(*old(k), *final(k), condvar_id, mutex_id, r),
{
    let ghost before = *k;
    let cur = k.current_id();
    let p = k.current_process();
    if condvar_id >= p.condvar_list.len() || p.condvar_list[condvar_id].is_none() || mutex_id
        >= p.mutex_list.len() || p.mutex_list[mutex_id].is_none() {
        return FAILURE;
    }
    let woken: Option<usize> = match &mut k.procs[cur.pid] {
        Some(p) => p.condvar_wait(cur.tid, condvar_id, mutex_id),
        None => None,
    };
    proof {
        k.lemma_sync_step(before, cur, woken);
    }
    let woken_id: Option<TaskId> = match woken {
        Some(w) => Some(TaskId { pid: cur.pid, tid: w }),
        None => None,
    };
    k.settle(woken_id, None, true);
    0
}

/// What `sys_enable_deadlock_detect` does once the call is counted: whether the step, made in
/// the state `k0`, leaves the state `k1` and returns `r`.
pub open spec fn enable_deadlock_detect_step(k0: Kernel, k1: Kernel, enabled: usize, r: isize) -> bool {
    &&& k1.running()
    &&& r == 0
    &&& k1.stepped_from(k0, None, None, false)
    &&& k1.cur_proc().enable_deadlock_detect == (enabled > 0)
    &&& k1.cur_proc().same_but_detect(k0.cur_proc())
}

/// `sys_enable_deadlock_detect` once the call is counted.
fn enable_deadlock_detect_counted(k: &mut Kernel, enabled: usize) -> (r: isize)
    requires
        old(k).running(),
    ensures
        enable_deadlock_detect_step(*old(k), *final(k), enabled, r),
{
    let ghost before = *k;
    let cur = k.current_id();
    match &mut k.procs[cur.pid] {
        Some(p) => {
            p.enable_deadlock_detect = enabled > 0;
        },
        None => {},
    }
    proof {
        k.proc(cur.pid as int).lemma_wf_same_sync(before.proc(cur.pid as int));
        k.lemma_parts_same(before, cur.pid as int);
        assert(k.states() =~= before.states());
    }
    0
}

/// What `sys_enable_deadlock_detect` makes of the kernel: whether the call, made in the state
/// `k0`, leaves the state `k1` and returns `r`. The call is counted
/// first, whatever comes of it.
pub open spec fn sys_enable_deadlock_detect_post(k0: Kernel, k1: Kernel, enabled: usize, r: isize) -> bool {
    &&& k1.running()
    &&& r == 0
    &&& exists|c: Kernel| #[trigger] c.counted_from(k0, SYSCALL_ENABLE_DEADLOCK_DETECT) && enable_deadlock_detect_step(c, k1, enabled, r)
}

/// Switches the detection of deadlocks on, for any `enabled` above zero,
/// or off, for the process of the running task. Returns 0.
pub fn sys_enable_deadlock_detect(k: &mut Kernel, enabled: usize) -> (r: isize)
    requires
        old(k).running(),
    ensures
        sys_enable_deadlock_detect_post(*old(k), *final(k), enabled, r),
{
    let ghost k0 = *k;
    k.count_syscall(SYSCALL_ENABLE_DEADLOCK_DETECT);
    let ghost c = *k;
    proof {
        assert(c.cur_proc().fd_table == k0.cur_proc().fd_table);
        assert(c.cur_ms() == k0.cur_ms());
    }
    let r = enable_deadlock_detect_counted(k, enabled);
    proof {
        assert(c.counted_from(k0, SYSCALL_ENABLE_DEADLOCK_DETECT) && enable_deadlock_detect_step(c, *k, enabled, r));
    }
    r
}

/// The time at which a sleep of `ms` milliseconds that starts at `now_ms`
/// ends: the sum, or the largest time there is where the sum is beyond it.
pub open spec fn wake_time(now_ms: usize, ms: usize) -> usize {
    if now_ms + ms > usize::MAX {
        usize::MAX
    } else {
        (now_ms + ms) as usize
    }
}

/// Computes `wake_time`.
pub fn wake_time_of(now_ms: usize, ms: usize) -> (t: usize)
    ensures
        t == wake_time(now_ms, ms),
{
    if ms > usize::MAX - now_ms {
        usize::MAX
    } else {
        now_ms + ms
    }
}

/// What `sys_sleep` does once the call is counted: whether the step, made in
/// the state `k0`, leaves the state `k1` and returns `r`.
pub open spec fn sleep_step(k0: Kernel, k1: Kernel, ms: usize, r: isize) -> bool {
    &&& k1.wf()
    &&& r == 0
    &&& k1.slept_from(k0, wake_time(k0.now_ms(), ms))
}

/// `sys_sleep` once the call is counted.
fn sleep_counted(k: &mut Kernel, ms: usize) -> (r: isize)
    requires
        old(k).running(),
    ensures
        sleep_step(*old(k), *final(k), ms, r),
{
    let expire: usize = wake_time_of(k.get_time_ms(), ms);
    k.sleep_current(expire);
    0
}

/// What `sys_sleep` makes of the kernel: whether the call, made in the state
/// `k0`, leaves the state `k1` and returns `r`. The call is counted
/// first, whatever comes of it.
pub open spec fn sys_sleep_post(k0: Kernel, k1: Kernel, ms: usize, r: isize) -> bool {
    &&& k1.wf()
    &&& r == 0
    &&& exists|c: Kernel| #[trigger] c.counted_from(k0, SYSCALL_SLEEP) && sleep_step(c, k1, ms, r)
}

/// Puts the running task to sleep for `ms` milliseconds: it is blocked on
/// a timer and taken off the processor, and a tick of the clock at or
/// after the time wakes it. The sleep cannot be cancelled. Returns 0.
pub fn sys_sleep(k: &mut Kernel, ms: usize) -> (r: isize)
    requires
        old(k).running(),
    ensures
        sys_sleep_post(*old(k), *final(k), ms, r),
{
    let ghost k0 = *k;
    k.count_syscall(SYSCALL_SLEEP);
    let ghost c = *k;
    proof {
        assert(c.cur_proc().fd_table == k0.cur_proc().fd_table);
        assert(c.cur_ms() == k0.cur_ms());
    }
    let r = sleep_counted(k, ms);
    proof {
        assert(c.counted_from(k0, SYSCALL_SLEEP) && sleep_step(c, *k, ms, r));
    }
    r
}

/// Makes the running task yield until `period_ms` milliseconds have
/// passed: it is marked to yield again, whenever it runs before the time,
/// and goes to the end of the ready queue. Nothing happens where no time
/// is to pass.
pub fn sleep(k: &mut Kernel, period_ms: usize)
    requires
        old(k).running(),
    ensures
        final(k).wf(),
        old(k).now_ms() >= wake_time(old(k).now_ms(), period_ms) ==> *final(k) == *old(k),
        old(k).now_ms() < wake_time(old(k).now_ms(), period_ms) ==> {
            let cur = old(k).current.unwrap();
            &&& final(k).stepped_from(*old(k), None, Some(cur), true)
            &&& final(k).proc(cur.pid as int).same_but_tasks(old(k).cur_proc())
            &&& final(k).proc(cur.pid as int).tasks_same_but(old(k).cur_proc(), cur.tid as int)
            &&& final(k).task(cur).task_status is Ready
            &&& final(k).task(cur).pending == Pending::Sleep(wake_time(old(k).now_ms(), period_ms))
            &&& final(k).task(cur).same_but_state(old(k).task(cur))
            &&& final(k).task(cur).wait == old(k).task(cur).wait
        },
{
    let ghost before = *k;
    let now: usize = k.get_time_ms();
    let deadline: usize = wake_time_of(now, period_ms);
    if now >= deadline {
        return ;
    }
    let cur = k.current_id();
    match &mut k.procs[cur.pid] {
        Some(p) => {
            p.tasks[cur.tid].pending = Pending::Sleep(deadline);
        },
        None => {},
    }
    proof {
        assert(before.proc(cur.pid as int).tasks@[cur.tid as int].wf());
        k.lemma_task_update(before, cur);
    }
    k.suspend_current();
}

/// What `resume_pending` does for a task with the pending action
/// `pending`, whose process has the mutex it is to take: the lock attempt
/// is made again.
pub open spec fn relocked_from(after: Kernel, before: Kernel, id: usize, mode: LockMode) -> bool {
    let cur = before.current.unwrap();
    let outcome = before.cur_proc().lock_outcome(cur.tid, id);
    &&& after.stepped_from(
        before,
        None,
        if outcome is MustYield {
            Some(cur)
        } else {
            None
        },
        outcome is MustYield || outcome is MustBlock,
    )
    &&& after.proc(cur.pid as int).mutex_lock_post(before.cur_proc(), cur.tid, id, mode, outcome)
}

/// Does what the running task has pending from before it last left the
/// processor, and returns whether the task may go on in user mode. A task
/// with nothing pending may. A task that sleeps yields again before its
/// time, and may go on from then. A task that is to take a mutex tries;
/// it may go on with the mutex, or where the attempt was given up, and is
/// taken off the processor again where it has to wait or yield. What comes
/// of a retried lock call is left in the first argument register of the
/// task.
pub fn resume_pending(k: &mut Kernel) -> (go: bool)
    requires
        old(k).running(),
    ensures
        final(k).wf(),
        go == final(k).current.is_some(),
        match old(k).task(old(k).current.unwrap()).pending {
            Pending::Nothing => go && *final(k) == *old(k),
            Pending::Sleep(deadline) => {
                let cur = old(k).current.unwrap();
                if old(k).now_ms() < deadline {
                    &&& !go
                    &&& final(k).stepped_from(*old(k), None, Some(cur), true)
                    &&& final(k).proc(cur.pid as int).same_but_tasks(old(k).cur_proc())
                    &&& final(k).proc(cur.pid as int).tasks_same_but(old(k).cur_proc(), cur.tid as int)
                    &&& final(k).task(cur).task_status is Ready
                    &&& final(k).task(cur).same_but_status(old(k).task(cur))
                } else {
                    &&& go
                    &&& final(k).same_but_task(*old(k), cur)
                    &&& final(k).task(cur).pending is Nothing
                    &&& final(k).task(cur).same_but_pending(old(k).task(cur))
                }
            },
            Pending::LockMutex(id) => if old(k).cur_proc().has_mutex(id as int) {
                relocked_from(*final(k), *old(k), id, LockMode::Retry)
            } else {
                let cur = old(k).current.unwrap();
                &&& go
                &&& final(k).same_but_task(*old(k), cur)
                &&& final(k).task(cur).pending is Nothing
                &&& final(k).task(cur).same_but_pending(old(k).task(cur))
            },
            Pending::Relock(id) => if old(k).cur_proc().has_mutex(id as int) {
                relocked_from(*final(k), *old(k), id, LockMode::Relock)
            } else {
                let cur = old(k).current.unwrap();
                &&& go
                &&& final(k).same_but_task(*old(k), cur)
                &&& final(k).task(cur).pending is Nothing
                &&& final(k).task(cur).same_but_pending(old(k).task(cur))
            },
        },
{
    let ghost before = *k;
    let cur = k.current_id();
    let p = k.current_process();
    let pending: Pending = p.tasks[cur.tid].pending;
    let (id, mode) = match pending {
        Pending::Nothing => {
            return true;
        },
        Pending::Sleep(deadline) => {
            if k.get_time_ms() < deadline {
                k.suspend_current();
                return false;
            }
            clear_pending(k);
            return true;
        },
        Pending::LockMutex(id) => (id, LockMode::Retry),
        Pending::Relock(id) => (id, LockMode::Relock),
    };
    if id >= p.mutex_list.len() || p.mutex_list[id].is_none() {
        clear_pending(k);
        return true;
    }
    let outcome: LockOutcome = match &mut k.procs[cur.pid] {
        Some(p) => p.mutex_lock(cur.tid, id, mode),
        None => LockOutcome::WouldDeadlock,
    };
    proof {
        k.lemma_sync_step(before, cur, None);
    }
    match outcome {
        LockOutcome::MustYield => {
            k.settle(None, Some(cur), true);
            false
        },
        LockOutcome::MustBlock => {
            k.settle(None, None, true);
            false
        },
        _ => {
            k.settle(None, None, false);
            true
        },
    }
}

/// Clears what the running task has pending.
fn clear_pending(k: &mut Kernel)
    requires
        old(k).running(),
    ensures
        final(k).running(),
        final(k).same_but_task(*old(k), old(k).current.unwrap()),
        final(k).task(old(k).current.unwrap()).pending is Nothing,
        final(k).task(old(k).current.unwrap()).same_but_pending(old(k).task(old(k).current.unwrap())),
{
    let ghost before = *k;
    let cur = k.current_id();
    match &mut k.procs[cur.pid] {
        Some(p) => {
            p.tasks[cur.tid].pending = Pending::Nothing;
        },
        None => {},
    }
    proof {
        assert(before.proc(cur.pid as int).tasks@[cur.tid as int].wf());
        k.lemma_task_update(before, cur);
    }
}

/// What `sys_thread_create` makes of the kernel: whether the call, made in the state
/// `k0`, leaves the state `k1` and returns `r`.
pub open spec fn sys_thread_create_post(k0: Kernel, k1: Kernel, entry: usize, sp: usize, arg: isize, r: isize) -> bool {
    &&& k1.running()
    &&& r == (if k0.cur_proc().tasks@.len() < isize::MAX {
        k0.cur_proc().tasks@.len() as int
    } else {
        FAILURE as int
    })
    &&& r < 0 ==> k1 == k0
    &&& r >= 0 ==> {
        &&& k1.thread_created_from(k0, k1.cur_proc().tasks@[r as int])
        &&& k1.cur_proc().tasks@[r as int].task_cx == (
        crate::task::task::TaskContext { sepc: entry, sp, a0: arg })
        &&& k1.cur_proc().tasks@[r as int].task_status is Ready
        &&& k1.cur_proc().tasks@[r as int].first_run
    }
}

/// Starts a thread in the process of the running task: it begins at
/// `entry` with the stack pointer `sp` and the argument `arg` in its first
/// argument register, and joins the end of the ready queue. Returns its
/// number in the process; fails with -1, and changes nothing, exactly when
/// that number cannot be written as a signed number.
pub fn sys_thread_create(k: &mut Kernel, entry: usize, sp: usize, arg: isize) -> (r: isize)
    requires
        old(k).running(),
    ensures
        sys_thread_create_post(*old(k), *final(k), entry, sp, arg, r),
{
    match k.thread_create(entry, sp, arg) {
        Some(tid) => tid as isize,
        None => FAILURE,
    }
}

} // verus!

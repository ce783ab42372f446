//! The system calls. Each one is made by the task that runs, counts
//! itself in the counters of that task where its call number is below
//! the number of counters, and returns what the task finds in its first
//! argument register.

use vstd::prelude::*;
use crate::config::{
    SYSCALL_CLOSE, SYSCALL_CONDVAR_CREATE, SYSCALL_CONDVAR_SIGNAL, SYSCALL_CONDVAR_WAIT,
    SYSCALL_ENABLE_DEADLOCK_DETECT, SYSCALL_EXEC, SYSCALL_EXIT, SYSCALL_FORK, SYSCALL_FSTAT,
    SYSCALL_GETPID, SYSCALL_GET_TIME, SYSCALL_LINKAT, SYSCALL_MMAP, SYSCALL_MUNMAP,
    SYSCALL_MUTEX_CREATE, SYSCALL_MUTEX_LOCK, SYSCALL_MUTEX_UNLOCK, SYSCALL_OPEN, SYSCALL_READ,
    SYSCALL_SBRK, SYSCALL_SEMAPHORE_CREATE, SYSCALL_SEMAPHORE_DOWN, SYSCALL_SEMAPHORE_UP,
    SYSCALL_SET_PRIORITY, SYSCALL_SLEEP, SYSCALL_SPAWN, SYSCALL_TASK_INFO, SYSCALL_THREAD_CREATE,
    SYSCALL_UNLINKAT, SYSCALL_WAITPID, SYSCALL_WRITE, SYSCALL_YIELD,
};
use crate::codec::{low32_of, signed32_of, signed_of, to_low32, to_signed, to_signed32};
use crate::kernel::Kernel;
use crate::sync::mutex::Mutex;
use crate::task::task::Pending;
use self::fs::{
    sys_close, sys_close_post, sys_fstat, sys_fstat_post, sys_linkat, sys_linkat_post, sys_open,
    sys_open_post, sys_read, sys_read_post, sys_unlinkat, sys_unlinkat_post, sys_write,
    sys_write_post,
};
use self::process::{
    sys_exec, sys_exec_post, sys_exit, sys_exit_post, sys_fork, sys_fork_post, sys_get_time,
    sys_get_time_post, sys_getpid, sys_getpid_post, sys_mmap, sys_mmap_post, sys_munmap,
    sys_munmap_post, sys_sbrk, sys_sbrk_post, sys_set_priority, sys_set_priority_post, sys_spawn,
    sys_spawn_post, sys_task_info, sys_task_info_post, sys_waitpid, sys_waitpid_post, sys_yield,
    sys_yield_post,
};
use self::sync::{
    resume_pending, sys_condvar_create, sys_condvar_create_post, sys_condvar_signal,
    sys_condvar_signal_post, sys_condvar_wait, sys_condvar_wait_post, sys_enable_deadlock_detect,
    sys_enable_deadlock_detect_post, sys_mutex_create, sys_mutex_create_post, sys_mutex_lock,
    sys_mutex_lock_post, sys_mutex_unlock, sys_mutex_unlock_post, sys_semaphore_create,
    sys_semaphore_create_post, sys_semaphore_down, sys_semaphore_down_post, sys_semaphore_up,
    sys_semaphore_up_post, sys_sleep, sys_sleep_post, sys_thread_create, sys_thread_create_post,
};

pub mod process;
pub mod fs;
pub mod sync;

verus! {

/// Whether `id` is the number of a call that returns to its caller.
pub open spec fn comes_back(id: usize) -> bool {
    id == SYSCALL_READ || id == SYSCALL_WRITE || id == SYSCALL_OPEN || id == SYSCALL_CLOSE ||
        id == SYSCALL_FSTAT || id == SYSCALL_LINKAT || id == SYSCALL_UNLINKAT ||
        id == SYSCALL_YIELD || id == SYSCALL_SET_PRIORITY || id == SYSCALL_GET_TIME ||
        id == SYSCALL_GETPID || id == SYSCALL_SBRK || id == SYSCALL_MUNMAP ||
        id == SYSCALL_SPAWN || id == SYSCALL_EXEC || id == SYSCALL_MMAP || id == SYSCALL_WAITPID ||
        id == SYSCALL_TASK_INFO || id == SYSCALL_FORK || id == SYSCALL_SLEEP ||
        id == SYSCALL_ENABLE_DEADLOCK_DETECT || id == SYSCALL_THREAD_CREATE ||
        id == SYSCALL_MUTEX_CREATE || id == SYSCALL_MUTEX_LOCK || id == SYSCALL_MUTEX_UNLOCK ||
        id == SYSCALL_SEMAPHORE_CREATE || id == SYSCALL_SEMAPHORE_UP ||
        id == SYSCALL_SEMAPHORE_DOWN || id == SYSCALL_CONDVAR_CREATE ||
        id == SYSCALL_CONDVAR_SIGNAL || id == SYSCALL_CONDVAR_WAIT
}

/// Whether mutex `id` of the process that runs may be given up: a
/// blocking mutex only while it is held.
pub open spec fn may_unlock(k: Kernel, id: usize) -> bool {
    k.cur_proc().has_mutex(id as int) && k.cur_proc().mutex_list@[id as int].unwrap().mutex.blocking()
        ==> k.cur_proc().mutex_list@[id as int].unwrap().mutex.locked()
}

/// Whether the call numbered `id` with the arguments `a0`, `a1` and `a2`,
/// made in the state `k0`, leaves the state `k1` and the result `r`: each
/// number stands for its handler, which gets the arguments it takes, in
/// order, a signed one read in two's complement and one of 32 bits from
/// the low bits; `exit` and a number that no call has return nothing, and
/// such a number changes nothing.
pub open spec fn handled(k0: Kernel, k1: Kernel, id: usize, a0: usize, a1: usize, a2: usize, r: Option<isize>) -> bool {
    &&& r.is_some() == comes_back(id)
    &&& id == SYSCALL_EXIT ==> sys_exit_post(k0, k1, signed32_of(a0) as i32)
    &&& id != SYSCALL_EXIT && !comes_back(id) ==> k1 == k0
    &&& id == SYSCALL_READ ==> sys_read_post(k0, k1, a0, a1, a2, r.unwrap())
    &&& id == SYSCALL_WRITE ==> sys_write_post(k0, k1, a0, a1, a2, r.unwrap())
    &&& id == SYSCALL_OPEN ==> sys_open_post(k0, k1, a0, low32_of(a1) as u32, r.unwrap())
    &&& id == SYSCALL_CLOSE ==> sys_close_post(k0, k1, a0, r.unwrap())
    &&& id == SYSCALL_FSTAT ==> sys_fstat_post(k0, k1, a0, a1, r.unwrap())
    &&& id == SYSCALL_LINKAT ==> sys_linkat_post(k0, k1, a0, a1, r.unwrap())
    &&& id == SYSCALL_UNLINKAT ==> sys_unlinkat_post(k0, k1, a0, r.unwrap())
    &&& id == SYSCALL_YIELD ==> sys_yield_post(k0, k1, r.unwrap())
    &&& id == SYSCALL_SET_PRIORITY ==> sys_set_priority_post(k0, k1, signed_of(a0) as isize, r.unwrap())
    &&& id == SYSCALL_GET_TIME ==> sys_get_time_post(k0, k1, a0, a1, r.unwrap())
    &&& id == SYSCALL_GETPID ==> sys_getpid_post(k0, k1, r.unwrap())
    &&& id == SYSCALL_SBRK ==> sys_sbrk_post(k0, k1, signed32_of(a0) as i32, r.unwrap())
    &&& id == SYSCALL_MUNMAP ==> sys_munmap_post(k0, k1, a0, a1, r.unwrap())
    &&& id == SYSCALL_SPAWN ==> sys_spawn_post(k0, k1, a0, r.unwrap())
    &&& id == SYSCALL_EXEC ==> sys_exec_post(k0, k1, a0, r.unwrap())
    &&& id == SYSCALL_MMAP ==> sys_mmap_post(k0, k1, a0, a1, a2, r.unwrap())
    &&& id == SYSCALL_WAITPID ==> sys_waitpid_post(k0, k1, signed_of(a0) as isize, a1, r.unwrap())
    &&& id == SYSCALL_TASK_INFO ==> sys_task_info_post(k0, k1, a0, r.unwrap())
    &&& id == SYSCALL_FORK ==> sys_fork_post(k0, k1, r.unwrap())
    &&& id == SYSCALL_SLEEP ==> sys_sleep_post(k0, k1, a0, r.unwrap())
    &&& id == SYSCALL_ENABLE_DEADLOCK_DETECT ==> sys_enable_deadlock_detect_post(k0, k1, a0, r.unwrap())
    &&& id == SYSCALL_THREAD_CREATE ==> sys_thread_create_post(k0, k1, a0, a1, signed_of(a2) as isize, r.unwrap())
    &&& id == SYSCALL_MUTEX_CREATE ==> sys_mutex_create_post(k0, k1, a0 != 0, r.unwrap())
    &&& id == SYSCALL_MUTEX_LOCK ==> sys_mutex_lock_post(k0, k1, a0, r.unwrap())
    &&& id == SYSCALL_MUTEX_UNLOCK ==> sys_mutex_unlock_post(k0, k1, a0, r.unwrap())
    &&& id == SYSCALL_SEMAPHORE_CREATE ==> sys_semaphore_create_post(k0, k1, a0, r.unwrap())
    &&& id == SYSCALL_SEMAPHORE_UP ==> sys_semaphore_up_post(k0, k1, a0, r.unwrap())
    &&& id == SYSCALL_SEMAPHORE_DOWN ==> sys_semaphore_down_post(k0, k1, a0, r.unwrap())
    &&& id == SYSCALL_CONDVAR_CREATE ==> sys_condvar_create_post(k0, k1, r.unwrap())
    &&& id == SYSCALL_CONDVAR_SIGNAL ==> sys_condvar_signal_post(k0, k1, a0, r.unwrap())
    &&& id == SYSCALL_CONDVAR_WAIT ==> sys_condvar_wait_post(k0, k1, a0, a1, r.unwrap())
}

/// Hands a trap of the task that runs to the handler of call number `id`
/// and leaves what it returns in the first argument register of that
/// task, where the task still exists, as well.
pub fn syscall(k: &mut Kernel, id: usize, a0: usize, a1: usize, a2: usize) -> (r: Option<isize>)
    requires
        old(k).running(),
        id == SYSCALL_MUTEX_UNLOCK ==> may_unlock(*old(k), a0),
        id == SYSCALL_CONDVAR_WAIT && old(k).cur_proc().has_condvar(a0 as int) ==> may_unlock(*old(k), a1),
    ensures
        final(k).wf(),
        exists|k1: Kernel| #[trigger]
            handled(*old(k), k1, id, a0, a1, a2, r) && (match r {
                Some(v) => final(k).returned_from(k1, old(k).current.unwrap(), v),
                None => *final(k) == k1,
            }),
{
    let ghost k0 = *k;
    let cur = k.current_id();
    let v: isize = if id == SYSCALL_READ {
        sys_read(k, a0, a1, a2)
    } else if id == SYSCALL_WRITE {
        sys_write(k, a0, a1, a2)
    } else if id == SYSCALL_OPEN {
        sys_open(k, a0, to_low32(a1))
    } else if id == SYSCALL_CLOSE {
        sys_close(k, a0)
    } else if id == SYSCALL_FSTAT {
        sys_fstat(k, a0, a1)
    } else if id == SYSCALL_LINKAT {
        sys_linkat(k, a0, a1)
    } else if id == SYSCALL_UNLINKAT {
        sys_unlinkat(k, a0)
    } else if id == SYSCALL_YIELD {
        sys_yield(k)
    } else if id == SYSCALL_SET_PRIORITY {
        sys_set_priority(k, to_signed(a0))
    } else if id == SYSCALL_GET_TIME {
        sys_get_time(k, a0, a1)
    } else if id == SYSCALL_GETPID {
        sys_getpid(k)
    } else if id == SYSCALL_SBRK {
        sys_sbrk(k, to_signed32(a0))
    } else if id == SYSCALL_MUNMAP {
        sys_munmap(k, a0, a1)
    } else if id == SYSCALL_SPAWN {
        sys_spawn(k, a0)
    } else if id == SYSCALL_EXEC {
        sys_exec(k, a0)
    } else if id == SYSCALL_MMAP {
        sys_mmap(k, a0, a1, a2)
    } else if id == SYSCALL_WAITPID {
        sys_waitpid(k, to_signed(a0), a1)
    } else if id == SYSCALL_TASK_INFO {
        sys_task_info(k, a0)
    } else if id == SYSCALL_FORK {
        sys_fork(k)
    } else if id == SYSCALL_SLEEP {
        sys_sleep(k, a0)
    } else if id == SYSCALL_ENABLE_DEADLOCK_DETECT {
        sys_enable_deadlock_detect(k, a0)
    } else if id == SYSCALL_THREAD_CREATE {
        sys_thread_create(k, a0, a1, to_signed(a2))
    } else if id == SYSCALL_MUTEX_CREATE {
        sys_mutex_create(k, a0 != 0)
    } else if id == SYSCALL_MUTEX_LOCK {
        sys_mutex_lock(k, a0)
    } else if id == SYSCALL_MUTEX_UNLOCK {
        sys_mutex_unlock(k, a0)
    } else if id == SYSCALL_SEMAPHORE_CREATE {
        sys_semaphore_create(k, a0)
    } else if id == SYSCALL_SEMAPHORE_UP {
        sys_semaphore_up(k, a0)
    } else if id == SYSCALL_SEMAPHORE_DOWN {
        sys_semaphore_down(k, a0)
    } else if id == SYSCALL_CONDVAR_CREATE {
        sys_condvar_create(k)
    } else if id == SYSCALL_CONDVAR_SIGNAL {
        sys_condvar_signal(k, a0)
    } else if id == SYSCALL_CONDVAR_WAIT {
        sys_condvar_wait(k, a0, a1)
    } else if id == SYSCALL_EXIT {
        sys_exit(k, to_signed32(a0));
        assert(handled(k0, *k, id, a0, a1, a2, None));
        return None;
    } else {
        assert(handled(k0, *k, id, a0, a1, a2, None));
        return None;
    };
    let ghost k1 = *k;
    k.set_return(cur, v);
    assert(handled(k0, k1, id, a0, a1, a2, Some(v)));
    Some(v)
}

/// Puts a task on the processor that may go on in user mode, if there is
/// one: every task in the ready queue, and the one that runs, gets one
/// turn at what it has pending, until one of them has nothing pending any
/// more. A task that runs with nothing pending goes on, and nothing
/// changes. Where nobody runs and the first task of the queue has nothing
/// pending, it is that task that runs. Nobody runs afterwards where no
/// task is found.
pub fn schedule(k: &mut Kernel)
    requires
        old(k).wf(),
    ensures
        final(k).wf(),
        final(k).current.is_some() ==> final(k).task(final(k).current.unwrap()).pending is Nothing,
        old(k).current.is_some() && old(k).task(old(k).current.unwrap()).pending is Nothing ==> *final(k)
            == *old(k),
        old(k).current.is_none() && old(k).ready_queue@.len() == 0 ==> final(k).current.is_none()
            && final(k).ready_queue@ == old(k).ready_queue@ && final(k).procs == old(k).procs,
        old(k).current.is_none() && old(k).ready_queue@.len() > 0 && old(k).task(
            old(k).ready_queue@[0],
        ).pending is Nothing ==> {
            let head = old(k).ready_queue@[0];
            &&& final(k).current == Some(head)
            &&& final(k).ready_queue@ == old(k).ready_queue@.drop_first()
            &&& final(k).same_but_schedule(*old(k), head, head)
            &&& final(k).task(head).dispatched_from(old(k).task(head), old(k).now_ms())
        },
{
    let ghost k0 = *k;
    let mut turns: usize = k.ready_queue.len();
    loop
        invariant
            k.wf(),
            k0 == *old(k),
            turns <= k0.ready_queue@.len(),
            turns == k0.ready_queue@.len() ==> *k == k0,
            turns < k0.ready_queue@.len() ==> !(k0.current.is_some() && k0.task(
                k0.current.unwrap(),
            ).pending is Nothing) && !(k0.current.is_none() && k0.task(
                k0.ready_queue@[0],
            ).pending is Nothing),
        decreases turns,
    {
        if k.current.is_none() {
            k.run_next();
        }
        if k.current.is_none() {
            return;
        }
        if resume_pending(k) {
            return;
        }
        if turns == 0 {
            return;
        }
        turns = turns - 1;
    }
}

} // verus!

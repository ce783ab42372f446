//! Types related to task management.

use vstd::prelude::*;
use crate::config::MAX_SYSCALL_NUM;

verus! {

/// The status of a task.
#[derive(Copy, Clone, PartialEq, Eq, Debug, Structural)]
pub enum TaskStatus {
    /// Waits in the ready queue for its turn.
    Ready,
    /// Runs on the processor.
    Running,
    /// Waits for a mutex, a semaphore, a condition variable or a timer.
    Blocked,
    /// Has exited.
    Zombie,
}

impl TaskStatus {
    /// The number that stands for the status in user memory.
    pub open spec fn code(self) -> int {
        match self {
            TaskStatus::Ready => 0,
            TaskStatus::Running => 1,
            TaskStatus::Blocked => 2,
            TaskStatus::Zombie => 3,
        }
    }

    /// The number that stands for the status in user memory.
    pub fn bits(&self) -> (b: u32)
        ensures
            b == self.code(),
    {
        match self {
            TaskStatus::Ready => 0,
            TaskStatus::Running => 1,
            TaskStatus::Blocked => 2,
            TaskStatus::Zombie => 3,
        }
    }
}

/// What a blocked task waits for.
#[derive(Copy, Clone, Debug)]
pub enum WaitReason {
    /// Nothing: the task is not blocked.
    Nothing,
    /// The mutex with this number in the table of its process.
    Mutex(usize),
    /// The semaphore with this number in the table of its process.
    Semaphore(usize),
    /// The condition variable with this number in the table of its process.
    Condvar(usize),
    /// Its timer.
    Timer,
}

/// What a task has to do first when it runs again.
#[derive(Copy, Clone, Debug)]
pub enum Pending {
    /// Nothing: it goes on in user mode.
    Nothing,
    /// Take the mutex with this number: it yielded while the mutex was
    /// held. What comes of it is what its lock call returns.
    LockMutex(usize),
    /// Take the mutex with this number again: it was woken from a
    /// condition variable. What comes of it is not reported.
    Relock(usize),
    /// Yield again unless the clock has reached this time, in
    /// milliseconds.
    Sleep(usize),
}

/// How a lock attempt is made.
#[derive(Copy, Clone, Debug)]
pub enum LockMode {
    /// By the call of the task.
    First,
    /// Again, after the task yielded: what comes of it is what the call of
    /// the task returns.
    Retry,
    /// After the task was woken from a condition variable: what comes of
    /// it is not reported.
    Relock,
}

/// The registers of a task that the kernel reads and writes.
#[derive(Copy, Clone, Debug)]
pub struct TaskContext {
    /// Where the task goes on in user mode.
    pub sepc: usize,
    /// The user stack pointer.
    pub sp: usize,
    /// The first argument register, read as a signed number, which also
    /// takes what a system call returns.
    pub a0: isize,
}

/// Identifies a task: a process and the number of the task in it.
#[derive(Copy, Clone, PartialEq, Eq, Debug, Structural)]
pub struct TaskId {
    /// The process.
    pub pid: usize,
    /// The number of the task in the process.
    pub tid: usize,
}

/// The task control block of a task.
pub struct TaskControlBlock {
    /// The task status in its life cycle.
    pub task_status: TaskStatus,
    /// The task context.
    pub task_cx: TaskContext,
    /// The time when the task first ran, in milliseconds.
    pub start_time: usize,
    /// Whether the task has not run yet.
    pub first_run: bool,
    /// How often the task made each system call, by call number.
    pub syscall_times: Vec<u32>,
    /// The priority of the task. The scheduler does not read it.
    pub priority: isize,
    /// The exit code, once the task has exited.
    pub exit_code: i32,
    /// What the task waits for while it is blocked.
    pub wait: WaitReason,
    /// What the task has to do first when it runs again.
    pub pending: Pending,
}

/// A counter one up, wrapping round at the top.
pub open spec fn bump(n: u32) -> u32 {
    if n == u32::MAX {
        0
    } else {
        (n + 1) as u32
    }
}

impl TaskControlBlock {
    /// Well-formedness: the task has a counter for every call number.
    pub open spec fn wf(&self) -> bool {
        self.syscall_times@.len() == MAX_SYSCALL_NUM
    }

    /// Whether two tasks agree on everything but status, wait and what is
    /// pending.
    pub open spec fn same_but_state(&self, before: Self) -> bool {
        &&& self.task_cx == before.task_cx
        &&& self.start_time == before.start_time
        &&& self.first_run == before.first_run
        &&& self.syscall_times == before.syscall_times
        &&& self.priority == before.priority
        &&& self.exit_code == before.exit_code
    }

    /// Whether `self` is `before` woken: ready, waiting for nothing.
    pub open spec fn woken_from(&self, before: Self) -> bool {
        &&& self.same_but_state(before)
        &&& self.task_status is Ready
        &&& self.wait is Nothing
        &&& self.pending == before.pending
    }

    /// Whether two tasks agree on everything but their counters.
    pub open spec fn same_but_counters(&self, before: Self) -> bool {
        &&& self.task_status == before.task_status
        &&& self.task_cx == before.task_cx
        &&& self.start_time == before.start_time
        &&& self.first_run == before.first_run
        &&& self.priority == before.priority
        &&& self.exit_code == before.exit_code
        &&& self.wait == before.wait
        &&& self.pending == before.pending
    }

    /// Whether the counters are those of `before` with one more call of
    /// `call` counted; a number that is no call number is not counted.
    pub open spec fn counted_from(&self, before: Self, call: usize) -> bool {
        self.syscall_times@ == (if call < MAX_SYSCALL_NUM {
            before.syscall_times@.update(call as int, bump(before.syscall_times@[call as int]))
        } else {
            before.syscall_times@
        })
    }

    /// Whether `self` is `before` put on the processor at the time
    /// `now_ms`: it runs, and a task that runs for the first time notes
    /// the time.
    pub open spec fn dispatched_from(&self, before: Self, now_ms: usize) -> bool {
        &&& self.task_status is Running
        &&& !self.first_run
        &&& self.start_time == (if before.first_run {
            now_ms
        } else {
            before.start_time
        })
        &&& self.task_cx == before.task_cx
        &&& self.syscall_times == before.syscall_times
        &&& self.priority == before.priority
        &&& self.exit_code == before.exit_code
        &&& self.wait == before.wait
        &&& self.pending == before.pending
    }

    /// Whether two tasks agree on everything but their status.
    pub open spec fn same_but_status(&self, before: Self) -> bool {
        &&& self.same_but_state(before)
        &&& self.wait == before.wait
        &&& self.pending == before.pending
    }

    /// Whether two tasks agree on everything but priority and counters.
    pub open spec fn same_but_priority(&self, before: Self) -> bool {
        &&& self.task_status == before.task_status
        &&& self.task_cx == before.task_cx
        &&& self.start_time == before.start_time
        &&& self.first_run == before.first_run
        &&& self.exit_code == before.exit_code
        &&& self.wait == before.wait
        &&& self.pending == before.pending
    }

    /// Whether two tasks agree on everything but status and counters.
    pub open spec fn same_but_state_and_counters(&self, before: Self) -> bool {
        &&& self.task_cx == before.task_cx
        &&& self.start_time == before.start_time
        &&& self.first_run == before.first_run
        &&& self.priority == before.priority
        &&& self.exit_code == before.exit_code
        &&& self.wait == before.wait
        &&& self.pending == before.pending
    }

    /// Whether two tasks agree on everything but what is pending.
    pub open spec fn same_but_pending(&self, before: Self) -> bool {
        &&& self.same_but_state(before)
        &&& self.task_status == before.task_status
        &&& self.wait == before.wait
    }

    /// A task that is ready to run for the first time, at `entry` with the
    /// stack pointer `sp` and the argument `a0`.
    pub fn new(entry: usize, sp: usize, a0: isize) -> (t: Self)
        ensures
            t.wf(),
            t.task_status is Ready,
            t.task_cx == (TaskContext { sepc: entry, sp, a0 }),
            t.first_run,
            t.start_time == 0,
            t.priority == 16,
            t.exit_code == 0,
            t.wait is Nothing,
            t.pending is Nothing,
            forall|i: int| 0 <= i < MAX_SYSCALL_NUM ==> #[trigger] t.syscall_times@[i] == 0,
    {
        let counters: Vec<u32> = vec![0u32; MAX_SYSCALL_NUM];
        TaskControlBlock {
            task_status: TaskStatus::Ready,
            task_cx: TaskContext { sepc: entry, sp, a0 },
            start_time: 0,
            first_run: true,
            syscall_times: counters,
            priority: 16,
            exit_code: 0,
            wait: WaitReason::Nothing,
            pending: Pending::Nothing,
        }
    }

    /// Counts one more call of the system call `id`; a number that is no
    /// call number is not counted.
    pub fn count_syscall(&mut self, id: usize)
        requires
            old(self).wf(),
        ensures
            final(self).wf(),
            final(self).syscall_times@ == (if id < MAX_SYSCALL_NUM {
                old(self).syscall_times@.update(id as int, bump(old(self).syscall_times@[id as int]))
            } else {
                old(self).syscall_times@
            }),
            final(self).task_status == old(self).task_status,
            final(self).task_cx == old(self).task_cx,
            final(self).start_time == old(self).start_time,
            final(self).first_run == old(self).first_run,
            final(self).priority == old(self).priority,
            final(self).exit_code == old(self).exit_code,
            final(self).wait == old(self).wait,
            final(self).pending == old(self).pending,
    {
        if id < MAX_SYSCALL_NUM {
            let n: u32 = self.syscall_times[id];
            self.syscall_times[id] = if n == u32::MAX {
                0
            } else {
                n + 1
            };
        }
    }
}

} // verus!

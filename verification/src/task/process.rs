//! Processes: an address space, a table of open files, the threads, and
//! the synchronisation objects that the threads share.

use vstd::prelude::*;
use crate::mm::memory_set::MemorySet;
use crate::sync::condvar::Condvar;
use crate::sync::deadlock::ResourceAllocation;
use crate::sync::mutex::{LockOutcome, Mutex, MutexBlocking, MutexSpin};
use crate::sync::semaphore::Semaphore;
use crate::config::DEADLOCK;
use crate::task::task::{LockMode, Pending, TaskControlBlock, TaskContext, TaskStatus, WaitReason};

verus! {

/// A mutex of either kind.
pub enum MutexKind {
    /// A mutex whose contenders yield and retry.
    Spin(MutexSpin),
    /// A mutex whose contenders wait in a queue.
    Blocking(MutexBlocking),
}

impl Mutex for MutexKind {
    open spec fn locked(&self) -> bool {
        match self {
            MutexKind::Spin(m) => m.locked(),
            MutexKind::Blocking(m) => m.locked(),
        }
    }

    open spec fn waiters(&self) -> Seq<usize> {
        match self {
            MutexKind::Spin(m) => m.waiters(),
            MutexKind::Blocking(m) => m.waiters(),
        }
    }

    open spec fn blocking(&self) -> bool {
        self is Blocking
    }

    fn lock(&mut self, tid: usize, detect: bool) -> (r: LockOutcome) {
        match self {
            MutexKind::Spin(m) => m.lock(tid, detect),
            MutexKind::Blocking(m) => m.lock(tid, detect),
        }
    }

    fn unlock(&mut self) -> (woken: Option<usize>) {
        match self {
            MutexKind::Spin(m) => m.unlock(),
            MutexKind::Blocking(m) => m.unlock(),
        }
    }
}

impl MutexKind {
    /// Whether the mutex is held.
    pub fn is_locked(&self) -> (b: bool)
        ensures
            b == self.locked(),
    {
        match self {
            MutexKind::Spin(m) => m.is_locked(),
            MutexKind::Blocking(m) => m.is_locked(),
        }
    }

    /// Whether the mutex is of the blocking kind.
    pub fn is_blocking(&self) -> (b: bool)
        ensures
            b == self.blocking(),
    {
        match self {
            MutexKind::Spin(_) => false,
            MutexKind::Blocking(_) => true,
        }
    }
}

/// A mutex in the table of a process, with the number of its resource type
/// in the deadlock detector.
pub struct MutexSlot {
    /// The mutex.
    pub mutex: MutexKind,
    /// Its resource type.
    pub res_id: usize,
}

/// A semaphore in the table of a process, with the number of its resource
/// type in the deadlock detector.
pub struct SemaphoreSlot {
    /// The semaphore.
    pub sem: Semaphore,
    /// Its resource type.
    pub res_id: usize,
}

/// The first slot of a table that is empty, or the length of the table.
pub open spec fn free_slot<T>(list: Seq<Option<T>>, from: int) -> int
    decreases list.len() - from,
{
    if from < 0 || from >= list.len() {
        list.len() as int
    } else if list[from].is_none() {
        from
    } else {
        free_slot(list, from + 1)
    }
}

/// Finds the first empty slot of a table.
pub fn find_free_slot<T>(list: &Vec<Option<T>>) -> (r: usize)
    ensures
        r == free_slot(list@, 0),
        r <= list@.len(),
        r < list@.len() ==> list@[r as int].is_none(),
        forall|i: int| 0 <= i < r ==> (#[trigger] list@[i]).is_some(),
{
    let mut i: usize = 0;
    while i < list.len()
        invariant
            i <= list@.len(),
            free_slot(list@, 0) == free_slot(list@, i as int),
            forall|j: int| 0 <= j < i ==> (#[trigger] list@[j]).is_some(),
        decreases list@.len() - i,
    {
        if list[i].is_none() {
            return i;
        }
        i = i + 1;
    }
    i
}

/// The process control block.
pub struct ProcessControlBlock {
    /// The process id.
    pub pid: usize,
    /// The parent, as a process id.
    pub parent: Option<usize>,
    /// The children, as process ids.
    pub children: Vec<usize>,
    /// Whether the process has exited.
    pub is_zombie: bool,
    /// The exit code, once the process has exited.
    pub exit_code: i32,
    /// The address space.
    pub memory_set: MemorySet,
    /// Where the heap starts.
    pub heap_bottom: usize,
    /// Where the heap ends.
    pub program_brk: usize,
    /// The open files: each descriptor in use names a handle in the
    /// kernel's table of open files.
    pub fd_table: Vec<Option<usize>>,
    /// The threads, by their number in the process.
    pub tasks: Vec<TaskControlBlock>,
    /// The mutexes.
    pub mutex_list: Vec<Option<MutexSlot>>,
    /// The semaphores.
    pub semaphore_list: Vec<Option<SemaphoreSlot>>,
    /// The condition variables.
    pub condvar_list: Vec<Option<Condvar>>,
    /// Whether lock attempts are checked for deadlock.
    pub enable_deadlock_detect: bool,
    /// Whether a thread found a mutex held since the last unlock.
    pub deadlocked: bool,
    /// The resource-allocation state for the deadlock check.
    pub detector: ResourceAllocation,
}

impl ProcessControlBlock {
    /// Whether the process has a mutex with number `id`.
    pub open spec fn has_mutex(&self, id: int) -> bool {
        0 <= id < self.mutex_list@.len() && self.mutex_list@[id].is_some()
    }

    /// Whether the process has a semaphore with number `id`.
    pub open spec fn has_semaphore(&self, id: int) -> bool {
        0 <= id < self.semaphore_list@.len() && self.semaphore_list@[id].is_some()
    }

    /// Whether the process has a condition variable with number `id`.
    pub open spec fn has_condvar(&self, id: int) -> bool {
        0 <= id < self.condvar_list@.len() && self.condvar_list@[id].is_some()
    }

    /// The threads that wait for what `reason` names, first come first.
    pub open spec fn queue_of(&self, reason: WaitReason) -> Seq<usize> {
        match reason {
            WaitReason::Mutex(id) => if self.has_mutex(id as int) {
                self.mutex_list@[id as int].unwrap().mutex.waiters()
            } else {
                Seq::empty()
            },
            WaitReason::Semaphore(id) => if self.has_semaphore(id as int) {
                self.semaphore_list@[id as int].unwrap().sem.waiters()
            } else {
                Seq::empty()
            },
            WaitReason::Condvar(id) => if self.has_condvar(id as int) {
                self.condvar_list@[id as int].unwrap().waiters()
            } else {
                Seq::empty()
            },
            _ => Seq::empty(),
        }
    }

    /// Whether thread `tid` is blocked and waits for what `reason` names.
    pub open spec fn waits_for(&self, tid: usize, reason: WaitReason) -> bool {
        &&& tid < self.tasks@.len()
        &&& self.tasks@[tid as int].task_status is Blocked
        &&& self.tasks@[tid as int].wait == reason
    }

    /// Every queue holds threads that are blocked and wait for the object
    /// of the queue, each of them once.
    pub open spec fn queues_wf(&self) -> bool {
        forall|reason: WaitReason|
            (#[trigger] self.queue_of(reason)).no_duplicates() && forall|i: int|
                0 <= i < self.queue_of(reason).len() ==> self.waits_for(
                    #[trigger] self.queue_of(reason)[i],
                    reason,
                )
    }

    /// Every mutex and semaphore has a resource type in the detector, and
    /// every semaphore is well-formed.
    pub open spec fn resources_wf(&self) -> bool {
        &&& forall|id: int|
            self.has_mutex(id) ==> (#[trigger] self.mutex_list@[id]).unwrap().res_id
                < self.detector@.resources()
        &&& forall|id: int|
            self.has_semaphore(id) ==> (#[trigger] self.semaphore_list@[id]).unwrap().res_id
                < self.detector@.resources() && self.semaphore_list@[id].unwrap().sem.wf()
    }

    /// Well-formedness of what belongs to the process alone: it has a
    /// thread, every thread has a row in the detector and its counters, and
    /// the queues and resources are in order.
    pub open spec fn wf(&self) -> bool {
        &&& self.tasks@.len() >= 1
        &&& forall|t: int| 0 <= t < self.tasks@.len() ==> (#[trigger] self.tasks@[t]).wf()
        &&& self.detector.wf()
        &&& self.detector@.threads() == self.tasks@.len()
        &&& self.detector@.rows_are_tids()
        &&& self.queues_wf()
        &&& self.resources_wf()
    }

    /// Whether two processes agree on everything but their threads.
    pub open spec fn same_but_tasks(&self, before: Self) -> bool {
        &&& self.pid == before.pid
        &&& self.parent == before.parent
        &&& self.children == before.children
        &&& self.is_zombie == before.is_zombie
        &&& self.exit_code == before.exit_code
        &&& self.memory_set == before.memory_set
        &&& self.heap_bottom == before.heap_bottom
        &&& self.program_brk == before.program_brk
        &&& self.fd_table == before.fd_table
        &&& self.mutex_list == before.mutex_list
        &&& self.semaphore_list == before.semaphore_list
        &&& self.condvar_list == before.condvar_list
        &&& self.enable_deadlock_detect == before.enable_deadlock_detect
        &&& self.deadlocked == before.deadlocked
        &&& self.detector == before.detector
    }

    /// Whether two processes agree on everything but the address space,
    /// the heap bounds and the threads.
    pub open spec fn same_but_memory(&self, before: Self) -> bool {
        &&& self.pid == before.pid
        &&& self.parent == before.parent
        &&& self.children == before.children
        &&& self.is_zombie == before.is_zombie
        &&& self.exit_code == before.exit_code
        &&& self.fd_table == before.fd_table
        &&& self.mutex_list == before.mutex_list
        &&& self.semaphore_list == before.semaphore_list
        &&& self.condvar_list == before.condvar_list
        &&& self.enable_deadlock_detect == before.enable_deadlock_detect
        &&& self.deadlocked == before.deadlocked
        &&& self.detector == before.detector
    }

    /// Whether two processes agree on everything but whether deadlocks
    /// are detected.
    pub open spec fn same_but_detect(&self, before: Self) -> bool {
        &&& self.same_but_memory_set(before)
        &&& self.memory_set == before.memory_set
        &&& self.fd_table == before.fd_table
        &&& self.deadlocked == before.deadlocked
    }

    /// Whether two processes agree on identity, family, threads and what
    /// serves synchronisation but for the two flags.
    pub open spec fn same_but_memory_set(&self, before: Self) -> bool {
        &&& self.pid == before.pid
        &&& self.parent == before.parent
        &&& self.children == before.children
        &&& self.is_zombie == before.is_zombie
        &&& self.exit_code == before.exit_code
        &&& self.heap_bottom == before.heap_bottom
        &&& self.program_brk == before.program_brk
        &&& self.tasks == before.tasks
        &&& self.mutex_list == before.mutex_list
        &&& self.semaphore_list == before.semaphore_list
        &&& self.condvar_list == before.condvar_list
        &&& self.detector == before.detector
    }

    /// Whether two processes agree on everything but their children and
    /// their threads.
    pub open spec fn same_but_children(&self, before: Self) -> bool {
        &&& self.pid == before.pid
        &&& self.parent == before.parent
        &&& self.is_zombie == before.is_zombie
        &&& self.exit_code == before.exit_code
        &&& self.heap_bottom == before.heap_bottom
        &&& self.program_brk == before.program_brk
        &&& self.mutex_list == before.mutex_list
        &&& self.semaphore_list == before.semaphore_list
        &&& self.condvar_list == before.condvar_list
        &&& self.detector == before.detector
        &&& self.memory_set == before.memory_set
        &&& self.fd_table == before.fd_table
        &&& self.deadlocked == before.deadlocked
        &&& self.enable_deadlock_detect == before.enable_deadlock_detect
    }

    /// Whether two processes agree on everything but parent and children.
    pub open spec fn same_but_family(&self, before: Self) -> bool {
        &&& self.pid == before.pid
        &&& self.is_zombie == before.is_zombie
        &&& self.exit_code == before.exit_code
        &&& self.heap_bottom == before.heap_bottom
        &&& self.program_brk == before.program_brk
        &&& self.tasks == before.tasks
        &&& self.mutex_list == before.mutex_list
        &&& self.semaphore_list == before.semaphore_list
        &&& self.condvar_list == before.condvar_list
        &&& self.detector == before.detector
        &&& self.memory_set == before.memory_set
        &&& self.fd_table == before.fd_table
        &&& self.deadlocked == before.deadlocked
        &&& self.enable_deadlock_detect == before.enable_deadlock_detect
    }

    /// Whether two processes agree on everything but the descriptor table.
    pub open spec fn same_but_fds(&self, before: Self) -> bool {
        &&& self.pid == before.pid
        &&& self.parent == before.parent
        &&& self.children == before.children
        &&& self.is_zombie == before.is_zombie
        &&& self.exit_code == before.exit_code
        &&& self.mutex_list == before.mutex_list
        &&& self.semaphore_list == before.semaphore_list
        &&& self.condvar_list == before.condvar_list
        &&& self.enable_deadlock_detect == before.enable_deadlock_detect
        &&& self.deadlocked == before.deadlocked
        &&& self.detector == before.detector
        &&& self.memory_set == before.memory_set
        &&& self.heap_bottom == before.heap_bottom
        &&& self.program_brk == before.program_brk
        &&& self.tasks == before.tasks
    }

    /// A change that leaves the threads and what serves synchronisation
    /// alone keeps the process well-formed.
    pub proof fn lemma_wf_same_sync(&self, before: Self)
        requires
            before.wf(),
            self.tasks@ == before.tasks@,
            self.mutex_list == before.mutex_list,
            self.semaphore_list == before.semaphore_list,
            self.condvar_list == before.condvar_list,
            self.detector == before.detector,
        ensures
            self.wf(),
    {
        assert forall|reason: WaitReason| self.queue_of(reason) == before.queue_of(reason) by {}
        self.lemma_queues_task_change(before, -1, -1);
    }

    /// A change to one thread that keeps its status and what it waits for
    /// keeps the process well-formed, whatever else changes but what
    /// serves synchronisation.
    pub proof fn lemma_wf_task_kept(&self, before: Self, tid: int)
        requires
            before.wf(),
            self.tasks_same_but(before, tid),
            0 <= tid < before.tasks@.len(),
            self.tasks@[tid].wf(),
            self.tasks@[tid].task_status == before.tasks@[tid].task_status,
            self.tasks@[tid].wait == before.tasks@[tid].wait,
            self.mutex_list == before.mutex_list,
            self.semaphore_list == before.semaphore_list,
            self.condvar_list == before.condvar_list,
            self.detector == before.detector,
        ensures
            self.wf(),
    {
        assert forall|reason: WaitReason|
            (#[trigger] self.queue_of(reason)).no_duplicates() && forall|i: int|
                0 <= i < self.queue_of(reason).len() ==> self.waits_for(
                    #[trigger] self.queue_of(reason)[i],
                    reason,
                ) by {
            assert(self.queue_of(reason) == before.queue_of(reason));
            assert forall|i: int| 0 <= i < self.queue_of(reason).len() implies self.waits_for(
                #[trigger] self.queue_of(reason)[i],
                reason,
            ) by {
                assert(before.waits_for(before.queue_of(reason)[i], reason));
            }
        }
        assert forall|t: int| 0 <= t < self.tasks@.len() implies (#[trigger] self.tasks@[t]).wf() by {
            if t != tid {
                assert(before.tasks@[t].wf());
            }
        }
    }

    /// A thread that waits for its timer, or does not wait, may change in
    /// any way: it is in no queue, and the process stays well-formed where
    /// the thread does.
    pub proof fn lemma_wf_timer_task(&self, before: Self, tid: int)
        requires
            before.wf(),
            self.same_but_tasks(before),
            self.tasks_same_but(before, tid),
            0 <= tid < before.tasks@.len(),
            self.tasks@[tid].wf(),
            !(before.tasks@[tid].task_status is Blocked) || before.tasks@[tid].wait is Timer,
        ensures
            self.wf(),
    {
        assert forall|reason: WaitReason|
            (#[trigger] self.queue_of(reason)).no_duplicates() && forall|i: int|
                0 <= i < self.queue_of(reason).len() ==> self.waits_for(
                    #[trigger] self.queue_of(reason)[i],
                    reason,
                ) by {
            assert(self.queue_of(reason) == before.queue_of(reason));
            assert forall|i: int| 0 <= i < self.queue_of(reason).len() implies self.waits_for(
                #[trigger] self.queue_of(reason)[i],
                reason,
            ) by {
                assert(before.waits_for(before.queue_of(reason)[i], reason));
                if before.queue_of(reason)[i] == tid {
                    assert(before.tasks@[tid].wait == reason);
                    assert(before.queue_of(reason).len() > 0);
                }
            }
        }
        assert forall|t: int| 0 <= t < self.tasks@.len() implies (#[trigger] self.tasks@[t]).wf() by {
            if t != tid {
                assert(before.tasks@[t].wf());
            }
        }
    }

    /// A change to the address space alone keeps the process well-formed.
    pub proof fn lemma_wf_same_sync_lists(&self, before: Self)
        requires
            before.wf(),
            self.tasks@ == before.tasks@,
            self.mutex_list@ == before.mutex_list@,
            self.semaphore_list@ == before.semaphore_list@,
            self.condvar_list@ == before.condvar_list@,
            self.detector == before.detector,
        ensures
            self.wf(),
    {
        assert forall|reason: WaitReason| self.queue_of(reason) == before.queue_of(reason) by {}
        self.lemma_queues_task_change(before, -1, -1);
    }

    /// Whether two processes agree on everything but their threads and
    /// what serves synchronisation.
    pub open spec fn same_but_sync(&self, before: Self) -> bool {
        &&& self.pid == before.pid
        &&& self.parent == before.parent
        &&& self.children == before.children
        &&& self.is_zombie == before.is_zombie
        &&& self.exit_code == before.exit_code
        &&& self.memory_set == before.memory_set
        &&& self.heap_bottom == before.heap_bottom
        &&& self.program_brk == before.program_brk
        &&& self.fd_table == before.fd_table
        &&& self.enable_deadlock_detect == before.enable_deadlock_detect
    }

    /// Whether two processes have the same threads but for thread `tid`.
    pub open spec fn tasks_same_but(&self, before: Self, tid: int) -> bool {
        &&& self.tasks@.len() == before.tasks@.len()
        &&& forall|t: int|
            0 <= t < self.tasks@.len() && t != tid ==> #[trigger] self.tasks@[t] == before.tasks@[t]
    }

    /// Whether two processes have the same threads but for two of them.
    pub open spec fn tasks_same_but2(&self, before: Self, tid: int, other: int) -> bool {
        &&& self.tasks@.len() == before.tasks@.len()
        &&& forall|t: int|
            0 <= t < self.tasks@.len() && t != tid && t != other ==> #[trigger] self.tasks@[t]
                == before.tasks@[t]
    }

    /// A change to threads that wait in no queue keeps the queues in order.
    pub proof fn lemma_queues_task_change(&self, before: Self, tid: int, other: int)
        requires
            before.queues_wf(),
            self.tasks_same_but2(before, tid, other),
            forall|reason: WaitReason| self.queue_of(reason) == before.queue_of(reason),
            0 <= tid < before.tasks@.len() ==> !(before.tasks@[tid].task_status is Blocked),
            0 <= other < before.tasks@.len() ==> !(before.tasks@[other].task_status is Blocked),
        ensures
            self.queues_wf(),
    {
        assert forall|reason: WaitReason|
            (#[trigger] self.queue_of(reason)).no_duplicates() && forall|i: int|
                0 <= i < self.queue_of(reason).len() ==> self.waits_for(
                    #[trigger] self.queue_of(reason)[i],
                    reason,
                ) by {
            assert(self.queue_of(reason) == before.queue_of(reason));
            assert forall|i: int| 0 <= i < self.queue_of(reason).len() implies self.waits_for(
                #[trigger] self.queue_of(reason)[i],
                reason,
            ) by {
                assert(before.waits_for(before.queue_of(reason)[i], reason));
            }
        }
    }

    /// A thread that was not blocked, and is blocked now for what `reason`
    /// names, may join the end of the queue of `reason`.
    pub proof fn lemma_queues_enqueue(&self, before: Self, tid: usize, reason: WaitReason)
        requires
            before.queues_wf(),
            self.tasks_same_but(before, tid as int),
            tid < before.tasks@.len(),
            !(before.tasks@[tid as int].task_status is Blocked),
            self.waits_for(tid, reason),
            self.queue_of(reason) == before.queue_of(reason).push(tid),
            forall|other: WaitReason| other != reason ==> self.queue_of(other) == before.queue_of(other),
        ensures
            self.queues_wf(),
    {
        assert forall|r: WaitReason|
            (#[trigger] self.queue_of(r)).no_duplicates() && forall|i: int|
                0 <= i < self.queue_of(r).len() ==> self.waits_for(
                    #[trigger] self.queue_of(r)[i],
                    r,
                ) by {
            let old_q = before.queue_of(r);
            assert(old_q.no_duplicates());
            assert forall|i: int| 0 <= i < old_q.len() implies old_q[i] != tid by {
                assert(before.waits_for(old_q[i], r));
            }
            assert forall|i: int| 0 <= i < self.queue_of(r).len() implies self.waits_for(
                #[trigger] self.queue_of(r)[i],
                r,
            ) by {
                if i < old_q.len() {
                    assert(before.waits_for(old_q[i], r));
                    assert(self.queue_of(r)[i] == old_q[i]);
                }
            }
            if r == reason {
                assert forall|a: int, b: int|
                    0 <= a < self.queue_of(r).len() && 0 <= b < self.queue_of(r).len() && a
                        != b implies self.queue_of(r)[a] != self.queue_of(r)[b] by {
                    if a < old_q.len() && b < old_q.len() {
                        assert(old_q[a] != old_q[b]);
                    }
                }
            }
        }
    }

    /// The first thread of the queue of `reason` may leave it, whatever
    /// becomes of the thread.
    pub proof fn lemma_queues_dequeue(&self, before: Self, reason: WaitReason)
        requires
            before.queues_wf(),
            before.queue_of(reason).len() > 0,
            self.tasks_same_but(before, before.queue_of(reason)[0] as int),
            self.queue_of(reason) == before.queue_of(reason).drop_first(),
            forall|other: WaitReason| other != reason ==> self.queue_of(other) == before.queue_of(other),
        ensures
            self.queues_wf(),
    {
        let w = before.queue_of(reason)[0];
        assert(before.waits_for(w, reason));
        assert forall|r: WaitReason|
            (#[trigger] self.queue_of(r)).no_duplicates() && forall|i: int|
                0 <= i < self.queue_of(r).len() ==> self.waits_for(
                    #[trigger] self.queue_of(r)[i],
                    r,
                ) by {
            let old_q = before.queue_of(r);
            assert(old_q.no_duplicates());
            if r == reason {
                assert forall|i: int| 0 <= i < self.queue_of(r).len() implies self.waits_for(
                    #[trigger] self.queue_of(r)[i],
                    r,
                ) by {
                    assert(self.queue_of(r)[i] == old_q[i + 1]);
                    assert(old_q[i + 1] != old_q[0]);
                    assert(before.waits_for(old_q[i + 1], r));
                }
                assert forall|a: int, b: int|
                    0 <= a < self.queue_of(r).len() && 0 <= b < self.queue_of(r).len() && a
                        != b implies self.queue_of(r)[a] != self.queue_of(r)[b] by {
                    assert(old_q[a + 1] != old_q[b + 1]);
                }
            } else {
                assert forall|i: int| 0 <= i < self.queue_of(r).len() implies self.waits_for(
                    #[trigger] self.queue_of(r)[i],
                    r,
                ) by {
                    assert(before.waits_for(old_q[i], r));
                }
            }
        }
    }

    /// Whether the process is new: not a zombie, without children, open
    /// files or synchronisation objects, deadlocks not detected, and with
    /// its one thread ready to run for the first time.
    pub open spec fn fresh(&self) -> bool {
        &&& !self.is_zombie
        &&& self.exit_code == 0
        &&& self.children@.len() == 0
        &&& self.mutex_list@.len() == 0
        &&& self.semaphore_list@.len() == 0
        &&& self.condvar_list@.len() == 0
        &&& !self.enable_deadlock_detect
        &&& !self.deadlocked
        &&& self.detector@ == crate::sync::deadlock::ResourceView::empty().with_thread(0)
        &&& self.tasks@.len() == 1
        &&& self.tasks@[0].task_status is Ready
        &&& self.tasks@[0].wait is Nothing
        &&& self.tasks@[0].pending is Nothing
        &&& self.tasks@[0].first_run
    }

    /// A new process with the given address space, heap bounds and
    /// descriptor table, whose one thread is `task`.
    pub fn new(
        pid: usize,
        parent: Option<usize>,
        memory_set: MemorySet,
        heap_bottom: usize,
        program_brk: usize,
        fd_table: Vec<Option<usize>>,
        task: TaskControlBlock,
    ) -> (p: Self)
        requires
            task.wf(),
            task.task_status is Ready,
            task.wait is Nothing,
            task.pending is Nothing,
            task.first_run,
        ensures
            p.wf(),
            p.fresh(),
            p.pid == pid,
            p.parent == parent,
            p.memory_set == memory_set,
            p.heap_bottom == heap_bottom,
            p.program_brk == program_brk,
            p.fd_table == fd_table,
            p.tasks@[0] == task,
    {
        let mut detector = ResourceAllocation::new();
        detector.addthread(0);
        let mut tasks: Vec<TaskControlBlock> = Vec::new();
        tasks.push(task);
        let p = ProcessControlBlock {
            pid,
            parent,
            children: Vec::new(),
            is_zombie: false,
            exit_code: 0,
            memory_set,
            heap_bottom,
            program_brk,
            fd_table,
            tasks,
            mutex_list: Vec::new(),
            semaphore_list: Vec::new(),
            condvar_list: Vec::new(),
            enable_deadlock_detect: false,
            deadlocked: false,
            detector,
        };
        proof {
            assert forall|reason: WaitReason|
                (#[trigger] p.queue_of(reason)).no_duplicates() && forall|i: int|
                    0 <= i < p.queue_of(reason).len() ==> p.waits_for(
                        #[trigger] p.queue_of(reason)[i],
                        reason,
                    ) by {
                assert(p.queue_of(reason) =~= Seq::<usize>::empty());
            }
        }
        p
    }

    /// A change to one thread keeps the process well-formed where the
    /// thread stays well-formed and either was not blocked or keeps its
    /// status and what it waits for.
    pub proof fn lemma_wf_task_update(&self, before: Self, tid: int)
        requires
            before.wf(),
            self.same_but_tasks(before),
            self.tasks_same_but(before, tid),
            0 <= tid < before.tasks@.len(),
            self.tasks@[tid].wf(),
            !(before.tasks@[tid].task_status is Blocked) || (self.tasks@[tid].task_status
                == before.tasks@[tid].task_status && self.tasks@[tid].wait
                == before.tasks@[tid].wait),
        ensures
            self.wf(),
    {
        assert forall|reason: WaitReason| self.queue_of(reason) == before.queue_of(reason) by {}
        if !(before.tasks@[tid].task_status is Blocked) {
            self.lemma_queues_task_change(before, tid, -1);
        } else {
            assert forall|reason: WaitReason|
                (#[trigger] self.queue_of(reason)).no_duplicates() && forall|i: int|
                    0 <= i < self.queue_of(reason).len() ==> self.waits_for(
                        #[trigger] self.queue_of(reason)[i],
                        reason,
                    ) by {
                assert(self.queue_of(reason) == before.queue_of(reason));
                assert forall|i: int| 0 <= i < self.queue_of(reason).len() implies self.waits_for(
                    #[trigger] self.queue_of(reason)[i],
                    reason,
                ) by {
                    assert(before.waits_for(before.queue_of(reason)[i], reason));
                }
            }
        }
        assert forall|t: int| 0 <= t < self.tasks@.len() implies (#[trigger] self.tasks@[t]).wf() by {
            if t != tid {
                assert(before.tasks@[t].wf());
            }
        }
    }

    /// What a lock attempt of thread `tid` on mutex `id` comes to. The
    /// request is noted first; where deadlocks are detected and the state
    /// is then not safe, the attempt is given up. Otherwise the mutex
    /// decides.
    pub open spec fn lock_outcome(&self, tid: usize, id: usize) -> LockOutcome {
        let slot = self.mutex_list@[id as int].unwrap();
        let asked = self.detector@.note_request(tid as int, slot.res_id as int);
        if self.enable_deadlock_detect && !asked.safe() {
            LockOutcome::WouldDeadlock
        } else if !slot.mutex.locked() {
            LockOutcome::Acquired
        } else if self.enable_deadlock_detect {
            LockOutcome::WouldDeadlock
        } else if slot.mutex.blocking() {
            LockOutcome::MustBlock
        } else {
            LockOutcome::MustYield
        }
    }

    /// The tables of the detector after a lock attempt of thread `tid` on
    /// mutex `id`: the request is noted; a grant follows where the mutex
    /// was taken; the request stays where the thread waits in the queue;
    /// it is taken back otherwise.
    pub open spec fn lock_tables(&self, tid: usize, id: usize) -> crate::sync::deadlock::ResourceView {
        let slot = self.mutex_list@[id as int].unwrap();
        let r = slot.res_id as int;
        let asked = self.detector@.note_request(tid as int, r);
        match self.lock_outcome(tid, id) {
            LockOutcome::Acquired => asked.note_grant(tid as int, r),
            LockOutcome::MustBlock => asked,
            _ => asked.note_withdraw(tid as int, r),
        }
    }

    /// What `mutex_create` leaves, with the number `id` of the new mutex.
    pub open spec fn mutex_create_post(&self, before: Self, blocking: bool, id: usize) -> bool {
        &&& self.same_but_sync(before)
        &&& self.tasks == before.tasks
        &&& self.semaphore_list == before.semaphore_list
        &&& self.condvar_list == before.condvar_list
        &&& self.deadlocked == before.deadlocked
        &&& id == free_slot(before.mutex_list@, 0)
        &&& self.has_mutex(id as int)
        &&& self.mutex_list@.len() == (if id < before.mutex_list@.len() {
            before.mutex_list@.len()
        } else {
            before.mutex_list@.len() + 1
        })
        &&& forall|k: int|
            0 <= k < before.mutex_list@.len() && k != id ==> #[trigger] self.mutex_list@[k] == before.mutex_list@[k]
        &&& self.mutex_list@[id as int].unwrap().res_id == before.detector@.resources()
        &&& !self.mutex_list@[id as int].unwrap().mutex.locked()
        &&& self.mutex_list@[id as int].unwrap().mutex.blocking() == blocking
        &&& self.mutex_list@[id as int].unwrap().mutex.waiters() == Seq::<usize>::empty()
        &&& self.detector@ == before.detector@.with_resource(1)
    }

    /// Adds a mutex of the given kind, free, in the first empty slot of
    /// the table, or at its end, and returns its number. The detector gets
    /// a resource type with one instance for it.
    pub fn mutex_create(&mut self, blocking: bool) -> (id: usize)
        requires
            old(self).wf(),
        ensures
            final(self).wf(),
            final(self).mutex_create_post(*old(self), blocking, id),
    {
        let ghost before = *self;
        let res_id: usize = self.detector.resources_types_num();
        let mutex = if blocking {
            MutexKind::Blocking(MutexBlocking::new())
        } else {
            MutexKind::Spin(MutexSpin::new())
        };
        let slot = MutexSlot { mutex, res_id };
        self.detector.add_res_type(1);
        let id: usize = find_free_slot(&self.mutex_list);
        if id < self.mutex_list.len() {
            self.mutex_list[id] = Some(slot);
        } else {
            self.mutex_list.push(Some(slot));
        }
        proof {
            assert forall|reason: WaitReason| self.queue_of(reason) == before.queue_of(reason) by {
                match reason {
                    WaitReason::Mutex(m) => {
                        if m == id {
                            assert(self.queue_of(reason) =~= before.queue_of(reason));
                        } else if m < before.mutex_list@.len() {
                            assert(self.mutex_list@[m as int] == before.mutex_list@[m as int]);
                        }
                    },
                    _ => {},
                }
            }
            self.lemma_queues_task_change(before, -1, -1);
            assert forall|k: int| self.has_mutex(k) implies (#[trigger] self.mutex_list@[k]).unwrap().res_id
                < self.detector@.resources() by {
                if k != id {
                    assert(before.has_mutex(k));
                    assert(self.mutex_list@[k] == before.mutex_list@[k]);
                }
            }
        }
        id
    }

    /// What `mutex_lock` leaves, with its outcome `r`.
    pub open spec fn mutex_lock_post(
        &self,
        before: Self,
        tid: usize,
        id: usize,
        mode: LockMode,
        r: LockOutcome,
    ) -> bool {
        &&& r == before.lock_outcome(tid, id)
        &&& self.same_but_sync(before)
        &&& self.semaphore_list == before.semaphore_list
        &&& self.condvar_list == before.condvar_list
        &&& self.detector@.same_tables(before.lock_tables(tid, id))
        &&& self.deadlocked == (before.deadlocked || (before.mutex_list@[id as int].unwrap().mutex.locked() && !(before.enable_deadlock_detect
            && !before.detector@.note_request(
            tid as int,
            before.mutex_list@[id as int].unwrap().res_id as int,
        ).safe())))
        &&& self.mutex_list@.len() == before.mutex_list@.len()
        &&& forall|k: int|
            0 <= k < before.mutex_list@.len() && k != id ==> #[trigger] self.mutex_list@[k] == before.mutex_list@[k]
        &&& self.has_mutex(id as int)
        &&& self.mutex_list@[id as int].unwrap().res_id == before.mutex_list@[id as int].unwrap().res_id
        &&& self.mutex_list@[id as int].unwrap().mutex.blocking() == before.mutex_list@[id as int].unwrap().mutex.blocking()
        &&& self.mutex_list@[id as int].unwrap().mutex.locked() == (before.mutex_list@[id as int].unwrap().mutex.locked() || r is Acquired)
        &&& self.mutex_list@[id as int].unwrap().mutex.waiters() == (if r is MustBlock {
            before.mutex_list@[id as int].unwrap().mutex.waiters().push(tid)
        } else {
            before.mutex_list@[id as int].unwrap().mutex.waiters()
        })
        &&& self.tasks_same_but(before, tid as int)
        &&& self.tasks@[tid as int].task_cx == (if mode is Retry && (r is Acquired
            || r is WouldDeadlock) {
            TaskContext {
                a0: if r is WouldDeadlock {
                    DEADLOCK
                } else {
                    0
                },
                ..before.tasks@[tid as int].task_cx
            }
        } else {
            before.tasks@[tid as int].task_cx
        })
        &&& self.tasks@[tid as int].start_time == before.tasks@[tid as int].start_time
        &&& self.tasks@[tid as int].first_run == before.tasks@[tid as int].first_run
        &&& self.tasks@[tid as int].syscall_times == before.tasks@[tid as int].syscall_times
        &&& self.tasks@[tid as int].priority == before.tasks@[tid as int].priority
        &&& self.tasks@[tid as int].exit_code == before.tasks@[tid as int].exit_code
        &&& self.tasks@[tid as int].task_status == (if r is MustBlock {
            TaskStatus::Blocked
        } else if r is MustYield {
            TaskStatus::Ready
        } else {
            before.tasks@[tid as int].task_status
        })
        &&& self.tasks@[tid as int].wait == (if r is MustBlock {
            WaitReason::Mutex(id)
        } else {
            before.tasks@[tid as int].wait
        })
        &&& self.tasks@[tid as int].pending == (if r is MustYield {
            if mode is Relock {
                Pending::Relock(id)
            } else {
                Pending::LockMutex(id)
            }
        } else {
            Pending::Nothing
        })
    }

    /// Tries to take mutex `id` for thread `tid`, which runs. The detector
    /// is told of the request, and of what became of it. A thread that has
    /// to wait is blocked and put in the queue of the mutex; one that has
    /// to yield is made ready and marked to try again when it next runs.
    /// The flag `deadlocked` is set whenever the mutex was found held.
    pub fn mutex_lock(&mut self, tid: usize, id: usize, mode: LockMode) -> (r: LockOutcome)
        requires
            old(self).wf(),
            tid < old(self).tasks@.len(),
            !(old(self).tasks@[tid as int].task_status is Blocked),
            old(self).has_mutex(id as int),
        ensures
            final(self).wf(),
            final(self).mutex_lock_post(*old(self), tid, id, mode, r),
    {
        let ghost before = *self;
        let detect: bool = self.enable_deadlock_detect;
        let res_id: usize = match &self.mutex_list[id] {
            Some(slot) => slot.res_id,
            None => 0,
        };
        proof {
            self.detector@.lemma_rows_are_tids(tid);
            assert(before.mutex_list@[id as int].unwrap().res_id < before.detector@.resources());
        }
        self.detector.note_request(tid, res_id);
        proof {
            self.detector@.lemma_rows_are_tids(tid);
        }
        let ghost asked = self.detector@;
        if detect && self.detector.is_deadlocked(res_id) {
            proof {
                self.detector@.lemma_rows_are_tids(tid);
            }
            let ghost checked = self.detector@;
            self.detector.note_withdraw(tid, res_id);
            self.tasks[tid].pending = Pending::Nothing;
            match mode {
                LockMode::Retry => {
                    self.tasks[tid].task_cx.a0 = DEADLOCK;
                },
                _ => {},
            }
            proof {
                assert(self.detector@.same_tables(asked.note_withdraw(tid as int, res_id as int)));
                assert forall|reason: WaitReason| self.queue_of(reason) == before.queue_of(reason) by {}
                self.lemma_queues_task_change(before, tid as int, -1);
            }
            return LockOutcome::WouldDeadlock;
        }
        proof {
            if detect {
                asked.lemma_same_tables_safe(self.detector@);
            }
            self.detector@.lemma_rows_are_tids(tid);
        }
        let ghost checked = self.detector@;
        let outcome = match &mut self.mutex_list[id] {
            Some(slot) => slot.mutex.lock(tid, detect),
            None => LockOutcome::WouldDeadlock,
        };
        let ghost locked = *self;
        match outcome {
            LockOutcome::Acquired => {
                self.detector.note_grant(tid, res_id);
                self.tasks[tid].pending = Pending::Nothing;
                match mode {
                    LockMode::Retry => {
                        self.tasks[tid].task_cx.a0 = 0;
                    },
                    _ => {},
                }
            },
            LockOutcome::WouldDeadlock => {
                self.deadlocked = true;
                self.detector.note_withdraw(tid, res_id);
                self.tasks[tid].pending = Pending::Nothing;
                match mode {
                    LockMode::Retry => {
                        self.tasks[tid].task_cx.a0 = DEADLOCK;
                    },
                    _ => {},
                }
            },
            LockOutcome::MustYield => {
                self.deadlocked = true;
                self.detector.note_withdraw(tid, res_id);
                self.tasks[tid].task_status = TaskStatus::Ready;
                self.tasks[tid].pending = match mode {
                    LockMode::Relock => Pending::Relock(id),
                    _ => Pending::LockMutex(id),
                };
            },
            LockOutcome::MustBlock => {
                self.deadlocked = true;
                self.tasks[tid].task_status = TaskStatus::Blocked;
                self.tasks[tid].wait = WaitReason::Mutex(id);
                self.tasks[tid].pending = Pending::Nothing;
            },
        }
        proof {
            assert forall|k: int| self.has_mutex(k) implies (#[trigger] self.mutex_list@[k]).unwrap().res_id
                < self.detector@.resources() by {
                if k != id {
                    assert(before.has_mutex(k));
                    assert(self.mutex_list@[k] == before.mutex_list@[k]);
                }
            }
            assert forall|other: WaitReason|
                other != WaitReason::Mutex(id) implies self.queue_of(other) == before.queue_of(
                other,
            ) by {
                match other {
                    WaitReason::Mutex(m) => {
                        if m < before.mutex_list@.len() {
                            assert(self.mutex_list@[m as int] == before.mutex_list@[m as int]);
                        }
                    },
                    _ => {},
                }
            }
            if outcome is MustBlock {
                self.lemma_queues_enqueue(before, tid, WaitReason::Mutex(id));
            } else {
                assert forall|reason: WaitReason| self.queue_of(reason) == before.queue_of(reason) by {
                    if reason != WaitReason::Mutex(id) {
                        assert(self.queue_of(reason) == before.queue_of(reason));
                    }
                }
                self.lemma_queues_task_change(before, tid as int, -1);
            }
        }
        outcome
    }

    /// Wakes thread `w`: it is ready and waits for nothing.
    pub(crate) fn wake(&mut self, w: usize)
        requires
            w < old(self).tasks@.len(),
        ensures
            final(self).same_but_tasks(*old(self)),
            final(self).tasks_same_but(*old(self), w as int),
            final(self).tasks@[w as int].woken_from(old(self).tasks@[w as int]),
    {
        self.tasks[w].task_status = TaskStatus::Ready;
        self.tasks[w].wait = WaitReason::Nothing;
    }

    /// The tables of the detector after thread `tid` gave back an instance
    /// of `r` which then went to the thread `woken`, if any.
    pub open spec fn handover_tables(
        &self,
        tid: usize,
        r: usize,
        woken: Option<usize>,
    ) -> crate::sync::deadlock::ResourceView {
        let given = self.detector@.note_release(tid as int, r as int);
        match woken {
            Some(w) => given.note_grant(w as int, r as int),
            None => given,
        }
    }

    /// What `mutex_unlock` leaves, with the thread `woken`, if any.
    pub open spec fn mutex_unlock_post(&self, before: Self, tid: usize, id: usize, woken: Option<usize>) -> bool {
        &&& self.same_but_sync(before)
        &&& self.semaphore_list == before.semaphore_list
        &&& self.condvar_list == before.condvar_list
        &&& !self.deadlocked
        &&& woken == (if before.mutex_list@[id as int].unwrap().mutex.waiters().len() > 0 {
            Some(before.mutex_list@[id as int].unwrap().mutex.waiters()[0])
        } else {
            None
        })
        &&& self.detector@ == before.handover_tables(
            tid,
            before.mutex_list@[id as int].unwrap().res_id,
            woken,
        )
        &&& self.mutex_list@.len() == before.mutex_list@.len()
        &&& forall|k: int|
            0 <= k < before.mutex_list@.len() && k != id ==> #[trigger] self.mutex_list@[k] == before.mutex_list@[k]
        &&& self.has_mutex(id as int)
        &&& self.mutex_list@[id as int].unwrap().res_id == before.mutex_list@[id as int].unwrap().res_id
        &&& self.mutex_list@[id as int].unwrap().mutex.blocking() == before.mutex_list@[id as int].unwrap().mutex.blocking()
        &&& self.mutex_list@[id as int].unwrap().mutex.locked() == woken.is_some()
        &&& self.mutex_list@[id as int].unwrap().mutex.waiters() == (if woken.is_some() {
            before.mutex_list@[id as int].unwrap().mutex.waiters().drop_first()
        } else {
            before.mutex_list@[id as int].unwrap().mutex.waiters()
        })
        &&& match woken {
            Some(w) => {
                &&& before.waits_for(w, WaitReason::Mutex(id))
                &&& self.tasks_same_but(before, w as int)
                &&& self.tasks@[w as int].woken_from(before.tasks@[w as int])
            },
            None => self.tasks == before.tasks,
        }
    }

    /// Gives up mutex `id` for thread `tid`. The first thread in the queue
    /// of the mutex, if any, is woken and returned: the mutex passes to
    /// it. The detector is told, and the flag `deadlocked` is cleared.
    pub fn mutex_unlock(&mut self, tid: usize, id: usize) -> (woken: Option<usize>)
        requires
            old(self).wf(),
            tid < old(self).tasks@.len(),
            old(self).has_mutex(id as int),
            old(self).mutex_list@[id as int].unwrap().mutex.blocking() ==> old(self).mutex_list@[id as int].unwrap().mutex.locked(),
        ensures
            final(self).wf(),
            final(self).mutex_unlock_post(*old(self), tid, id, woken),
    {
        let ghost before = *self;
        let ghost reason = WaitReason::Mutex(id);
        let res_id: usize = match &self.mutex_list[id] {
            Some(slot) => slot.res_id,
            None => 0,
        };
        let woken = match &mut self.mutex_list[id] {
            Some(slot) => slot.mutex.unlock(),
            None => None,
        };
        self.deadlocked = false;
        proof {
            self.detector@.lemma_rows_are_tids(tid);
            assert(before.mutex_list@[id as int].unwrap().res_id < before.detector@.resources());
            assert(before.queue_of(reason) == before.mutex_list@[id as int].unwrap().mutex.waiters());
            if woken.is_some() {
                assert(before.waits_for(before.queue_of(reason)[0], reason));
            }
        }
        self.detector.note_release(tid, res_id);
        match woken {
            Some(w) => {
                proof {
                    self.detector@.lemma_rows_are_tids(w);
                }
                self.detector.note_grant(w, res_id);
                self.wake(w);
            },
            None => {},
        }
        proof {
            assert forall|k: int| self.has_mutex(k) implies (#[trigger] self.mutex_list@[k]).unwrap().res_id
                < self.detector@.resources() by {
                if k != id {
                    assert(before.has_mutex(k));
                    assert(self.mutex_list@[k] == before.mutex_list@[k]);
                }
            }
            assert forall|other: WaitReason| other != reason implies self.queue_of(other)
                == before.queue_of(other) by {
                match other {
                    WaitReason::Mutex(m) => {
                        if m < before.mutex_list@.len() {
                            assert(self.mutex_list@[m as int] == before.mutex_list@[m as int]);
                        }
                    },
                    _ => {},
                }
            }
            if woken.is_some() {
                self.lemma_queues_dequeue(before, reason);
            } else {
                assert forall|r: WaitReason| self.queue_of(r) == before.queue_of(r) by {
                    if r != reason {
                        assert(self.queue_of(r) == before.queue_of(r));
                    }
                }
                self.lemma_queues_task_change(before, -1, -1);
            }
        }
        woken
    }

    /// What `semaphore_create` leaves, with the number `id` of the new
    /// semaphore.
    pub open spec fn semaphore_create_post(&self, before: Self, res_count: usize, id: usize) -> bool {
        &&& self.same_but_sync(before)
        &&& self.tasks == before.tasks
        &&& self.mutex_list == before.mutex_list
        &&& self.condvar_list == before.condvar_list
        &&& self.deadlocked == before.deadlocked
        &&& id == free_slot(before.semaphore_list@, 0)
        &&& self.has_semaphore(id as int)
        &&& self.semaphore_list@.len() == (if id < before.semaphore_list@.len() {
            before.semaphore_list@.len()
        } else {
            before.semaphore_list@.len() + 1
        })
        &&& forall|k: int|
            0 <= k < before.semaphore_list@.len() && k != id ==> #[trigger] self.semaphore_list@[k] == before.semaphore_list@[k]
        &&& self.semaphore_list@[id as int].unwrap().res_id == before.detector@.resources()
        &&& self.semaphore_list@[id as int].unwrap().sem.count() == res_count
        &&& self.semaphore_list@[id as int].unwrap().sem.waiters() == Seq::<usize>::empty()
        &&& self.detector@ == before.detector@.with_resource(res_count as int)
    }

    /// Adds a semaphore with `res_count` free instances in the first empty
    /// slot of the table, or at its end, and returns its number. The
    /// detector gets a resource type with as many instances for it.
    pub fn semaphore_create(&mut self, res_count: usize) -> (id: usize)
        requires
            old(self).wf(),
            res_count <= isize::MAX,
        ensures
            final(self).wf(),
            final(self).semaphore_create_post(*old(self), res_count, id),
    {
        let ghost before = *self;
        let res_id: usize = self.detector.resources_types_num();
        let slot = SemaphoreSlot { sem: Semaphore::new(res_count), res_id };
        self.detector.add_res_type(res_count);
        let id: usize = find_free_slot(&self.semaphore_list);
        if id < self.semaphore_list.len() {
            self.semaphore_list[id] = Some(slot);
        } else {
            self.semaphore_list.push(Some(slot));
        }
        proof {
            assert forall|reason: WaitReason| self.queue_of(reason) == before.queue_of(reason) by {
                match reason {
                    WaitReason::Semaphore(m) => {
                        if m == id {
                            assert(self.queue_of(reason) =~= before.queue_of(reason));
                        } else if m < before.semaphore_list@.len() {
                            assert(self.semaphore_list@[m as int] == before.semaphore_list@[m as int]);
                        }
                    },
                    _ => {},
                }
            }
            self.lemma_queues_task_change(before, -1, -1);
            assert forall|k: int| self.has_semaphore(k) implies (
            #[trigger] self.semaphore_list@[k]).unwrap().res_id < self.detector@.resources()
                && self.semaphore_list@[k].unwrap().sem.wf() by {
                if k != id {
                    assert(before.has_semaphore(k));
                    assert(self.semaphore_list@[k] == before.semaphore_list@[k]);
                }
            }
            assert forall|k: int| self.has_mutex(k) implies (#[trigger] self.mutex_list@[k]).unwrap().res_id
                < self.detector@.resources() by {
                assert(before.has_mutex(k));
            }
        }
        id
    }

    /// What `semaphore_up` leaves, with the thread `woken`, if any.
    pub open spec fn semaphore_up_post(&self, before: Self, tid: usize, id: usize, woken: Option<usize>) -> bool {
        &&& self.same_but_sync(before)
        &&& self.mutex_list == before.mutex_list
        &&& self.condvar_list == before.condvar_list
        &&& self.deadlocked == before.deadlocked
        &&& woken == (if before.semaphore_list@[id as int].unwrap().sem.count() < 0 {
            Some(before.semaphore_list@[id as int].unwrap().sem.waiters()[0])
        } else {
            None
        })
        &&& self.detector@ == before.handover_tables(
            tid,
            before.semaphore_list@[id as int].unwrap().res_id,
            woken,
        )
        &&& self.semaphore_list@.len() == before.semaphore_list@.len()
        &&& forall|k: int|
            0 <= k < before.semaphore_list@.len() && k != id ==> #[trigger] self.semaphore_list@[k] == before.semaphore_list@[k]
        &&& self.has_semaphore(id as int)
        &&& self.semaphore_list@[id as int].unwrap().res_id == before.semaphore_list@[id as int].unwrap().res_id
        &&& self.semaphore_list@[id as int].unwrap().sem.count() == before.semaphore_list@[id as int].unwrap().sem.count() + 1
        &&& self.semaphore_list@[id as int].unwrap().sem.waiters() == (if woken.is_some() {
            before.semaphore_list@[id as int].unwrap().sem.waiters().drop_first()
        } else {
            before.semaphore_list@[id as int].unwrap().sem.waiters()
        })
        &&& match woken {
            Some(w) => {
                &&& before.waits_for(w, WaitReason::Semaphore(id))
                &&& self.tasks_same_but(before, w as int)
                &&& self.tasks@[w as int].woken_from(before.tasks@[w as int])
            },
            None => self.tasks == before.tasks,
        }
    }

    /// Adds one to semaphore `id` for thread `tid`. Where threads wait, the
    /// first of them is woken and returned. The detector is told.
    pub fn semaphore_up(&mut self, tid: usize, id: usize) -> (woken: Option<usize>)
        requires
            old(self).wf(),
            tid < old(self).tasks@.len(),
            old(self).has_semaphore(id as int),
            old(self).semaphore_list@[id as int].unwrap().sem.count() < isize::MAX,
        ensures
            final(self).wf(),
            final(self).semaphore_up_post(*old(self), tid, id, woken),
    {
        let ghost before = *self;
        let ghost reason = WaitReason::Semaphore(id);
        let res_id: usize = match &self.semaphore_list[id] {
            Some(slot) => slot.res_id,
            None => 0,
        };
        proof {
            assert(before.semaphore_list@[id as int].unwrap().sem.wf());
        }
        let woken = match &mut self.semaphore_list[id] {
            Some(slot) => slot.sem.up(),
            None => None,
        };
        proof {
            self.detector@.lemma_rows_are_tids(tid);
            assert(before.semaphore_list@[id as int].unwrap().res_id < before.detector@.resources());
            assert(before.queue_of(reason) == before.semaphore_list@[id as int].unwrap().sem.waiters());
            if woken.is_some() {
                assert(before.waits_for(before.queue_of(reason)[0], reason));
            }
        }
        self.detector.note_release(tid, res_id);
        match woken {
            Some(w) => {
                proof {
                    self.detector@.lemma_rows_are_tids(w);
                }
                self.detector.note_grant(w, res_id);
                self.wake(w);
            },
            None => {},
        }
        proof {
            assert forall|k: int| self.has_semaphore(k) implies (
            #[trigger] self.semaphore_list@[k]).unwrap().res_id < self.detector@.resources()
                && self.semaphore_list@[k].unwrap().sem.wf() by {
                if k != id {
                    assert(before.has_semaphore(k));
                    assert(self.semaphore_list@[k] == before.semaphore_list@[k]);
                }
            }
            assert forall|k: int| self.has_mutex(k) implies (#[trigger] self.mutex_list@[k]).unwrap().res_id
                < self.detector@.resources() by {
                assert(before.has_mutex(k));
            }
            assert forall|other: WaitReason| other != reason implies self.queue_of(other)
                == before.queue_of(other) by {
                match other {
                    WaitReason::Semaphore(m) => {
                        if m < before.semaphore_list@.len() {
                            assert(self.semaphore_list@[m as int] == before.semaphore_list@[m as int]);
                        }
                    },
                    _ => {},
                }
            }
            if woken.is_some() {
                self.lemma_queues_dequeue(before, reason);
            } else {
                assert forall|r: WaitReason| self.queue_of(r) == before.queue_of(r) by {
                    if r != reason {
                        assert(self.queue_of(r) == before.queue_of(r));
                    }
                }
                self.lemma_queues_task_change(before, -1, -1);
            }
        }
        woken
    }

    /// What an attempt of thread `tid` to take an instance of semaphore
    /// `id` comes to. The request is noted first; where deadlocks are
    /// detected and the state is then not safe, the attempt is given up.
    /// Otherwise the thread has to wait where no instance is free.
    pub open spec fn down_outcome(&self, tid: usize, id: usize) -> LockOutcome {
        let slot = self.semaphore_list@[id as int].unwrap();
        let asked = self.detector@.note_request(tid as int, slot.res_id as int);
        if self.enable_deadlock_detect && !asked.safe() {
            LockOutcome::WouldDeadlock
        } else if slot.sem.count() <= 0 {
            LockOutcome::MustBlock
        } else {
            LockOutcome::Acquired
        }
    }

    /// The tables of the detector after an attempt of thread `tid` to take
    /// an instance of semaphore `id`.
    pub open spec fn down_tables(&self, tid: usize, id: usize) -> crate::sync::deadlock::ResourceView {
        let slot = self.semaphore_list@[id as int].unwrap();
        let r = slot.res_id as int;
        let asked = self.detector@.note_request(tid as int, r);
        match self.down_outcome(tid, id) {
            LockOutcome::Acquired => asked.note_grant(tid as int, r),
            LockOutcome::MustBlock => asked,
            _ => asked.note_withdraw(tid as int, r),
        }
    }

    /// What `semaphore_down` leaves, with its outcome `r`.
    pub open spec fn semaphore_down_post(&self, before: Self, tid: usize, id: usize, r: LockOutcome) -> bool {
        &&& r == before.down_outcome(tid, id)
        &&& self.same_but_sync(before)
        &&& self.mutex_list == before.mutex_list
        &&& self.condvar_list == before.condvar_list
        &&& self.deadlocked == before.deadlocked
        &&& self.detector@.same_tables(before.down_tables(tid, id))
        &&& self.semaphore_list@.len() == before.semaphore_list@.len()
        &&& forall|k: int|
            0 <= k < before.semaphore_list@.len() && k != id ==> #[trigger] self.semaphore_list@[k] == before.semaphore_list@[k]
        &&& self.has_semaphore(id as int)
        &&& self.semaphore_list@[id as int].unwrap().res_id == before.semaphore_list@[id as int].unwrap().res_id
        &&& self.semaphore_list@[id as int].unwrap().sem.count() == (if r is WouldDeadlock {
            before.semaphore_list@[id as int].unwrap().sem.count()
        } else {
            before.semaphore_list@[id as int].unwrap().sem.count() - 1
        })
        &&& self.semaphore_list@[id as int].unwrap().sem.waiters() == (if r is MustBlock {
            before.semaphore_list@[id as int].unwrap().sem.waiters().push(tid)
        } else {
            before.semaphore_list@[id as int].unwrap().sem.waiters()
        })
        &&& self.tasks_same_but(before, tid as int)
        &&& self.tasks@[tid as int].same_but_state(before.tasks@[tid as int])
        &&& self.tasks@[tid as int].pending == before.tasks@[tid as int].pending
        &&& self.tasks@[tid as int].task_status == (if r is MustBlock {
            TaskStatus::Blocked
        } else {
            before.tasks@[tid as int].task_status
        })
        &&& self.tasks@[tid as int].wait == (if r is MustBlock {
            WaitReason::Semaphore(id)
        } else {
            before.tasks@[tid as int].wait
        })
    }

    /// Takes an instance of semaphore `id` for thread `tid`, which runs.
    /// The detector is told of the request and of what became of it. A
    /// thread that has to wait is blocked and put in the queue of the
    /// semaphore.
    pub fn semaphore_down(&mut self, tid: usize, id: usize) -> (r: LockOutcome)
        requires
            old(self).wf(),
            tid < old(self).tasks@.len(),
            !(old(self).tasks@[tid as int].task_status is Blocked),
            old(self).has_semaphore(id as int),
            old(self).semaphore_list@[id as int].unwrap().sem.count() > isize::MIN,
        ensures
            final(self).wf(),
            final(self).semaphore_down_post(*old(self), tid, id, r),
    {
        let ghost before = *self;
        let ghost reason = WaitReason::Semaphore(id);
        let detect: bool = self.enable_deadlock_detect;
        let res_id: usize = match &self.semaphore_list[id] {
            Some(slot) => slot.res_id,
            None => 0,
        };
        proof {
            self.detector@.lemma_rows_are_tids(tid);
            assert(before.semaphore_list@[id as int].unwrap().res_id < before.detector@.resources());
            assert(before.semaphore_list@[id as int].unwrap().sem.wf());
        }
        self.detector.note_request(tid, res_id);
        proof {
            self.detector@.lemma_rows_are_tids(tid);
        }
        let ghost asked = self.detector@;
        if detect && self.detector.is_deadlocked(res_id) {
            proof {
                self.detector@.lemma_rows_are_tids(tid);
            }
            self.detector.note_withdraw(tid, res_id);
            proof {
                assert(self.detector@.same_tables(asked.note_withdraw(tid as int, res_id as int)));
                assert forall|r: WaitReason| self.queue_of(r) == before.queue_of(r) by {}
                self.lemma_queues_task_change(before, -1, -1);
                assert(self.tasks@ =~= before.tasks@);
            }
            return LockOutcome::WouldDeadlock;
        }
        proof {
            if detect {
                asked.lemma_same_tables_safe(self.detector@);
            }
            self.detector@.lemma_rows_are_tids(tid);
        }
        let blocked = match &mut self.semaphore_list[id] {
            Some(slot) => slot.sem.down(tid),
            None => false,
        };
        if blocked {
            self.tasks[tid].task_status = TaskStatus::Blocked;
            self.tasks[tid].wait = WaitReason::Semaphore(id);
        } else {
            self.detector.note_grant(tid, res_id);
        }
        proof {
            assert forall|k: int| self.has_semaphore(k) implies (
            #[trigger] self.semaphore_list@[k]).unwrap().res_id < self.detector@.resources()
                && self.semaphore_list@[k].unwrap().sem.wf() by {
                if k != id {
                    assert(before.has_semaphore(k));
                    assert(self.semaphore_list@[k] == before.semaphore_list@[k]);
                }
            }
            assert forall|k: int| self.has_mutex(k) implies (#[trigger] self.mutex_list@[k]).unwrap().res_id
                < self.detector@.resources() by {
                assert(before.has_mutex(k));
            }
            assert forall|other: WaitReason| other != reason implies self.queue_of(other)
                == before.queue_of(other) by {
                match other {
                    WaitReason::Semaphore(m) => {
                        if m < before.semaphore_list@.len() {
                            assert(self.semaphore_list@[m as int] == before.semaphore_list@[m as int]);
                        }
                    },
                    _ => {},
                }
            }
            if blocked {
                self.lemma_queues_enqueue(before, tid, reason);
            } else {
                assert forall|r: WaitReason| self.queue_of(r) == before.queue_of(r) by {
                    if r != reason {
                        assert(self.queue_of(r) == before.queue_of(r));
                    }
                }
                self.lemma_queues_task_change(before, -1, -1);
                assert(self.tasks@ =~= before.tasks@);
            }
        }
        if blocked {
            LockOutcome::MustBlock
        } else {
            LockOutcome::Acquired
        }
    }

    /// What `condvar_create` leaves, with the number `id` of the new
    /// condition variable.
    pub open spec fn condvar_create_post(&self, before: Self, id: usize) -> bool {
        &&& self.same_but_sync(before)
        &&& self.tasks == before.tasks
        &&& self.mutex_list == before.mutex_list
        &&& self.semaphore_list == before.semaphore_list
        &&& self.deadlocked == before.deadlocked
        &&& self.detector == before.detector
        &&& id == free_slot(before.condvar_list@, 0)
        &&& self.has_condvar(id as int)
        &&& self.condvar_list@.len() == (if id < before.condvar_list@.len() {
            before.condvar_list@.len()
        } else {
            before.condvar_list@.len() + 1
        })
        &&& forall|k: int|
            0 <= k < before.condvar_list@.len() && k != id ==> #[trigger] self.condvar_list@[k] == before.condvar_list@[k]
        &&& self.condvar_list@[id as int].unwrap().waiters() == Seq::<usize>::empty()
    }

    /// Adds a condition variable with nobody waiting in the first empty
    /// slot of the table, or at its end, and returns its number.
    pub fn condvar_create(&mut self) -> (id: usize)
        requires
            old(self).wf(),
        ensures
            final(self).wf(),
            final(self).condvar_create_post(*old(self), id),
    {
        let ghost before = *self;
        let id: usize = find_free_slot(&self.condvar_list);
        if id < self.condvar_list.len() {
            self.condvar_list[id] = Some(Condvar::new());
        } else {
            self.condvar_list.push(Some(Condvar::new()));
        }
        proof {
            assert forall|reason: WaitReason| self.queue_of(reason) == before.queue_of(reason) by {
                match reason {
                    WaitReason::Condvar(m) => {
                        if m == id {
                            assert(self.queue_of(reason) =~= before.queue_of(reason));
                        } else if m < before.condvar_list@.len() {
                            assert(self.condvar_list@[m as int] == before.condvar_list@[m as int]);
                        }
                    },
                    _ => {},
                }
            }
            self.lemma_queues_task_change(before, -1, -1);
        }
        id
    }

    /// What `condvar_signal` leaves, with the thread `woken`, if any.
    pub open spec fn condvar_signal_post(&self, before: Self, id: usize, woken: Option<usize>) -> bool {
        &&& self.same_but_sync(before)
        &&& self.mutex_list == before.mutex_list
        &&& self.semaphore_list == before.semaphore_list
        &&& self.deadlocked == before.deadlocked
        &&& self.detector == before.detector
        &&& woken == (if before.condvar_list@[id as int].unwrap().waiters().len() > 0 {
            Some(before.condvar_list@[id as int].unwrap().waiters()[0])
        } else {
            None
        })
        &&& self.condvar_list@.len() == before.condvar_list@.len()
        &&& forall|k: int|
            0 <= k < before.condvar_list@.len() && k != id ==> #[trigger] self.condvar_list@[k] == before.condvar_list@[k]
        &&& self.has_condvar(id as int)
        &&& self.condvar_list@[id as int].unwrap().waiters() == (if woken.is_some() {
            before.condvar_list@[id as int].unwrap().waiters().drop_first()
        } else {
            before.condvar_list@[id as int].unwrap().waiters()
        })
        &&& match woken {
            Some(w) => {
                &&& before.waits_for(w, WaitReason::Condvar(id))
                &&& self.tasks_same_but(before, w as int)
                &&& self.tasks@[w as int].woken_from(before.tasks@[w as int])
            },
            None => self.tasks == before.tasks,
        }
    }

    /// Wakes the first thread that waits for condition variable `id`, if
    /// any, and returns it. The thread takes its mutex again when it next
    /// runs.
    pub fn condvar_signal(&mut self, id: usize) -> (woken: Option<usize>)
        requires
            old(self).wf(),
            old(self).has_condvar(id as int),
        ensures
            final(self).wf(),
            final(self).condvar_signal_post(*old(self), id, woken),
    {
        let ghost before = *self;
        let ghost reason = WaitReason::Condvar(id);
        let woken = match &mut self.condvar_list[id] {
            Some(cv) => cv.signal(),
            None => None,
        };
        proof {
            assert(before.queue_of(reason) == before.condvar_list@[id as int].unwrap().waiters());
            if woken.is_some() {
                assert(before.waits_for(before.queue_of(reason)[0], reason));
            }
        }
        match woken {
            Some(w) => {
                self.wake(w);
            },
            None => {},
        }
        proof {
            assert forall|other: WaitReason| other != reason implies self.queue_of(other)
                == before.queue_of(other) by {
                match other {
                    WaitReason::Condvar(m) => {
                        if m < before.condvar_list@.len() {
                            assert(self.condvar_list@[m as int] == before.condvar_list@[m as int]);
                        }
                    },
                    _ => {},
                }
            }
            if woken.is_some() {
                self.lemma_queues_dequeue(before, reason);
            } else {
                assert forall|r: WaitReason| self.queue_of(r) == before.queue_of(r) by {
                    if r != reason {
                        assert(self.queue_of(r) == before.queue_of(r));
                    }
                }
                self.lemma_queues_task_change(before, -1, -1);
            }
        }
        woken
    }

    /// What `condvar_wait` leaves, with the thread `woken`, if any.
    pub open spec fn condvar_wait_post(&self, before: Self, tid: usize, cid: usize, mid: usize, woken: Option<usize>) -> bool {
        &&& self.same_but_sync(before)
        &&& self.semaphore_list == before.semaphore_list
        &&& !self.deadlocked
        &&& woken == (if before.mutex_list@[mid as int].unwrap().mutex.waiters().len() > 0 {
            Some(before.mutex_list@[mid as int].unwrap().mutex.waiters()[0])
        } else {
            None
        })
        &&& woken != Some(tid)
        &&& self.detector@ == before.handover_tables(
            tid,
            before.mutex_list@[mid as int].unwrap().res_id,
            woken,
        )
        &&& self.mutex_list@.len() == before.mutex_list@.len()
        &&& forall|k: int|
            0 <= k < before.mutex_list@.len() && k != mid ==> #[trigger] self.mutex_list@[k] == before.mutex_list@[k]
        &&& self.has_mutex(mid as int)
        &&& self.mutex_list@[mid as int].unwrap().res_id == before.mutex_list@[mid as int].unwrap().res_id
        &&& self.mutex_list@[mid as int].unwrap().mutex.blocking() == before.mutex_list@[mid as int].unwrap().mutex.blocking()
        &&& self.mutex_list@[mid as int].unwrap().mutex.locked() == woken.is_some()
        &&& self.mutex_list@[mid as int].unwrap().mutex.waiters() == (if woken.is_some() {
            before.mutex_list@[mid as int].unwrap().mutex.waiters().drop_first()
        } else {
            before.mutex_list@[mid as int].unwrap().mutex.waiters()
        })
        &&& self.condvar_list@.len() == before.condvar_list@.len()
        &&& forall|k: int|
            0 <= k < before.condvar_list@.len() && k != cid ==> #[trigger] self.condvar_list@[k] == before.condvar_list@[k]
        &&& self.has_condvar(cid as int)
        &&& self.condvar_list@[cid as int].unwrap().waiters() == before.condvar_list@[cid as int].unwrap().waiters().push(tid)
        &&& self.tasks_same_but2(
            before,
            tid as int,
            match woken {
                Some(w) => w as int,
                None => -1,
            },
        )
        &&& self.tasks@[tid as int].same_but_state(before.tasks@[tid as int])
        &&& self.tasks@[tid as int].task_status is Blocked
        &&& self.tasks@[tid as int].wait == WaitReason::Condvar(cid)
        &&& self.tasks@[tid as int].pending == Pending::Relock(mid)
        &&& match woken {
            Some(w) => {
                &&& before.waits_for(w, WaitReason::Mutex(mid))
                &&& self.tasks@[w as int].woken_from(before.tasks@[w as int])
            },
            None => true,
        }
    }

    /// Makes thread `tid`, which runs, wait for condition variable `cid`:
    /// it gives up mutex `mid`, is blocked at the end of the queue of the
    /// condition variable, and is marked to take the mutex again when it
    /// next runs. The thread that the mutex passed to, if any, is woken and
    /// returned.
    pub fn condvar_wait(&mut self, tid: usize, cid: usize, mid: usize) -> (woken: Option<usize>)
        requires
            old(self).wf(),
            tid < old(self).tasks@.len(),
            !(old(self).tasks@[tid as int].task_status is Blocked),
            old(self).has_condvar(cid as int),
            old(self).has_mutex(mid as int),
            old(self).mutex_list@[mid as int].unwrap().mutex.blocking() ==> old(self).mutex_list@[mid as int].unwrap().mutex.locked(),
        ensures
            final(self).wf(),
            final(self).condvar_wait_post(*old(self), tid, cid, mid, woken),
    {
        let ghost before = *self;
        let ghost reason = WaitReason::Condvar(cid);
        let woken = self.mutex_unlock(tid, mid);
        let ghost unlocked = *self;
        match &mut self.condvar_list[cid] {
            Some(cv) => {
                cv.wait(tid);
            },
            None => {},
        }
        self.tasks[tid].task_status = TaskStatus::Blocked;
        self.tasks[tid].wait = WaitReason::Condvar(cid);
        self.tasks[tid].pending = Pending::Relock(mid);
        proof {
            assert(self.tasks@[tid as int].task_status is Blocked);
            assert forall|other: WaitReason| other != reason implies self.queue_of(other)
                == unlocked.queue_of(other) by {
                match other {
                    WaitReason::Condvar(m) => {
                        if m < before.condvar_list@.len() {
                            assert(self.condvar_list@[m as int] == unlocked.condvar_list@[m as int]);
                        }
                    },
                    _ => {},
                }
            }
            self.lemma_queues_enqueue(unlocked, tid, reason);
            assert forall|k: int| self.has_mutex(k) implies (#[trigger] self.mutex_list@[k]).unwrap().res_id
                < self.detector@.resources() by {
                assert(unlocked.has_mutex(k));
            }
            assert forall|k: int| self.has_semaphore(k) implies (
            #[trigger] self.semaphore_list@[k]).unwrap().res_id < self.detector@.resources()
                && self.semaphore_list@[k].unwrap().sem.wf() by {
                assert(unlocked.has_semaphore(k));
            }
        }
        woken
    }

    /// Whether `self` is `before` after it exited with `code`: a zombie
    /// with that exit code, every thread a zombie that waits for nothing,
    /// and no open file or synchronisation object left.
    pub open spec fn terminated_from(&self, before: Self, code: i32) -> bool {
        &&& self.is_zombie
        &&& self.exit_code == code
        &&& self.pid == before.pid
        &&& self.parent == before.parent
        &&& self.children == before.children
        &&& self.memory_set == before.memory_set
        &&& self.heap_bottom == before.heap_bottom
        &&& self.program_brk == before.program_brk
        &&& self.fd_table@.len() == 0
        &&& self.enable_deadlock_detect == before.enable_deadlock_detect
        &&& self.deadlocked == before.deadlocked
        &&& self.detector == before.detector
        &&& self.mutex_list@.len() == 0
        &&& self.semaphore_list@.len() == 0
        &&& self.condvar_list@.len() == 0
        &&& self.tasks@.len() == before.tasks@.len()
        &&& forall|t: int|
            0 <= t < self.tasks@.len() ==> {
                &&& (#[trigger] self.tasks@[t]).task_status is Zombie
                &&& self.tasks@[t].wait is Nothing
                &&& self.tasks@[t].pending is Nothing
                &&& self.tasks@[t].same_but_state(before.tasks@[t])
            }
    }

    /// Ends the process with the exit code `code`: it becomes a zombie,
    /// all its threads with it; its descriptors are closed, and its
    /// synchronisation objects go.
    pub fn terminate(&mut self, code: i32)
        requires
            old(self).wf(),
        ensures
            final(self).wf(),
            final(self).terminated_from(*old(self), code),
    {
        let ghost before = *self;
        self.is_zombie = true;
        self.exit_code = code;
        self.fd_table = Vec::new();
        self.mutex_list = Vec::new();
        self.semaphore_list = Vec::new();
        self.condvar_list = Vec::new();
        let n: usize = self.tasks.len();
        let mut t: usize = 0;
        while t < n
            invariant
                t <= n,
                n == before.tasks@.len(),
                self.tasks@.len() == n,
                before.wf(),
                self.is_zombie,
                self.exit_code == code,
                self.pid == before.pid,
                self.parent == before.parent,
                self.children == before.children,
                self.memory_set == before.memory_set,
                self.heap_bottom == before.heap_bottom,
                self.program_brk == before.program_brk,
                self.fd_table@.len() == 0,
                self.enable_deadlock_detect == before.enable_deadlock_detect,
                self.deadlocked == before.deadlocked,
                self.detector == before.detector,
                self.mutex_list@.len() == 0,
                self.semaphore_list@.len() == 0,
                self.condvar_list@.len() == 0,
                forall|u: int|
                    0 <= u < t ==> {
                        &&& (#[trigger] self.tasks@[u]).task_status is Zombie
                        &&& self.tasks@[u].wait is Nothing
                        &&& self.tasks@[u].pending is Nothing
                        &&& self.tasks@[u].same_but_state(before.tasks@[u])
                    },
                forall|u: int| t <= u < n ==> #[trigger] self.tasks@[u] == before.tasks@[u],
            decreases n - t,
        {
            self.tasks[t].task_status = TaskStatus::Zombie;
            self.tasks[t].wait = WaitReason::Nothing;
            self.tasks[t].pending = Pending::Nothing;
            t = t + 1;
        }
        proof {
            assert forall|reason: WaitReason|
                (#[trigger] self.queue_of(reason)).no_duplicates() && forall|i: int|
                    0 <= i < self.queue_of(reason).len() ==> self.waits_for(
                        #[trigger] self.queue_of(reason)[i],
                        reason,
                    ) by {
                assert(self.queue_of(reason) =~= Seq::<usize>::empty());
            }
            assert forall|u: int| 0 <= u < self.tasks@.len() implies (#[trigger] self.tasks@[u]).wf() by {
                assert(before.tasks@[u].wf());
            }
        }
    }

    /// Whether `self` is `before` with one more thread, `task`, which has
    /// the next number and a row of its own in the detector.
    pub open spec fn thread_added_from(&self, before: Self, task: TaskControlBlock) -> bool {
        &&& self.same_but_sync(before)
        &&& self.mutex_list == before.mutex_list
        &&& self.semaphore_list == before.semaphore_list
        &&& self.condvar_list == before.condvar_list
        &&& self.deadlocked == before.deadlocked
        &&& self.tasks@ == before.tasks@.push(task)
        &&& self.detector@ == before.detector@.with_thread(before.tasks@.len() as usize)
    }

    /// Adds a thread to the process, and returns its number.
    pub fn add_thread(&mut self, task: TaskControlBlock) -> (tid: usize)
        requires
            old(self).wf(),
            old(self).tasks@.len() < isize::MAX,
            task.wf(),
        ensures
            final(self).wf(),
            tid == old(self).tasks@.len(),
            final(self).thread_added_from(*old(self), task),
    {
        let ghost before = *self;
        let tid: usize = self.tasks.len();
        self.detector.addthread(tid);
        self.tasks.push(task);
        proof {
            assert forall|reason: WaitReason|
                (#[trigger] self.queue_of(reason)).no_duplicates() && forall|i: int|
                    0 <= i < self.queue_of(reason).len() ==> self.waits_for(
                        #[trigger] self.queue_of(reason)[i],
                        reason,
                    ) by {
                assert(self.queue_of(reason) == before.queue_of(reason));
                assert forall|i: int| 0 <= i < self.queue_of(reason).len() implies self.waits_for(
                    #[trigger] self.queue_of(reason)[i],
                    reason,
                ) by {
                    assert(before.waits_for(before.queue_of(reason)[i], reason));
                }
            }
            assert forall|t: int| 0 <= t < self.tasks@.len() implies (#[trigger] self.tasks@[t]).wf() by {
                if t < before.tasks@.len() {
                    assert(before.tasks@[t].wf());
                }
            }
            assert forall|t: int| 0 <= t < self.detector@.tid_list.len() implies #[trigger] self.detector@.tid_list[t]
                == t by {
                if t < before.detector@.tid_list.len() {
                    assert(before.detector@.tid_list[t] == t);
                }
            }
            assert forall|id: int| self.has_mutex(id) implies (#[trigger] self.mutex_list@[id]).unwrap().res_id
                < self.detector@.resources() by {
                assert(before.has_mutex(id));
            }
            assert forall|id: int| self.has_semaphore(id) implies (
            #[trigger] self.semaphore_list@[id]).unwrap().res_id < self.detector@.resources()
                && self.semaphore_list@[id].unwrap().sem.wf() by {
                assert(before.has_semaphore(id));
            }
        }
        tid
    }

    /// The threads that are blocked in a lock call on mutex `id`.
    pub open spec fn lockers(&self, id: usize) -> Set<usize> {
        Set::new(|tid: usize| self.waits_for(tid, WaitReason::Mutex(id)))
    }

    /// No more threads wait in the queue of a mutex than are blocked in a
    /// lock call on it, and each of those in the queue is one of them.
    pub proof fn lemma_waiters_bound(&self, id: usize)
        requires
            self.wf(),
            self.has_mutex(id as int),
        ensures
            self.lockers(id).finite(),
            self.mutex_list@[id as int].unwrap().mutex.waiters().len() <= self.lockers(id).len(),
            forall|i: int|
                0 <= i < self.mutex_list@[id as int].unwrap().mutex.waiters().len()
                    ==> self.lockers(id).contains(
                    #[trigger] self.mutex_list@[id as int].unwrap().mutex.waiters()[i],
                ),
    {
        let reason = WaitReason::Mutex(id);
        let waiters = self.mutex_list@[id as int].unwrap().mutex.waiters();
        assert(self.queue_of(reason) == waiters);
        assert(waiters.no_duplicates());
        let n = self.tasks@.len() as int;
        let all = Set::new(|tid: usize| tid < n);
        lemma_below_finite(n as nat);
        assert(self.lockers(id).subset_of(all));
        vstd::set_lib::lemma_len_subset(self.lockers(id), all);
        waiters.unique_seq_to_set();
        assert(waiters.to_set().subset_of(self.lockers(id))) by {
            assert forall|tid: usize| waiters.to_set().contains(tid) implies self.lockers(id).contains(
                tid,
            ) by {
                let i = choose|i: int| 0 <= i < waiters.len() && waiters[i] == tid;
                assert(self.waits_for(self.queue_of(reason)[i], reason));
            }
        }
        vstd::set_lib::lemma_len_subset(waiters.to_set(), self.lockers(id));
        assert forall|i: int| 0 <= i < waiters.len() implies self.lockers(id).contains(
            #[trigger] waiters[i],
        ) by {
            assert(self.waits_for(self.queue_of(reason)[i], reason));
        }
    }
}

/// The numbers below `n` are finitely many: `n` of them.
pub proof fn lemma_below_finite(n: nat)
    ensures
        Set::new(|k: usize| k < n).finite(),
        n <= usize::MAX + 1 ==> Set::new(|k: usize| k < n).len() == n,
    decreases n,
{
    let s = Set::new(|k: usize| k < n);
    if n == 0 {
        assert(s =~= Set::<usize>::empty());
    } else {
        lemma_below_finite((n - 1) as nat);
        let t = Set::new(|k: usize| k < n - 1);
        if n <= usize::MAX + 1 {
            assert(s =~= t.insert((n - 1) as usize));
        } else {
            assert(s =~= t);
        }
    }
}

} // verus!

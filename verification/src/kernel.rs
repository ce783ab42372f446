//! The kernel state: the frames, the processes, the ready queue and the
//! task that runs, the timers, the filesystem and the open files.

use vstd::prelude::*;
use std::collections::VecDeque;
use crate::fs::file::OSInode;
use crate::fs::inode::FileSystem;
use crate::mm::frame_allocator::FrameAllocator;
use crate::loader::AppImage;
use crate::mm::memory_set::MemorySet;
use crate::task::process::ProcessControlBlock;
use crate::task::task::{TaskContext, TaskControlBlock, TaskId, TaskStatus, WaitReason};

verus! {

/// The status of a task and what it waits for.
pub type TaskState = (TaskStatus, WaitReason);

/// The states of all tasks, by process and by number in the process; a
/// process that does not exist has `None`.
pub type States = Seq<Option<Seq<TaskState>>>;

/// A pending wake-up: a task and the time, in milliseconds, at which it is
/// to be woken.
#[derive(Clone, Copy, Debug)]
pub struct TimerEntry {
    /// When the task is to be woken.
    pub expire_ms: usize,
    /// The task.
    pub task: TaskId,
}

/// The first application at or after `from` with the given name.
pub open spec fn app_from(apps: Seq<AppImage>, name: Seq<u8>, from: int) -> Option<int>
    decreases apps.len() - from,
{
    if from < 0 || from >= apps.len() {
        None
    } else if apps[from].name@ == name {
        Some(from)
    } else {
        app_from(apps, name, from + 1)
    }
}

/// Whether `id` names a task that exists.
pub open spec fn task_live(states: States, id: TaskId) -> bool {
    &&& id.pid < states.len()
    &&& states[id.pid as int].is_some()
    &&& id.tid < states[id.pid as int].unwrap().len()
}

/// The state of task `id`.
pub open spec fn state_of(states: States, id: TaskId) -> TaskState {
    states[id.pid as int].unwrap()[id.tid as int]
}

/// The ready queue and the running task are in order: every task in the
/// queue exists, is ready, and is there once; the task that runs exists and
/// is the only one whose status is running.
pub open spec fn sched_ok(ready: Seq<TaskId>, current: Option<TaskId>, states: States) -> bool {
    &&& ready.no_duplicates()
    &&& forall|i: int|
        0 <= i < ready.len() ==> task_live(states, #[trigger] ready[i]) && state_of(
            states,
            ready[i],
        ).0 is Ready
    &&& current.is_some() ==> task_live(states, current.unwrap()) && state_of(
        states,
        current.unwrap(),
    ).0 is Running
    &&& forall|id: TaskId|
        task_live(states, id) && (#[trigger] state_of(states, id)).0 is Running ==> current
            == Some(id)
}

/// The timers are in order: every task with a timer exists, is blocked and
/// waits for its timer; no task has two; the timers are sorted by time.
pub open spec fn timers_ok(timers: Seq<TimerEntry>, states: States) -> bool {
    &&& forall|i: int|
        0 <= i < timers.len() ==> task_live(states, (#[trigger] timers[i]).task) && state_of(
            states,
            timers[i].task,
        ).0 is Blocked && state_of(states, timers[i].task).1 is Timer
    &&& forall|i: int, j: int|
        0 <= i < timers.len() && 0 <= j < timers.len() && i != j ==> (#[trigger] timers[i]).task != (
        #[trigger] timers[j]).task
    &&& forall|i: int, j: int|
        0 <= i < j < timers.len() ==> (#[trigger] timers[i]).expire_ms <= (
        #[trigger] timers[j]).expire_ms
}

/// Whether `after` is `before` with the state of the one task `id` changed
/// to `state`.
pub open spec fn states_changed_at(after: States, before: States, id: TaskId, state: TaskState) -> bool {
    &&& task_live(before, id)
    &&& after == before.update(
        id.pid as int,
        Some(before[id.pid as int].unwrap().update(id.tid as int, state)),
    )
}

/// A task that is not ready may change its state to anything but running:
/// the queue stays in order, and nobody runs where it was the one that ran.
pub proof fn lemma_sched_change(
    ready: Seq<TaskId>,
    current: Option<TaskId>,
    before: States,
    after: States,
    id: TaskId,
    state: TaskState,
)
    requires
        sched_ok(ready, current, before),
        states_changed_at(after, before, id, state),
        !(state_of(before, id).0 is Ready),
        !(state.0 is Running),
    ensures
        sched_ok(
            ready,
            if current == Some(id) {
                None
            } else {
                current
            },
            after,
        ),
{
    assert forall|other: TaskId| other != id implies task_live(after, other) == task_live(
        before,
        other,
    ) && (task_live(before, other) ==> state_of(after, other) == state_of(before, other)) by {}
    assert forall|i: int| 0 <= i < ready.len() implies task_live(after, #[trigger] ready[i])
        && state_of(after, ready[i]).0 is Ready by {
        assert(task_live(before, ready[i]) && state_of(before, ready[i]).0 is Ready);
    }
    assert forall|other: TaskId|
        task_live(after, other) && (#[trigger] state_of(after, other)).0 is Running implies (
    if current == Some(id) {
        None
    } else {
        current
    }) == Some(other) by {
        assert(other != id);
        assert(state_of(before, other).0 is Running);
    }
}

/// A task that is blocked may become ready: the queue stays in order.
pub proof fn lemma_sched_wake(
    ready: Seq<TaskId>,
    current: Option<TaskId>,
    before: States,
    after: States,
    id: TaskId,
    state: TaskState,
)
    requires
        sched_ok(ready, current, before),
        states_changed_at(after, before, id, state),
        state_of(before, id).0 is Blocked,
        !(state.0 is Running),
    ensures
        sched_ok(ready, current, after),
        !ready.contains(id),
{
    lemma_sched_change(ready, current, before, after, id, state);
    if ready.contains(id) {
        let i = choose|i: int| 0 <= i < ready.len() && ready[i] == id;
        assert(state_of(before, ready[i]).0 is Ready);
    }
}

/// A ready task that is not in the queue may join its end.
pub proof fn lemma_sched_push(ready: Seq<TaskId>, current: Option<TaskId>, states: States, id: TaskId)
    requires
        sched_ok(ready, current, states),
        task_live(states, id),
        state_of(states, id).0 is Ready,
        !ready.contains(id),
    ensures
        sched_ok(ready.push(id), current, states),
{
    let grown = ready.push(id);
    assert forall|a: int, b: int| 0 <= a < grown.len() && 0 <= b < grown.len() && a != b implies grown[a]
        != grown[b] by {
        if a == ready.len() {
            assert(ready.contains(ready[b]));
        } else if b == ready.len() {
            assert(ready.contains(ready[a]));
        }
    }
}

/// While nobody runs, the first task of the queue may leave it and run.
pub proof fn lemma_sched_pop(ready: Seq<TaskId>, before: States, after: States, state: TaskState)
    requires
        sched_ok(ready, None, before),
        ready.len() > 0,
        states_changed_at(after, before, ready[0], state),
        state.0 is Running,
    ensures
        sched_ok(ready.drop_first(), Some(ready[0]), after),
{
    let id = ready[0];
    let rest = ready.drop_first();
    assert(task_live(before, ready[0]));
    assert forall|other: TaskId| other != id implies task_live(after, other) == task_live(
        before,
        other,
    ) && (task_live(before, other) ==> state_of(after, other) == state_of(before, other)) by {}
    assert forall|i: int| 0 <= i < rest.len() implies task_live(after, #[trigger] rest[i])
        && state_of(after, rest[i]).0 is Ready by {
        assert(rest[i] == ready[i + 1]);
        assert(ready[i + 1] != ready[0]);
        assert(task_live(before, ready[i + 1]) && state_of(before, ready[i + 1]).0 is Ready);
    }
    assert forall|a: int, b: int| 0 <= a < rest.len() && 0 <= b < rest.len() && a != b implies rest[a]
        != rest[b] by {
        assert(ready[a + 1] != ready[b + 1]);
    }
    assert forall|other: TaskId|
        task_live(after, other) && (#[trigger] state_of(after, other)).0 is Running implies Some(id)
        == Some(other) by {
        if other != id {
            assert(state_of(before, other).0 is Running);
        }
    }
}

/// A task that has no timer may change its state: the timers stay in
/// order.
pub proof fn lemma_timers_change(
    timers: Seq<TimerEntry>,
    before: States,
    after: States,
    id: TaskId,
    state: TaskState,
)
    requires
        timers_ok(timers, before),
        states_changed_at(after, before, id, state),
        !(state_of(before, id).0 is Blocked && state_of(before, id).1 is Timer),
    ensures
        timers_ok(timers, after),
{
    assert forall|i: int| 0 <= i < timers.len() implies task_live(after, (#[trigger] timers[i]).task)
        && state_of(after, timers[i].task).0 is Blocked && state_of(after, timers[i].task).1 is Timer by {
        assert(task_live(before, timers[i].task));
        assert(timers[i].task != id);
    }
}

/// The kernel state.
pub struct Kernel {
    /// The physical frames.
    pub frames: FrameAllocator,
    /// The processes, by process id; a slot is empty before its process is
    /// created and after it is reaped.
    pub procs: Vec<Option<ProcessControlBlock>>,
    /// The tasks that are ready to run, first come first.
    pub ready_queue: VecDeque<TaskId>,
    /// The task that runs.
    pub current: Option<TaskId>,
    /// The pending wake-ups, sorted by time.
    pub timers: Vec<TimerEntry>,
    /// The clock, in microseconds.
    pub now_us: usize,
    /// The filesystem.
    pub fs: FileSystem,
    /// The open files, which descriptors refer to by their place here.
    pub files: Vec<OSInode>,
    /// The applications that can be loaded.
    pub apps: Vec<AppImage>,
}

impl Kernel {
    /// Whether a process with id `pid` exists.
    pub open spec fn live_proc(&self, pid: int) -> bool {
        0 <= pid < self.procs@.len() && self.procs@[pid].is_some()
    }

    /// The process with id `pid`.
    pub open spec fn proc(&self, pid: int) -> ProcessControlBlock {
        self.procs@[pid].unwrap()
    }

    /// Whether `id` names a task that exists.
    pub open spec fn live(&self, id: TaskId) -> bool {
        self.live_proc(id.pid as int) && id.tid < self.proc(id.pid as int).tasks@.len()
    }

    /// The task `id`.
    pub open spec fn task(&self, id: TaskId) -> TaskControlBlock {
        self.proc(id.pid as int).tasks@[id.tid as int]
    }

    /// The states of all tasks.
    pub open spec fn states(&self) -> States {
        Seq::new(
            self.procs@.len(),
            |pid: int|
                match self.procs@[pid] {
                    Some(p) => Some(
                        Seq::new(
                            p.tasks@.len(),
                            |t: int| (p.tasks@[t].task_status, p.tasks@[t].wait),
                        ),
                    ),
                    None => None,
                },
        )
    }

    /// The address spaces of all processes.
    pub open spec fn memory_sets(&self) -> Seq<Option<MemorySet>> {
        Seq::new(
            self.procs@.len(),
            |pid: int|
                match self.procs@[pid] {
                    Some(p) => Some(p.memory_set),
                    None => None,
                },
        )
    }

    /// The descriptor tables of all processes.
    pub open spec fn fd_tables(&self) -> Seq<Option<Seq<Option<usize>>>> {
        Seq::new(
            self.procs@.len(),
            |pid: int|
                match self.procs@[pid] {
                    Some(p) => Some(p.fd_table@),
                    None => None,
                },
        )
    }

    /// The children of all processes.
    pub open spec fn families(&self) -> Seq<Option<(Option<usize>, Seq<usize>)>> {
        Seq::new(
            self.procs@.len(),
            |pid: int|
                match self.procs@[pid] {
                    Some(p) => Some((p.parent, p.children@)),
                    None => None,
                },
        )
    }

    /// Every process is well-formed and knows its id.
    pub open spec fn procs_ok(&self) -> bool {
        forall|pid: int|
            self.live_proc(pid) ==> (#[trigger] self.proc(pid)).wf() && self.proc(pid).pid == pid
    }
}

/// The address spaces are in order: each is well-formed, its frames are
/// handed out by the allocator, and no frame belongs to two of them.
pub open spec fn mem_ok(frames: FrameAllocator, sets: Seq<Option<MemorySet>>) -> bool {
    &&& frames.wf()
    &&& forall|pid: int|
        0 <= pid < sets.len() && (#[trigger] sets[pid]).is_some() ==> sets[pid].unwrap().wf()
            && sets[pid].unwrap().frames_allocated(frames)
    &&& forall|p: int, q: int, ppn: usize|
        0 <= p < sets.len() && 0 <= q < sets.len() && p != q && sets[p].is_some()
            && sets[q].is_some() && #[trigger] sets[p].unwrap().owns(ppn) ==> !(
        #[trigger] sets[q].unwrap().owns(ppn))
}

/// The open files are in order: every descriptor in use names an open
/// file, and every open file an inode.
pub open spec fn files_ok(
    tables: Seq<Option<Seq<Option<usize>>>>,
    files: Seq<OSInode>,
    fs: FileSystem,
) -> bool {
    &&& fs.wf()
    &&& forall|h: int| 0 <= h < files.len() ==> 1 <= (#[trigger] files[h]).inode_id < fs.inode_count()
    &&& forall|pid: int, fd: int|
        0 <= pid < tables.len() && tables[pid].is_some() && 0 <= fd < tables[pid].unwrap().len() && (
        #[trigger] tables[pid].unwrap()[fd]).is_some() ==> tables[pid].unwrap()[fd].unwrap()
            < files.len()
}

/// The families are in order: every child of a process exists, has the
/// process as its parent, and is listed once.
pub open spec fn tree_ok(families: Seq<Option<(Option<usize>, Seq<usize>)>>) -> bool {
    forall|pid: int|
        0 <= pid < families.len() && (#[trigger] families[pid]).is_some() ==> {
            let children = families[pid].unwrap().1;
            &&& children.no_duplicates()
            &&& forall|i: int|
                0 <= i < children.len() ==> {
                    let c = #[trigger] children[i];
                    &&& c < families.len()
                    &&& c != pid
                    &&& families[c as int].is_some()
                    &&& families[c as int].unwrap().0 == Some(pid as usize)
                }
        }
}

/// A step of one address space that conserves frames keeps all address
/// spaces in order.
pub proof fn lemma_mem_step(
    frames0: FrameAllocator,
    sets0: Seq<Option<MemorySet>>,
    frames1: FrameAllocator,
    sets1: Seq<Option<MemorySet>>,
    pid: int,
)
    requires
        mem_ok(frames0, sets0),
        0 <= pid < sets0.len(),
        sets0[pid].is_some(),
        sets1.len() == sets0.len(),
        sets1[pid].is_some(),
        forall|q: int| 0 <= q < sets0.len() && q != pid ==> sets1[q] == sets0[q],
        frames1.wf(),
        sets1[pid].unwrap().wf(),
        sets1[pid].unwrap().frames_allocated(frames1),
        sets1[pid].unwrap().conserves(sets0[pid].unwrap(), frames1, frames0),
    ensures
        mem_ok(frames1, sets1),
{
    let ms0 = sets0[pid].unwrap();
    let ms1 = sets1[pid].unwrap();
    frames0.lemma_wf();
    frames1.lemma_wf();
    assert forall|q: int| 0 <= q < sets1.len() && (#[trigger] sets1[q]).is_some() implies sets1[q].unwrap().wf()
        && sets1[q].unwrap().frames_allocated(frames1) by {
        if q != pid {
            assert(sets0[q].is_some());
            let other = sets0[q].unwrap();
            assert forall|ppn: usize| #[trigger] other.owns(ppn) implies frames1.is_allocated(ppn) by {
                assert(frames0.is_allocated(ppn));
                assert(!ms0.owns(ppn));
                assert(ms1.owns(ppn) || frames1.is_free(ppn) <==> ms0.owns(ppn) || frames0.is_free(
                    ppn,
                ));
            }
        }
    }
    assert forall|p: int, q: int, ppn: usize|
        0 <= p < sets1.len() && 0 <= q < sets1.len() && p != q && sets1[p].is_some()
            && sets1[q].is_some() && #[trigger] sets1[p].unwrap().owns(ppn) implies !(
    #[trigger] sets1[q].unwrap().owns(ppn)) by {
        if p == pid {
            if sets1[q].unwrap().owns(ppn) {
                assert(sets0[q].unwrap().owns(ppn));
                assert(frames0.is_allocated(ppn));
                assert(ms1.owns(ppn) || frames1.is_free(ppn) <==> ms0.owns(ppn) || frames0.is_free(
                    ppn,
                ));
                assert(ms0.owns(ppn));
            }
        } else if q == pid {
            if ms1.owns(ppn) {
                assert(sets0[p].unwrap().owns(ppn));
                assert(frames0.is_allocated(ppn));
                assert(ms1.owns(ppn) || frames1.is_free(ppn) <==> ms0.owns(ppn) || frames0.is_free(
                    ppn,
                ));
                assert(ms0.owns(ppn));
            }
        } else {
            assert(sets0[p].unwrap().owns(ppn));
        }
    }
}

/// Writing to frames leaves the address spaces in order: which frames are
/// free does not change.
pub proof fn lemma_mem_same_frames(
    frames0: FrameAllocator,
    frames1: FrameAllocator,
    sets: Seq<Option<MemorySet>>,
)
    requires
        mem_ok(frames0, sets),
        frames1.wf(),
        frames1.same_frames(frames0),
    ensures
        mem_ok(frames1, sets),
{
    assert forall|q: int| 0 <= q < sets.len() && (#[trigger] sets[q]).is_some() implies sets[q].unwrap().wf()
        && sets[q].unwrap().frames_allocated(frames1) by {
        let ms = sets[q].unwrap();
        assert forall|ppn: usize| #[trigger] ms.owns(ppn) implies frames1.is_allocated(ppn) by {
            assert(frames0.is_allocated(ppn));
        }
    }
}

/// A filesystem that stays well-formed and loses no inode leaves the open
/// files in order.
pub proof fn lemma_files_fs(
    tables: Seq<Option<Seq<Option<usize>>>>,
    files: Seq<OSInode>,
    before: FileSystem,
    after: FileSystem,
)
    requires
        files_ok(tables, files, before),
        after.wf(),
        after.inode_count() >= before.inode_count(),
    ensures
        files_ok(tables, files, after),
{
}

/// A change to the open files and to the descriptor table of one process
/// leaves the open files in order where every open file still names an
/// inode and every descriptor of the process an open file.
pub proof fn lemma_files_table(
    tables0: Seq<Option<Seq<Option<usize>>>>,
    tables1: Seq<Option<Seq<Option<usize>>>>,
    files0: Seq<OSInode>,
    files1: Seq<OSInode>,
    fs: FileSystem,
    pid: int,
)
    requires
        files_ok(tables0, files0, fs),
        files1.len() >= files0.len(),
        forall|h: int| 0 <= h < files1.len() ==> 1 <= (#[trigger] files1[h]).inode_id < fs.inode_count(),
        tables1.len() == tables0.len(),
        0 <= pid < tables0.len(),
        forall|q: int| 0 <= q < tables0.len() && q != pid ==> tables1[q] == tables0[q],
        tables1[pid].is_some() ==> forall|fd: int|
            0 <= fd < tables1[pid].unwrap().len() && (#[trigger] tables1[pid].unwrap()[fd]).is_some()
                ==> tables1[pid].unwrap()[fd].unwrap() < files1.len(),
    ensures
        files_ok(tables1, files1, fs),
{
    assert forall|q: int, fd: int|
        0 <= q < tables1.len() && tables1[q].is_some() && 0 <= fd < tables1[q].unwrap().len() && (
        #[trigger] tables1[q].unwrap()[fd]).is_some() implies tables1[q].unwrap()[fd].unwrap()
        < files1.len() by {
        if q != pid {
            assert(tables0[q].unwrap()[fd].is_some());
        }
    }
}

/// A new address space made of free frames leaves the others in order, and
/// is in order with them.
pub proof fn lemma_mem_birth(
    frames0: FrameAllocator,
    sets0: Seq<Option<MemorySet>>,
    frames1: FrameAllocator,
    ms: MemorySet,
)
    requires
        mem_ok(frames0, sets0),
        frames1.wf(),
        ms.wf(),
        ms.frames_allocated(frames1),
        ms.born_from(frames1, frames0),
    ensures
        mem_ok(frames1, sets0),
        mem_ok(frames1, sets0.push(Some(ms))),
        forall|q: int, ppn: usize|
            0 <= q < sets0.len() && sets0[q].is_some() && #[trigger] sets0[q].unwrap().owns(ppn)
                ==> !ms.owns(ppn),
{
    frames0.lemma_wf();
    frames1.lemma_wf();
    let sets1 = sets0.push(Some(ms));
    assert forall|q: int, ppn: usize|
        0 <= q < sets0.len() && sets0[q].is_some() && #[trigger] sets0[q].unwrap().owns(
            ppn,
        ) implies !ms.owns(ppn) && frames1.is_allocated(ppn) by {
        assert(frames0.is_allocated(ppn));
        assert(ms.owns(ppn) || frames1.is_free(ppn) <==> frames0.is_free(ppn));
    }
    assert forall|q: int| 0 <= q < sets0.len() && (#[trigger] sets0[q]).is_some() implies sets0[q].unwrap().wf()
        && sets0[q].unwrap().frames_allocated(frames1) by {
        let other = sets0[q].unwrap();
        assert forall|ppn: usize| #[trigger] other.owns(ppn) implies frames1.is_allocated(ppn) by {
            assert(sets0[q].unwrap().owns(ppn));
        }
    }
    assert forall|q: int| 0 <= q < sets1.len() && (#[trigger] sets1[q]).is_some() implies sets1[q].unwrap().wf()
        && sets1[q].unwrap().frames_allocated(frames1) by {
        if q < sets0.len() {
            assert(sets0[q].is_some());
        }
    }
    assert forall|p: int, q: int, ppn: usize|
        0 <= p < sets1.len() && 0 <= q < sets1.len() && p != q && sets1[p].is_some()
            && sets1[q].is_some() && #[trigger] sets1[p].unwrap().owns(ppn) implies !(
    #[trigger] sets1[q].unwrap().owns(ppn)) by {
        if p < sets0.len() && q < sets0.len() {
            assert(sets0[p].unwrap().owns(ppn));
        } else if p < sets0.len() {
            assert(sets0[p].unwrap().owns(ppn));
        } else {
            if sets1[q].unwrap().owns(ppn) {
                assert(sets0[q].unwrap().owns(ppn));
            }
        }
    }
}

/// One more process, none of whose tasks runs, leaves the schedule and
/// the timers in order.
pub proof fn lemma_states_grow(
    ready: Seq<TaskId>,
    current: Option<TaskId>,
    timers: Seq<TimerEntry>,
    states: States,
    tasks: Seq<TaskState>,
)
    requires
        sched_ok(ready, current, states),
        timers_ok(timers, states),
        forall|t: int| 0 <= t < tasks.len() ==> !((#[trigger] tasks[t]).0 is Running),
    ensures
        sched_ok(ready, current, states.push(Some(tasks))),
        timers_ok(timers, states.push(Some(tasks))),
{
    let grown = states.push(Some(tasks));
    assert forall|id: TaskId| task_live(states, id) implies task_live(grown, id) && state_of(
        grown,
        id,
    ) == state_of(states, id) by {}
    assert forall|i: int| 0 <= i < ready.len() implies task_live(grown, #[trigger] ready[i])
        && state_of(grown, ready[i]).0 is Ready by {
        assert(task_live(states, ready[i]));
    }
    assert forall|id: TaskId|
        task_live(grown, id) && (#[trigger] state_of(grown, id)).0 is Running implies current
        == Some(id) by {
        if id.pid < states.len() {
            assert(task_live(states, id));
            assert(state_of(states, id).0 is Running);
        }
    }
    assert forall|i: int| 0 <= i < timers.len() implies task_live(grown, (#[trigger] timers[i]).task)
        && state_of(grown, timers[i].task).0 is Blocked && state_of(grown, timers[i].task).1 is Timer by {
        assert(task_live(states, timers[i].task));
    }
}

/// The process ids of a list but for 0, in their order.
pub open spec fn nonzero(pids: Seq<usize>) -> Seq<usize>
    decreases pids.len(),
{
    if pids.len() == 0 {
        Seq::empty()
    } else if pids.last() == 0 {
        nonzero(pids.drop_last())
    } else {
        nonzero(pids.drop_last()).push(pids.last())
    }
}

/// The queue without the tasks of process `pid`, the others in their order.
pub open spec fn without_pid(queue: Seq<TaskId>, pid: usize) -> Seq<TaskId>
    decreases queue.len(),
{
    if queue.len() == 0 {
        Seq::empty()
    } else if queue.last().pid == pid {
        without_pid(queue.drop_last(), pid)
    } else {
        without_pid(queue.drop_last(), pid).push(queue.last())
    }
}

/// The timers without those of the tasks of process `pid`, the others in
/// their order.
pub open spec fn timers_without(timers: Seq<TimerEntry>, pid: usize) -> Seq<TimerEntry>
    decreases timers.len(),
{
    if timers.len() == 0 {
        Seq::empty()
    } else if timers.last().task.pid == pid {
        timers_without(timers.drop_last(), pid)
    } else {
        timers_without(timers.drop_last(), pid).push(timers.last())
    }
}

/// What is left of a queue without a process: the tasks of the others,
/// each once where it was there once.
pub proof fn lemma_without_pid(queue: Seq<TaskId>, pid: usize)
    ensures
        forall|id: TaskId| #[trigger]
            without_pid(queue, pid).contains(id) <==> queue.contains(id) && id.pid != pid,
        queue.no_duplicates() ==> without_pid(queue, pid).no_duplicates(),
        without_pid(queue, pid).len() <= queue.len(),
    decreases queue.len(),
{
    if queue.len() > 0 {
        let front = queue.drop_last();
        let last = queue.last();
        lemma_without_pid(front, pid);
        let rest = without_pid(front, pid);
        assert forall|id: TaskId| #[trigger]
            without_pid(queue, pid).contains(id) <==> queue.contains(id) && id.pid != pid by {
            if queue.contains(id) {
                let i = choose|i: int| 0 <= i < queue.len() && queue[i] == id;
                if i < front.len() {
                    assert(front[i] == id);
                    assert(front.contains(id));
                }
            }
            if front.contains(id) {
                let i = choose|i: int| 0 <= i < front.len() && front[i] == id;
                assert(queue[i] == id);
            }
            assert(queue[queue.len() - 1] == last);
            if last.pid != pid {
                let grown = rest.push(last);
                if rest.contains(id) {
                    let i = choose|i: int| 0 <= i < rest.len() && rest[i] == id;
                    assert(grown[i] == id);
                }
                assert(grown[rest.len() as int] == last);
                if grown.contains(id) {
                    let i = choose|i: int| 0 <= i < grown.len() && grown[i] == id;
                    if i < rest.len() {
                        assert(rest[i] == id);
                    }
                }
            }
        }
        if queue.no_duplicates() {
            assert(front.no_duplicates()) by {
                assert forall|a: int, b: int|
                    0 <= a < front.len() && 0 <= b < front.len() && a != b implies front[a]
                    != front[b] by {
                    assert(queue[a] != queue[b]);
                }
            }
            if last.pid != pid {
                let grown = rest.push(last);
                assert(!front.contains(last)) by {
                    if front.contains(last) {
                        let i = choose|i: int| 0 <= i < front.len() && front[i] == last;
                        assert(queue[i] != queue[queue.len() - 1]);
                    }
                }
                assert forall|a: int, b: int|
                    0 <= a < grown.len() && 0 <= b < grown.len() && a != b implies grown[a]
                    != grown[b] by {
                    if a < rest.len() && b < rest.len() {
                    } else if a < rest.len() {
                        assert(rest.contains(rest[a]));
                    } else {
                        assert(rest.contains(rest[b]));
                    }
                }
            }
        }
    }
}

/// What is left of the timers without a process: the timers of the tasks
/// of the others, in their order.
pub proof fn lemma_timers_without(timers: Seq<TimerEntry>, pid: usize)
    ensures
        forall|i: int|
            0 <= i < timers_without(timers, pid).len() ==> timers.contains(
                #[trigger] timers_without(timers, pid)[i],
            ) && timers_without(timers, pid)[i].task.pid != pid,
        timers_without(timers, pid).len() <= timers.len(),
        (forall|i: int, j: int|
            0 <= i < timers.len() && 0 <= j < timers.len() && i != j ==> (#[trigger] timers[i]).task != (
            #[trigger] timers[j]).task) ==> (forall|i: int, j: int|
            0 <= i < timers_without(timers, pid).len() && 0 <= j < timers_without(timers, pid).len()
                && i != j ==> (#[trigger] timers_without(timers, pid)[i]).task != (
            #[trigger] timers_without(timers, pid)[j]).task),
        (forall|i: int, j: int|
            0 <= i < j < timers.len() ==> (#[trigger] timers[i]).expire_ms <= (
            #[trigger] timers[j]).expire_ms) ==> (forall|i: int, j: int|
            0 <= i < j < timers_without(timers, pid).len() ==> (#[trigger] timers_without(
                timers,
                pid,
            )[i]).expire_ms <= (#[trigger] timers_without(timers, pid)[j]).expire_ms),
    decreases timers.len(),
{
    if timers.len() > 0 {
        let front = timers.drop_last();
        let last = timers.last();
        lemma_timers_without(front, pid);
        let rest = timers_without(front, pid);
        let out = timers_without(timers, pid);
        assert forall|i: int| 0 <= i < rest.len() implies timers.contains(#[trigger] rest[i]) by {
            assert(front.contains(rest[i]));
            let k = choose|k: int| 0 <= k < front.len() && front[k] == rest[i];
            assert(timers[k] == rest[i]);
        }
        assert(timers[timers.len() - 1] == last);
        assert forall|i: int| 0 <= i < out.len() implies timers.contains(#[trigger] out[i])
            && out[i].task.pid != pid by {
            if i < rest.len() {
                assert(out[i] == rest[i]);
                assert(timers.contains(rest[i]));
            }
        }
        if forall|i: int, j: int|
            0 <= i < timers.len() && 0 <= j < timers.len() && i != j ==> (#[trigger] timers[i]).task != (
            #[trigger] timers[j]).task {
            assert forall|i: int, j: int|
                0 <= i < front.len() && 0 <= j < front.len() && i != j implies (
            #[trigger] front[i]).task != (#[trigger] front[j]).task by {
                assert(timers[i].task != timers[j].task);
            }
            assert forall|i: int, j: int|
                0 <= i < out.len() && 0 <= j < out.len() && i != j implies (#[trigger] out[i]).task != (
            #[trigger] out[j]).task by {
                if i < rest.len() && j < rest.len() {
                    assert(rest[i].task != rest[j].task);
                } else if i < rest.len() {
                    let k = choose|k: int| 0 <= k < front.len() && front[k] == rest[i];
                    assert(timers[k].task != timers[timers.len() - 1].task);
                } else {
                    let k = choose|k: int| 0 <= k < front.len() && front[k] == rest[j];
                    assert(timers[k].task != timers[timers.len() - 1].task);
                }
            }
        }
        if forall|i: int, j: int|
            0 <= i < j < timers.len() ==> (#[trigger] timers[i]).expire_ms <= (
            #[trigger] timers[j]).expire_ms {
            assert forall|i: int, j: int| 0 <= i < j < front.len() implies (
            #[trigger] front[i]).expire_ms <= (#[trigger] front[j]).expire_ms by {
                assert(timers[i].expire_ms <= timers[j].expire_ms);
            }
            assert forall|i: int, j: int| 0 <= i < j < out.len() implies (#[trigger] out[i]).expire_ms <= (
            #[trigger] out[j]).expire_ms by {
                if j < rest.len() {
                    assert(rest[i].expire_ms <= rest[j].expire_ms);
                } else {
                    let k = choose|k: int| 0 <= k < front.len() && front[k] == rest[i];
                    assert(timers[k].expire_ms <= timers[timers.len() - 1].expire_ms);
                }
            }
        }
    }
}

/// When the process of the task that runs ends, with none of its tasks
/// left ready, running or blocked on a timer, the schedule and the timers
/// are in order without the tasks of the process, and nobody runs.
pub proof fn lemma_sched_exit(
    ready: Seq<TaskId>,
    current: Option<TaskId>,
    timers: Seq<TimerEntry>,
    before: States,
    after: States,
    pid: usize,
)
    requires
        sched_ok(ready, current, before),
        timers_ok(timers, before),
        current.is_some(),
        current.unwrap().pid == pid,
        after.len() == before.len(),
        forall|q: int| 0 <= q < before.len() && q != pid ==> after[q] == before[q],
        after[pid as int].is_some(),
        forall|t: int|
            0 <= t < after[pid as int].unwrap().len() ==> (#[trigger] after[pid as int].unwrap()[t]).0 is Zombie,
    ensures
        sched_ok(without_pid(ready, pid), None, after),
        timers_ok(timers_without(timers, pid), after),
{
    lemma_without_pid(ready, pid);
    lemma_timers_without(timers, pid);
    let queue = without_pid(ready, pid);
    let left = timers_without(timers, pid);
    assert forall|i: int| 0 <= i < queue.len() implies task_live(after, #[trigger] queue[i])
        && state_of(after, queue[i]).0 is Ready by {
        assert(queue.contains(queue[i]));
        assert(ready.contains(queue[i]));
        let k = choose|k: int| 0 <= k < ready.len() && ready[k] == queue[i];
        assert(task_live(before, ready[k]));
    }
    assert forall|id: TaskId|
        task_live(after, id) && (#[trigger] state_of(after, id)).0 is Running implies None::<TaskId>
        == Some(id) by {
        if id.pid != pid {
            assert(task_live(before, id));
            assert(state_of(before, id).0 is Running);
        }
    }
    assert forall|i: int| 0 <= i < left.len() implies task_live(after, (#[trigger] left[i]).task)
        && state_of(after, left[i].task).0 is Blocked && state_of(after, left[i].task).1 is Timer by {
        assert(timers.contains(left[i]));
        let k = choose|k: int| 0 <= k < timers.len() && timers[k] == left[i];
        assert(task_live(before, timers[k].task));
    }
}

/// An address space that goes, its frames handed back, leaves the others
/// in order.
pub proof fn lemma_mem_death(
    frames0: FrameAllocator,
    sets0: Seq<Option<MemorySet>>,
    frames1: FrameAllocator,
    pid: int,
)
    requires
        mem_ok(frames0, sets0),
        0 <= pid < sets0.len(),
        sets0[pid].is_some(),
        frames1.wf(),
        frames1.base() == frames0.base(),
        frames1.end() == frames0.end(),
        forall|p: usize|
            #[trigger] frames1.is_free(p) <==> frames0.is_free(p) || sets0[pid].unwrap().owns(p),
    ensures
        mem_ok(frames1, sets0.update(pid, None)),
{
    let sets1 = sets0.update(pid, None);
    frames0.lemma_wf();
    frames1.lemma_wf();
    assert forall|q: int| 0 <= q < sets1.len() && (#[trigger] sets1[q]).is_some() implies sets1[q].unwrap().wf()
        && sets1[q].unwrap().frames_allocated(frames1) by {
        assert(sets0[q].is_some());
        let other = sets0[q].unwrap();
        assert forall|ppn: usize| #[trigger] other.owns(ppn) implies frames1.is_allocated(ppn) by {
            assert(frames0.is_allocated(ppn));
            assert(sets0[q].unwrap().owns(ppn));
            assert(!sets0[pid].unwrap().owns(ppn));
        }
    }
    assert forall|p: int, q: int, ppn: usize|
        0 <= p < sets1.len() && 0 <= q < sets1.len() && p != q && sets1[p].is_some()
            && sets1[q].is_some() && #[trigger] sets1[p].unwrap().owns(ppn) implies !(
    #[trigger] sets1[q].unwrap().owns(ppn)) by {
        assert(sets0[p].unwrap().owns(ppn));
    }
}

/// A new address space made of free frames may take the place of one
/// that goes, its frames handed back: the address spaces stay in order.
pub proof fn lemma_mem_replace(
    frames0: FrameAllocator,
    sets0: Seq<Option<MemorySet>>,
    frames1: FrameAllocator,
    frames2: FrameAllocator,
    fresh: MemorySet,
    pid: int,
)
    requires
        mem_ok(frames0, sets0),
        0 <= pid < sets0.len(),
        sets0[pid].is_some(),
        frames1.wf(),
        fresh.wf(),
        fresh.frames_allocated(frames1),
        fresh.born_from(frames1, frames0),
        frames2.wf(),
        frames2.base() == frames1.base(),
        frames2.end() == frames1.end(),
        forall|p: usize|
            #[trigger] frames2.is_free(p) <==> frames1.is_free(p) || sets0[pid].unwrap().owns(p),
    ensures
        mem_ok(frames2, sets0.update(pid, Some(fresh))),
{
    let sets2 = sets0.update(pid, Some(fresh));
    let gone = sets0[pid].unwrap();
    frames0.lemma_wf();
    frames1.lemma_wf();
    frames2.lemma_wf();
    lemma_mem_birth(frames0, sets0, frames1, fresh);
    assert forall|ppn: usize| #[trigger] fresh.owns(ppn) implies frames2.is_allocated(ppn)
        && !gone.owns(ppn) by {
        assert(frames1.is_allocated(ppn));
        if gone.owns(ppn) {
            assert(sets0[pid].unwrap().owns(ppn));
        }
    }
    assert forall|q: int| 0 <= q < sets2.len() && (#[trigger] sets2[q]).is_some() implies sets2[q].unwrap().wf()
        && sets2[q].unwrap().frames_allocated(frames2) by {
        if q != pid {
            assert(sets0[q].is_some());
            let other = sets0[q].unwrap();
            assert forall|ppn: usize| #[trigger] other.owns(ppn) implies frames2.is_allocated(ppn) by {
                assert(sets0[q].unwrap().owns(ppn));
                assert(other.frames_allocated(frames1));
                assert(frames1.is_allocated(ppn));
                assert(!sets0[pid].unwrap().owns(ppn));
            }
        }
    }
    assert forall|p: int, q: int, ppn: usize|
        0 <= p < sets2.len() && 0 <= q < sets2.len() && p != q && sets2[p].is_some()
            && sets2[q].is_some() && #[trigger] sets2[p].unwrap().owns(ppn) implies !(
    #[trigger] sets2[q].unwrap().owns(ppn)) by {
        if p == pid {
            if sets2[q].unwrap().owns(ppn) {
                assert(sets0[q].unwrap().owns(ppn));
            }
        } else if q == pid {
            assert(sets0[p].unwrap().owns(ppn));
        } else {
            assert(sets0[p].unwrap().owns(ppn));
        }
    }
}

/// One more task in a process, which does not run, leaves the schedule
/// and the timers in order.
pub proof fn lemma_states_thread(
    ready: Seq<TaskId>,
    current: Option<TaskId>,
    timers: Seq<TimerEntry>,
    states: States,
    pid: int,
    state: TaskState,
)
    requires
        sched_ok(ready, current, states),
        timers_ok(timers, states),
        0 <= pid < states.len(),
        states[pid].is_some(),
        !(state.0 is Running),
    ensures
        sched_ok(ready, current, states.update(pid, Some(states[pid].unwrap().push(state)))),
        timers_ok(timers, states.update(pid, Some(states[pid].unwrap().push(state)))),
{
    let after = states.update(pid, Some(states[pid].unwrap().push(state)));
    assert forall|id: TaskId| task_live(states, id) implies task_live(after, id) && state_of(
        after,
        id,
    ) == state_of(states, id) by {}
    assert forall|i: int| 0 <= i < ready.len() implies task_live(after, #[trigger] ready[i])
        && state_of(after, ready[i]).0 is Ready by {
        assert(task_live(states, ready[i]));
    }
    assert forall|id: TaskId|
        task_live(after, id) && (#[trigger] state_of(after, id)).0 is Running implies current
        == Some(id) by {
        if id.pid == pid && id.tid == states[pid].unwrap().len() {
        } else {
            assert(task_live(states, id));
            assert(state_of(states, id).0 is Running);
        }
    }
    assert forall|i: int| 0 <= i < timers.len() implies task_live(after, (#[trigger] timers[i]).task)
        && state_of(after, timers[i].task).0 is Blocked && state_of(after, timers[i].task).1 is Timer by {
        assert(task_live(states, timers[i].task));
    }
}

/// The place where a timer for the time `expire_ms` goes: behind the
/// timers at or after `from` that are due no later.
pub open spec fn timer_place(timers: Seq<TimerEntry>, expire_ms: usize, from: int) -> int
    decreases timers.len() - from,
{
    if from < 0 || from >= timers.len() {
        timers.len() as int
    } else if timers[from].expire_ms > expire_ms {
        from
    } else {
        timer_place(timers, expire_ms, from + 1)
    }
}

/// Where a timer goes: after the timers due no later, before the others.
pub proof fn lemma_timer_place(timers: Seq<TimerEntry>, expire_ms: usize, from: int)
    requires
        0 <= from <= timers.len(),
    ensures
        from <= timer_place(timers, expire_ms, from) <= timers.len(),
        forall|i: int|
            from <= i < timer_place(timers, expire_ms, from) ==> (#[trigger] timers[i]).expire_ms
                <= expire_ms,
        timer_place(timers, expire_ms, from) < timers.len() ==> timers[timer_place(
            timers,
            expire_ms,
            from,
        )].expire_ms > expire_ms,
    decreases timers.len() - from,
{
    if from < timers.len() && timers[from].expire_ms <= expire_ms {
        lemma_timer_place(timers, expire_ms, from + 1);
    }
}

/// How many timers at or after `from` are due at the time `now_ms`.
pub open spec fn due_count(timers: Seq<TimerEntry>, now_ms: usize, from: int) -> int
    decreases timers.len() - from,
{
    if from < 0 || from >= timers.len() || timers[from].expire_ms > now_ms {
        0
    } else {
        1 + due_count(timers, now_ms, from + 1)
    }
}

/// The tasks of the timers.
pub open spec fn timer_tasks(timers: Seq<TimerEntry>) -> Seq<TaskId> {
    Seq::new(timers.len(), |i: int| timers[i].task)
}

/// A process all of whose tasks are zombies may go: the schedule and the
/// timers stay in order.
pub proof fn lemma_states_reap(
    ready: Seq<TaskId>,
    current: Option<TaskId>,
    timers: Seq<TimerEntry>,
    states: States,
    pid: int,
)
    requires
        sched_ok(ready, current, states),
        timers_ok(timers, states),
        0 <= pid < states.len(),
        states[pid].is_some(),
        forall|t: int|
            0 <= t < states[pid].unwrap().len() ==> (#[trigger] states[pid].unwrap()[t]).0 is Zombie,
    ensures
        sched_ok(ready, current, states.update(pid, None)),
        timers_ok(timers, states.update(pid, None)),
{
    let after = states.update(pid, None);
    assert forall|i: int| 0 <= i < ready.len() implies task_live(after, #[trigger] ready[i])
        && state_of(after, ready[i]).0 is Ready by {
        assert(task_live(states, ready[i]) && state_of(states, ready[i]).0 is Ready);
    }
    if current.is_some() {
        assert(task_live(states, current.unwrap()));
        assert(state_of(states, current.unwrap()).0 is Running);
    }
    assert forall|id: TaskId|
        task_live(after, id) && (#[trigger] state_of(after, id)).0 is Running implies current
        == Some(id) by {
        assert(task_live(states, id));
        assert(state_of(states, id).0 is Running);
    }
    assert forall|i: int| 0 <= i < timers.len() implies task_live(after, (#[trigger] timers[i]).task)
        && state_of(after, timers[i].task).0 is Blocked && state_of(after, timers[i].task).1 is Timer by {
        assert(task_live(states, timers[i].task));
        assert(state_of(states, timers[i].task).0 is Blocked);
    }
}

impl Kernel {
    /// Well-formedness of everything but the schedule.
    pub open spec fn wf_parts(&self) -> bool {
        &&& self.procs_ok()
        &&& self.live_proc(0)
        &&& self.procs@.len() <= isize::MAX
        &&& mem_ok(self.frames, self.memory_sets())
        &&& timers_ok(self.timers@, self.states())
        &&& files_ok(self.fd_tables(), self.files@, self.fs)
        &&& tree_ok(self.families())
    }

    /// Well-formedness of the kernel state.
    pub open spec fn wf(&self) -> bool {
        &&& self.wf_parts()
        &&& sched_ok(self.ready_queue@, self.current, self.states())
    }

    /// Whether a task runs, so that a system call can be made.
    pub open spec fn running(&self) -> bool {
        self.wf() && self.current.is_some()
    }

    /// The clock, in milliseconds.
    pub open spec fn now_ms(&self) -> usize {
        (self.now_us / 1000) as usize
    }

    /// Whether two kernel states agree on everything but the processes.
    pub open spec fn same_but_procs(&self, before: Self) -> bool {
        &&& self.frames == before.frames
        &&& self.ready_queue == before.ready_queue
        &&& self.current == before.current
        &&& self.timers == before.timers
        &&& self.now_us == before.now_us
        &&& self.fs == before.fs
        &&& self.files == before.files
        &&& self.apps == before.apps
        &&& self.procs@.len() == before.procs@.len()
    }

    /// Whether two kernel states have the same processes but for `pid`,
    /// which exists in both.
    pub open spec fn procs_same_but(&self, before: Self, pid: int) -> bool {
        &&& self.procs@.len() == before.procs@.len()
        &&& before.live_proc(pid)
        &&& self.live_proc(pid)
        &&& forall|q: int|
            0 <= q < self.procs@.len() && q != pid ==> #[trigger] self.procs@[q] == before.procs@[q]
    }

    /// Whether two kernel states agree on everything but one task: the
    /// other tasks of its process, and everything else of the process, are
    /// the same too.
    pub open spec fn same_but_task(&self, before: Self, id: TaskId) -> bool {
        &&& self.same_but_procs(before)
        &&& self.procs_same_but(before, id.pid as int)
        &&& self.proc(id.pid as int).same_but_tasks(before.proc(id.pid as int))
        &&& self.proc(id.pid as int).tasks_same_but(before.proc(id.pid as int), id.tid as int)
    }

    /// A change to one process that leaves the address spaces, the
    /// descriptor tables and the families alone keeps those parts in order.
    pub proof fn lemma_parts_same(&self, before: Self, pid: int)
        requires
            before.wf_parts(),
            self.frames == before.frames,
            self.fs == before.fs,
            self.files == before.files,
            self.procs_same_but(before, pid),
            self.proc(pid).memory_set == before.proc(pid).memory_set,
            self.proc(pid).fd_table == before.proc(pid).fd_table,
            self.proc(pid).parent == before.proc(pid).parent,
            self.proc(pid).children == before.proc(pid).children,
            self.proc(pid).pid == before.proc(pid).pid,
            self.proc(pid).wf(),
        ensures
            self.procs_ok(),
            self.live_proc(0),
            mem_ok(self.frames, self.memory_sets()),
            files_ok(self.fd_tables(), self.files@, self.fs),
            tree_ok(self.families()),
    {
        assert(self.memory_sets() =~= before.memory_sets());
        assert(self.fd_tables() =~= before.fd_tables());
        assert(self.families() =~= before.families());
        assert forall|q: int| self.live_proc(q) implies (#[trigger] self.proc(q)).wf() && self.proc(
            q,
        ).pid == q by {
            if q != pid {
                assert(before.live_proc(q));
                assert(before.proc(q).wf());
            } else {
                assert(before.proc(q).pid == q);
            }
        }
    }

    /// The states after a change to the one task `id`.
    pub proof fn lemma_states_changed(&self, before: Self, id: TaskId)
        requires
            before.live(id),
            self.procs_same_but(before, id.pid as int),
            self.proc(id.pid as int).tasks_same_but(before.proc(id.pid as int), id.tid as int),
        ensures
            states_changed_at(
                self.states(),
                before.states(),
                id,
                (self.task(id).task_status, self.task(id).wait),
            ),
    {
        let state = (self.task(id).task_status, self.task(id).wait);
        let want = before.states().update(
            id.pid as int,
            Some(before.states()[id.pid as int].unwrap().update(id.tid as int, state)),
        );
        assert forall|q: int| 0 <= q < self.procs@.len() implies #[trigger] self.states()[q]
            == want[q] by {
            if q == id.pid {
                assert(self.states()[q].unwrap() =~= want[q].unwrap());
            }
        }
        assert(self.states() =~= want);
    }

    /// A change to one task that keeps its status and what it waits for
    /// keeps the kernel well-formed, where the task stays well-formed.
    pub proof fn lemma_task_update(&self, before: Self, id: TaskId)
        requires
            before.wf(),
            before.live(id),
            self.same_but_task(before, id),
            self.task(id).wf(),
            self.task(id).task_status == before.task(id).task_status,
            self.task(id).wait == before.task(id).wait,
        ensures
            self.wf(),
    {
        self.proc(id.pid as int).lemma_wf_task_update(before.proc(id.pid as int), id.tid as int);
        self.lemma_parts_same(before, id.pid as int);
        self.lemma_states_changed(before, id);
        let inner = before.states()[id.pid as int].unwrap();
        assert(inner[id.tid as int] == (self.task(id).task_status, self.task(id).wait));
        assert(inner.update(id.tid as int, inner[id.tid as int]) =~= inner);
        assert(self.states() =~= before.states());
    }

    /// The task that runs.
    pub fn current_id(&self) -> (id: TaskId)
        requires
            self.running(),
        ensures
            Some(id) == self.current,
            self.live(id),
            self.task(id).task_status is Running,
    {
        let id = self.current.unwrap();
        assert(task_live(self.states(), id));
        assert(state_of(self.states(), id).0 is Running);
        id
    }

    /// The clock, in milliseconds.
    pub fn get_time_ms(&self) -> (ms: usize)
        ensures
            ms == self.now_ms(),
    {
        self.now_us / 1000
    }

    /// Counts one more call of the system call `call` for the task that
    /// runs.
    pub fn count_syscall(&mut self, call: usize)
        requires
            old(self).running(),
        ensures
            final(self).running(),
            final(self).counted_from(*old(self), call),
    {
        let ghost before = *self;
        let cur = self.current_id();
        match &mut self.procs[cur.pid] {
            Some(p) => {
                p.tasks[cur.tid].count_syscall(call);
            },
            None => {},
        }
        proof {
            assert(before.proc(cur.pid as int).tasks@[cur.tid as int].wf());
            self.lemma_task_update(before, cur);
        }
    }

    /// Whether `self` is `before` with `r` in the first argument register
    /// of task `id`, where that task exists, and nothing else changed.
    pub open spec fn returned_from(&self, before: Self, id: TaskId, r: isize) -> bool {
        if before.live(id) {
            &&& self.same_but_task(before, id)
            &&& self.task(id) == (TaskControlBlock {
                task_cx: TaskContext { a0: r, ..before.task(id).task_cx },
                ..before.task(id)
            })
        } else {
            *self == before
        }
    }

    /// Leaves `r`, the result of a system call, in the first argument
    /// register of task `id`, where that task exists.
    pub fn set_return(&mut self, id: TaskId, r: isize)
        requires
            old(self).wf(),
        ensures
            final(self).wf(),
            final(self).returned_from(*old(self), id, r),
    {
        let ghost before = *self;
        let live: bool = id.pid < self.procs.len() && match &self.procs[id.pid] {
            Some(p) => id.tid < p.tasks.len(),
            None => false,
        };
        if live {
            match &mut self.procs[id.pid] {
                Some(p) => {
                    p.tasks[id.tid].task_cx.a0 = r;
                },
                None => {},
            }
            proof {
                assert(before.proc(id.pid as int).wf());
                assert(before.proc(id.pid as int).tasks@[id.tid as int].wf());
                self.lemma_task_update(before, id);
            }
        }
    }

    /// Whether `self` is `before` with one more call of `call` counted for
    /// the task that runs, and nothing else changed.
    pub open spec fn counted_from(&self, before: Self, call: usize) -> bool {
        &&& self.same_but_procs(before)
        &&& self.tasks_counted(before, call)
    }

    /// Whether the processes are those of `before` with one more call of
    /// `call` counted for the task that runs.
    pub open spec fn tasks_counted(&self, before: Self, call: usize) -> bool {
        let cur = before.current.unwrap();
        &&& self.procs_same_but(before, cur.pid as int)
        &&& self.proc(cur.pid as int).same_but_tasks(before.proc(cur.pid as int))
        &&& self.proc(cur.pid as int).tasks_same_but(before.proc(cur.pid as int), cur.tid as int)
        &&& self.task(cur).same_but_counters(before.task(cur))
        &&& self.task(cur).counted_from(before.task(cur), call)
    }

    /// A change to what the frames hold leaves everything in order.
    pub proof fn lemma_wf_pages(&self, before: Self)
        requires
            before.wf_parts(),
            self.procs@ == before.procs@,
            self.frames.wf(),
            self.frames.same_frames(before.frames),
            self.timers == before.timers,
            self.fs == before.fs,
            self.files == before.files,
        ensures
            self.wf_parts(),
            self.states() == before.states(),
    {
        assert(self.states() =~= before.states());
        assert(self.memory_sets() =~= before.memory_sets());
        assert(self.fd_tables() =~= before.fd_tables());
        assert(self.families() =~= before.families());
        lemma_mem_same_frames(before.frames, self.frames, before.memory_sets());
        assert forall|q: int| self.live_proc(q) implies (#[trigger] self.proc(q)).wf() && self.proc(
            q,
        ).pid == q by {
            assert(before.live_proc(q));
            assert(before.proc(q).wf());
        }
    }

    /// A change to the ready queue, the running task and the clock alone
    /// leaves everything but the schedule in order.
    pub proof fn lemma_wf_parts_keep(&self, before: Self)
        requires
            before.wf_parts(),
            self.procs@ == before.procs@,
            self.frames == before.frames,
            self.timers == before.timers,
            self.fs == before.fs,
            self.files == before.files,
        ensures
            self.wf_parts(),
            self.states() == before.states(),
    {
        assert(self.states() =~= before.states());
        assert(self.memory_sets() =~= before.memory_sets());
        assert(self.fd_tables() =~= before.fd_tables());
        assert(self.families() =~= before.families());
        assert forall|q: int| self.live_proc(q) implies (#[trigger] self.proc(q)).wf() && self.proc(
            q,
        ).pid == q by {
            assert(before.live_proc(q));
            assert(before.proc(q).wf());
        }
    }

    /// Whether two kernel states agree on everything but the ready queue,
    /// the task that runs, and up to two tasks.
    pub open spec fn same_but_schedule(&self, before: Self, a: TaskId, b: TaskId) -> bool {
        &&& self.frames == before.frames
        &&& self.timers == before.timers
        &&& self.now_us == before.now_us
        &&& self.fs == before.fs
        &&& self.files == before.files
        &&& self.apps == before.apps
        &&& self.procs@.len() == before.procs@.len()
        &&& forall|pid: int|
            0 <= pid < self.procs@.len() ==> (#[trigger] self.procs@[pid]).is_some()
                == before.procs@[pid].is_some()
        &&& forall|pid: int|
            self.live_proc(pid) ==> (#[trigger] self.proc(pid)).same_but_tasks(before.proc(pid))
                && self.proc(pid).tasks@.len() == before.proc(pid).tasks@.len()
        &&& forall|id: TaskId|
            before.live(id) && id != a && id != b ==> #[trigger] self.task(id) == before.task(id)
    }

    /// Sets the status of a task.
    fn set_status(&mut self, id: TaskId, status: TaskStatus)
        requires
            old(self).live(id),
        ensures
            final(self).same_but_task(*old(self), id),
            final(self).task(id).task_status == status,
            final(self).task(id).same_but_status(old(self).task(id)),
    {
        match &mut self.procs[id.pid] {
            Some(p) => {
                p.tasks[id.tid].task_status = status;
            },
            None => {},
        }
    }

    /// Puts the first task of the ready queue on the processor, while
    /// nobody runs. Where the queue is empty, nobody runs afterwards either.
    pub fn run_next(&mut self)
        requires
            old(self).wf_parts(),
            old(self).current.is_none(),
            sched_ok(old(self).ready_queue@, None, old(self).states()),
        ensures
            final(self).wf(),
            final(self).current == (if old(self).ready_queue@.len() > 0 {
                Some(old(self).ready_queue@[0])
            } else {
                None
            }),
            final(self).ready_queue@ == (if old(self).ready_queue@.len() > 0 {
                old(self).ready_queue@.drop_first()
            } else {
                old(self).ready_queue@
            }),
            old(self).ready_queue@.len() == 0 ==> final(self).procs == old(self).procs,
            old(self).ready_queue@.len() > 0 ==> old(self).live(old(self).ready_queue@[0])
                && old(self).task(old(self).ready_queue@[0]).task_status is Ready && final(self).task(old(self).ready_queue@[0]).dispatched_from(
                old(self).task(old(self).ready_queue@[0]),
                old(self).now_ms(),
            ),
            final(self).same_but_schedule(
                *old(self),
                if old(self).ready_queue@.len() > 0 {
                    old(self).ready_queue@[0]
                } else {
                    TaskId { pid: 0, tid: 0 }
                },
                if old(self).ready_queue@.len() > 0 {
                    old(self).ready_queue@[0]
                } else {
                    TaskId { pid: 0, tid: 0 }
                },
            ),
    {
        let ghost before = *self;
        let now: usize = self.get_time_ms();
        match self.ready_queue.pop_front() {
            None => {
                proof {
                    assert(self.states() =~= before.states());
                    assert(self.memory_sets() =~= before.memory_sets());
                    assert(self.fd_tables() =~= before.fd_tables());
                    assert(self.families() =~= before.families());
                    assert forall|q: int| self.live_proc(q) implies (#[trigger] self.proc(q)).wf()
                        && self.proc(q).pid == q by {
                        assert(before.live_proc(q));
                        assert(before.proc(q).wf());
                    }
                }
            },
            Some(id) => {
                proof {
                    assert(before.ready_queue@[0] == id);
                    assert(task_live(before.states(), before.ready_queue@[0]));
                    assert(state_of(before.states(), id).0 is Ready);
                    assert(before.proc(id.pid as int).wf());
                    assert(before.proc(id.pid as int).tasks@[id.tid as int].wf());
                }
                match &mut self.procs[id.pid] {
                    Some(p) => {
                        p.tasks[id.tid].task_status = TaskStatus::Running;
                        if p.tasks[id.tid].first_run {
                            p.tasks[id.tid].first_run = false;
                            p.tasks[id.tid].start_time = now;
                        }
                    },
                    None => {},
                }
                self.current = Some(id);
                proof {
                    let state = (self.task(id).task_status, self.task(id).wait);
                    self.proc(id.pid as int).lemma_wf_task_update(
                        before.proc(id.pid as int),
                        id.tid as int,
                    );
                    self.lemma_parts_same(before, id.pid as int);
                    self.lemma_states_changed(before, id);
                    lemma_sched_pop(before.ready_queue@, before.states(), self.states(), state);
                    lemma_timers_change(before.timers@, before.states(), self.states(), id, state);
                    assert(self.ready_queue@ =~= before.ready_queue@.drop_first());
                    assert(self.wf_parts());
                    assert(sched_ok(self.ready_queue@, self.current, self.states()));
                    assert forall|other: TaskId|
                        before.live(other) && other != id implies #[trigger] self.task(other)
                        == before.task(other) by {}
                }
            },
        }
    }

    /// Takes the task that runs off the processor and puts it at the end
    /// of the ready queue; then the first task of the queue runs.
    pub fn suspend_current_and_run_next(&mut self)
        requires
            old(self).running(),
        ensures
            final(self).wf(),
            final(self).current == Some(
                old(self).ready_queue@.push(old(self).current.unwrap())[0],
            ),
            final(self).ready_queue@ == old(self).ready_queue@.push(
                old(self).current.unwrap(),
            ).drop_first(),
            final(self).same_but_schedule(
                *old(self),
                old(self).current.unwrap(),
                final(self).current.unwrap(),
            ),
            final(self).task(final(self).current.unwrap()).dispatched_from(
                old(self).task(final(self).current.unwrap()),
                old(self).now_ms(),
            ),
            final(self).current != old(self).current ==> final(self).task(
                old(self).current.unwrap(),
            ).task_status is Ready && final(self).task(old(self).current.unwrap()).same_but_status(
                old(self).task(old(self).current.unwrap()),
            ),
    {
        let ghost before = *self;
        let ghost cur = before.current.unwrap();
        proof {
            assert(task_live(before.states(), cur));
        }
        self.suspend_current();
        let ghost mid = *self;
        self.run_next();
        proof {
            let next = self.current.unwrap();
            assert(mid.live(cur));
            assert forall|id: TaskId|
                before.live(id) && id != cur && id != next implies #[trigger] self.task(id)
                == before.task(id) by {
                assert(mid.live(id));
                assert(mid.task(id) == before.task(id));
            }
            assert forall|pid: int| self.live_proc(pid) implies (#[trigger] self.proc(
                pid,
            )).same_but_tasks(before.proc(pid)) && self.proc(pid).tasks@.len() == before.proc(
                pid,
            ).tasks@.len() by {
                assert(mid.live_proc(pid));
                assert(mid.proc(pid).same_but_tasks(before.proc(pid)));
            }
            assert forall|pid: int| 0 <= pid < self.procs@.len() implies (
            #[trigger] self.procs@[pid]).is_some() == before.procs@[pid].is_some() by {
                assert(mid.procs@[pid].is_some() == before.procs@[pid].is_some());
            }
        }
    }

    /// Whether two kernel states agree on everything but the frames and
    /// one process, of which the address space, the heap bounds and the
    /// threads may differ.
    pub open spec fn same_but_memory(&self, before: Self, pid: int) -> bool {
        &&& self.ready_queue == before.ready_queue
        &&& self.current == before.current
        &&& self.timers == before.timers
        &&& self.now_us == before.now_us
        &&& self.fs == before.fs
        &&& self.files == before.files
        &&& self.apps == before.apps
        &&& self.procs_same_but(before, pid)
        &&& self.proc(pid).same_but_memory(before.proc(pid))
    }

    /// A step of the address space of one process that conserves frames,
    /// with its threads, status and waits as they were, keeps the kernel
    /// well-formed.
    pub proof fn lemma_memory_update(&self, before: Self, pid: int)
        requires
            before.wf(),
            self.same_but_memory(before, pid),
            self.proc(pid).tasks == before.proc(pid).tasks,
            self.frames.wf(),
            self.proc(pid).memory_set.wf(),
            self.proc(pid).memory_set.frames_allocated(self.frames),
            self.proc(pid).memory_set.conserves(
                before.proc(pid).memory_set,
                self.frames,
                before.frames,
            ),
        ensures
            self.wf(),
    {
        assert(self.states() =~= before.states());
        assert(self.fd_tables() =~= before.fd_tables());
        assert(self.families() =~= before.families());
        lemma_mem_step(before.frames, before.memory_sets(), self.frames, self.memory_sets(), pid);
        assert forall|q: int| self.live_proc(q) implies (#[trigger] self.proc(q)).wf() && self.proc(
            q,
        ).pid == q by {
            assert(before.live_proc(q));
            assert(before.proc(q).wf());
            if q == pid {
                assert forall|reason: WaitReason| self.proc(q).queue_of(reason) == before.proc(
                    q,
                ).queue_of(reason) by {}
                self.proc(q).lemma_queues_task_change(before.proc(q), -1, -1);
            }
        }
    }

    /// The process of the task that runs.
    pub open spec fn cur_proc(&self) -> ProcessControlBlock {
        self.proc(self.current.unwrap().pid as int)
    }

    /// The address space of the task that runs.
    pub open spec fn cur_ms(&self) -> MemorySet {
        self.cur_proc().memory_set
    }

    /// The address space of a process is well-formed, and its frames are
    /// handed out.
    pub proof fn lemma_wf_memory(&self, pid: int)
        requires
            self.wf(),
            self.live_proc(pid),
        ensures
            self.frames.wf(),
            self.proc(pid).memory_set.wf(),
            self.proc(pid).memory_set.frames_allocated(self.frames),
            self.proc(pid).wf(),
    {
        assert(self.memory_sets()[pid].is_some());
        assert(self.memory_sets()[pid].unwrap() == self.proc(pid).memory_set);
    }

    /// The process of the task that runs.
    pub fn current_process(&self) -> (p: &ProcessControlBlock)
        requires
            self.running(),
        ensures
            *p == self.cur_proc(),
            p.wf(),
            p.memory_set.wf(),
            p.memory_set.frames_allocated(self.frames),
            self.current.unwrap().tid < p.tasks@.len(),
    {
        let cur = self.current_id();
        proof {
            self.lemma_wf_memory(cur.pid as int);
        }
        self.procs[cur.pid].as_ref().unwrap()
    }

    /// Reads the string at `ptr` in the memory of the task that runs.
    pub fn user_str(&self, ptr: usize) -> (r: Option<Vec<u8>>)
        requires
            self.running(),
        ensures
            r.is_some() == self.cur_ms().user_str(self.frames, ptr).is_some(),
            r.is_some() ==> r.unwrap()@ == self.cur_ms().user_str(self.frames, ptr).unwrap(),
    {
        let p = self.current_process();
        p.memory_set.translated_str(&self.frames, ptr)
    }

    /// Reads `len` bytes at `ptr` in the memory of the task that runs.
    pub fn user_read(&self, ptr: usize, len: usize) -> (r: Option<Vec<u8>>)
        requires
            self.running(),
        ensures
            r.is_some() == self.cur_ms().user_range_ok(ptr, len),
            r.is_some() ==> r.unwrap()@ == self.cur_ms().user_bytes(self.frames, ptr, len as nat),
    {
        let p = self.current_process();
        p.memory_set.read_user_bytes(&self.frames, ptr, len)
    }

    /// Whether the task that runs may touch every byte of
    /// `[ptr, ptr + len)`.
    pub fn user_check(&self, ptr: usize, len: usize) -> (ok: bool)
        requires
            self.running(),
        ensures
            ok == self.cur_ms().user_range_ok(ptr, len),
    {
        let p = self.current_process();
        p.memory_set.check_user_range(ptr, len)
    }

    /// Whether two kernel states agree on everything but what the frames
    /// hold.
    pub open spec fn same_but_pages(&self, before: Self) -> bool {
        &&& self.same_but_frames(before)
        &&& self.frames.same_frames(before.frames)
        &&& self.procs == before.procs
        &&& self.fs == before.fs
        &&& self.files == before.files
    }

    /// Whether two kernel states agree on the schedule, the clock and the
    /// applications.
    pub open spec fn same_but_frames(&self, before: Self) -> bool {
        &&& self.ready_queue == before.ready_queue
        &&& self.current == before.current
        &&& self.timers == before.timers
        &&& self.now_us == before.now_us
        &&& self.apps == before.apps
    }

    /// Whether the bytes that the running task sees at `[ptr, ptr + len)`
    /// are `data`, those that it sees elsewhere are as before, and so are
    /// the frames of everyone else.
    pub open spec fn wrote_user(&self, before: Self, ptr: usize, data: Seq<u8>) -> bool {
        &&& self.cur_ms().user_bytes(self.frames, ptr, data.len()) == data
        &&& forall|va: usize|
            self.cur_ms().user_ok(va) && !(ptr <= va < ptr + data.len())
                ==> #[trigger] self.cur_ms().user_byte(self.frames, va) == self.cur_ms().user_byte(
                before.frames,
                va,
            )
        &&& forall|p: usize|
            before.frames.in_range(p) && !self.cur_ms().owns_data(p) ==> #[trigger] self.frames.page(
                p,
            ) == before.frames.page(p)
    }

    /// Writes `data` at `ptr` in the memory of the task that runs. Returns
    /// `false`, and writes nothing, exactly when the task may not touch
    /// some byte of the range.
    pub fn user_write(&mut self, ptr: usize, data: &Vec<u8>) -> (ok: bool)
        requires
            old(self).running(),
        ensures
            final(self).running(),
            final(self).same_but_pages(*old(self)),
            ok == old(self).cur_ms().user_range_ok(ptr, data@.len() as usize),
            !ok ==> final(self).frames == old(self).frames,
            ok ==> final(self).wrote_user(*old(self), ptr, data@),
    {
        let ghost before = *self;
        let cur = self.current_id();
        proof {
            self.lemma_wf_memory(cur.pid as int);
        }
        let ok = match &self.procs[cur.pid] {
            Some(p) => p.memory_set.write_user_bytes(&mut self.frames, ptr, data),
            None => false,
        };
        proof {
            self.lemma_wf_pages(before);
        }
        ok
    }

    /// Whether two kernel states agree on everything but the filesystem,
    /// the open files, and one process, of which the descriptor table may
    /// differ.
    pub open spec fn same_but_files(&self, before: Self, pid: int) -> bool {
        &&& self.same_but_frames(before)
        &&& self.frames == before.frames
        &&& self.procs_same_but(before, pid)
        &&& self.proc(pid).same_but_fds(before.proc(pid))
    }

    /// A change to the filesystem, the open files and the descriptor table
    /// of one process keeps the kernel well-formed where the open files
    /// stay in order.
    pub proof fn lemma_files_update(&self, before: Self, pid: int)
        requires
            before.wf(),
            self.same_but_files(before, pid),
            files_ok(self.fd_tables(), self.files@, self.fs),
        ensures
            self.wf(),
    {
        assert(self.states() =~= before.states());
        assert(self.memory_sets() =~= before.memory_sets());
        assert(self.families() =~= before.families());
        assert forall|q: int| self.live_proc(q) implies (#[trigger] self.proc(q)).wf() && self.proc(
            q,
        ).pid == q by {
            assert(before.live_proc(q));
            assert(before.proc(q).wf());
            if q == pid {
                self.proc(q).lemma_wf_same_sync(before.proc(q));
            }
        }
    }

    /// The open file that descriptor `fd` of the running task names.
    pub open spec fn fd_handle(&self, fd: usize) -> Option<usize> {
        if fd < self.cur_proc().fd_table@.len() {
            self.cur_proc().fd_table@[fd as int]
        } else {
            None
        }
    }

    /// The open file that descriptor `fd` of the running task names.
    pub fn lookup_fd(&self, fd: usize) -> (r: Option<usize>)
        requires
            self.running(),
        ensures
            r == self.fd_handle(fd),
            r.is_some() ==> r.unwrap() < self.files@.len() && 1
                <= self.files@[r.unwrap() as int].inode_id < self.fs.inode_count(),
            self.fs.wf(),
    {
        let p = self.current_process();
        let cur = self.current.unwrap();
        proof {
            assert(self.fd_tables()[cur.pid as int].unwrap() == p.fd_table@);
        }
        if fd < p.fd_table.len() {
            let r = p.fd_table[fd];
            proof {
                if r.is_some() {
                    assert(self.fd_tables()[cur.pid as int].unwrap()[fd as int].is_some());
                }
            }
            r
        } else {
            None
        }
    }

    /// The kernel after one process took a step for its thread `tid`,
    /// which ran: that thread may have left the processor, and the thread
    /// `woken`, which was blocked on something other than a timer, may
    /// have been made ready.
    /// Everything but the schedule is in order; the schedule is in order
    /// once the thread that was blocked is taken off the processor; and
    /// the thread that was woken is not in the ready queue.
    pub proof fn lemma_sync_step(&self, before: Self, id: TaskId, woken: Option<usize>)
        requires
            before.wf(),
            before.current == Some(id),
            self.same_but_procs(before),
            self.procs_same_but(before, id.pid as int),
            self.proc(id.pid as int).wf(),
            self.proc(id.pid as int).same_but_sync(before.proc(id.pid as int)),
            self.proc(id.pid as int).tasks_same_but2(
                before.proc(id.pid as int),
                id.tid as int,
                match woken {
                    Some(w) => w as int,
                    None => -1,
                },
            ),
            self.task(id).task_status is Running ==> self.task(id).wait == before.task(id).wait,
            woken.is_some() ==> {
                let w = TaskId { pid: id.pid, tid: woken.unwrap() };
                &&& w != id
                &&& before.live(w)
                &&& before.task(w).task_status is Blocked
                &&& !(before.task(w).wait is Timer)
                &&& self.task(w).task_status is Ready
            },
        ensures
            self.wf_parts(),
            sched_ok(
                self.ready_queue@,
                if self.task(id).task_status is Running {
                    self.current
                } else {
                    None
                },
                self.states(),
            ),
            woken.is_some() ==> !self.ready_queue@.contains(
                TaskId { pid: id.pid, tid: woken.unwrap() },
            ) && self.live(TaskId { pid: id.pid, tid: woken.unwrap() }),
            self.live(id),
            !self.ready_queue@.contains(id),
    {
        if before.ready_queue@.contains(id) {
            let i = choose|i: int| 0 <= i < before.ready_queue@.len() && before.ready_queue@[i] == id;
            assert(state_of(before.states(), before.ready_queue@[i]).0 is Ready);
        }
        let pid = id.pid as int;
        assert(task_live(before.states(), id));
        assert(state_of(before.states(), id).0 is Running);
        self.lemma_parts_same(before, pid);
        let st0 = before.states();
        let own = (self.task(id).task_status, self.task(id).wait);
        match woken {
            Some(wt) => {
                let w = TaskId { pid: id.pid, tid: wt };
                let ws = (self.task(w).task_status, self.task(w).wait);
                let st1 = st0.update(pid, Some(st0[pid].unwrap().update(wt as int, ws)));
                let st2 = st1.update(pid, Some(st1[pid].unwrap().update(id.tid as int, own)));
                assert forall|q: int| 0 <= q < self.procs@.len() implies #[trigger] self.states()[q]
                    == st2[q] by {
                    if q == pid {
                        assert(self.states()[q].unwrap() =~= st2[q].unwrap());
                    }
                }
                assert(self.states() =~= st2);
                lemma_sched_wake(before.ready_queue@, before.current, st0, st1, w, ws);
                lemma_timers_change(before.timers@, st0, st1, w, ws);
                assert(states_changed_at(st2, st1, id, own));
                if !(self.task(id).task_status is Running) {
                    lemma_sched_change(before.ready_queue@, before.current, st1, st2, id, own);
                    lemma_timers_change(before.timers@, st1, st2, id, own);
                } else {
                    assert(st1[pid].unwrap().update(id.tid as int, own) =~= st1[pid].unwrap());
                    assert(st2 =~= st1);
                }
            },
            None => {
                let st2 = st0.update(pid, Some(st0[pid].unwrap().update(id.tid as int, own)));
                assert forall|q: int| 0 <= q < self.procs@.len() implies #[trigger] self.states()[q]
                    == st2[q] by {
                    if q == pid {
                        assert(self.states()[q].unwrap() =~= st2[q].unwrap());
                    }
                }
                assert(self.states() =~= st2);
                if !(self.task(id).task_status is Running) {
                    lemma_sched_change(before.ready_queue@, before.current, st0, st2, id, own);
                    lemma_timers_change(before.timers@, st0, st2, id, own);
                } else {
                    assert(st0[pid].unwrap().update(id.tid as int, own) =~= st0[pid].unwrap());
                    assert(st2 =~= st0);
                }
            },
        }
    }

    /// Settles the schedule after a step of synchronisation: the thread
    /// that was woken, if any, joins the end of the ready queue, and behind
    /// it the thread that yielded, if any; and where the thread that ran
    /// gave up the processor, nobody runs.
    pub fn settle(&mut self, woken: Option<TaskId>, requeue: Option<TaskId>, parked: bool)
        requires
            old(self).wf_parts(),
            sched_ok(
                old(self).ready_queue@,
                if parked {
                    None
                } else {
                    old(self).current
                },
                old(self).states(),
            ),
            woken.is_some() ==> old(self).live(woken.unwrap()) && old(self).task(
                woken.unwrap(),
            ).task_status is Ready && !old(self).ready_queue@.contains(woken.unwrap()),
            requeue.is_some() ==> old(self).live(requeue.unwrap()) && old(self).task(
                requeue.unwrap(),
            ).task_status is Ready && !old(self).ready_queue@.contains(requeue.unwrap())
                && woken != requeue,
        ensures
            final(self).wf(),
            final(self).settled_from(*old(self), woken, requeue, parked),
    {
        let ghost before = *self;
        let ghost running = if parked {
            None
        } else {
            before.current
        };
        match woken {
            Some(w) => {
                self.ready_queue.push_back(w);
                proof {
                    self.lemma_wf_parts_keep(before);
                    assert(task_live(self.states(), w));
                    lemma_sched_push(before.ready_queue@, running, self.states(), w);
                }
            },
            None => {},
        }
        let ghost queued = *self;
        match requeue {
            Some(c) => {
                self.ready_queue.push_back(c);
                proof {
                    self.lemma_wf_parts_keep(queued);
                    assert(task_live(self.states(), c));
                    if queued.ready_queue@.contains(c) {
                        let i = choose|i: int|
                            0 <= i < queued.ready_queue@.len() && queued.ready_queue@[i] == c;
                        if i < before.ready_queue@.len() {
                            assert(before.ready_queue@[i] == c);
                        }
                    }
                    lemma_sched_push(queued.ready_queue@, running, self.states(), c);
                }
            },
            None => {},
        }
        if parked {
            let ghost pushed = *self;
            self.current = None;
            proof {
                self.lemma_wf_parts_keep(pushed);
            }
        }
    }

    /// The ready queue with a woken task and a task that yielded behind
    /// the others.
    pub open spec fn queue_with(
        queue: Seq<TaskId>,
        woken: Option<TaskId>,
        requeue: Option<TaskId>,
    ) -> Seq<TaskId> {
        let first = match woken {
            Some(w) => queue.push(w),
            None => queue,
        };
        match requeue {
            Some(c) => first.push(c),
            None => first,
        }
    }

    /// What `settle` leaves: the ready queue with the woken task and the
    /// task that yielded behind the others; nobody on the processor where
    /// the task that ran gave it up; and nothing else changed.
    pub open spec fn settled_from(
        &self,
        before: Self,
        woken: Option<TaskId>,
        requeue: Option<TaskId>,
        parked: bool,
    ) -> bool {
        &&& self.current == (if parked {
            None
        } else {
            before.current
        })
        &&& self.ready_queue@ == Self::queue_with(before.ready_queue@, woken, requeue)
        &&& self.procs == before.procs
        &&& self.frames == before.frames
        &&& self.timers == before.timers
        &&& self.now_us == before.now_us
        &&& self.fs == before.fs
        &&& self.files == before.files
        &&& self.apps == before.apps
    }

    /// Whether `self` is `before` after a step of the process of the task
    /// that ran: that process may differ, and the schedule is settled with
    /// the woken task and the task that yielded in the ready queue.
    pub open spec fn stepped_from(
        &self,
        before: Self,
        woken: Option<TaskId>,
        requeue: Option<TaskId>,
        parked: bool,
    ) -> bool {
        &&& self.current == (if parked {
            None
        } else {
            before.current
        })
        &&& self.ready_queue@ == Self::queue_with(before.ready_queue@, woken, requeue)
        &&& self.procs_same_but(before, before.current.unwrap().pid as int)
        &&& self.frames == before.frames
        &&& self.timers == before.timers
        &&& self.now_us == before.now_us
        &&& self.fs == before.fs
        &&& self.files == before.files
        &&& self.apps == before.apps
    }

    /// Takes the task that runs off the processor and puts it at the end
    /// of the ready queue. Nobody runs afterwards.
    pub fn suspend_current(&mut self)
        requires
            old(self).running(),
        ensures
            final(self).wf(),
            final(self).stepped_from(*old(self), None, old(self).current, true),
            final(self).proc(old(self).current.unwrap().pid as int).same_but_tasks(
                old(self).proc(old(self).current.unwrap().pid as int),
            ),
            final(self).proc(old(self).current.unwrap().pid as int).tasks_same_but(
                old(self).proc(old(self).current.unwrap().pid as int),
                old(self).current.unwrap().tid as int,
            ),
            final(self).task(old(self).current.unwrap()).task_status is Ready,
            final(self).task(old(self).current.unwrap()).same_but_status(
                old(self).task(old(self).current.unwrap()),
            ),
    {
        let ghost before = *self;
        let cur = self.current_id();
        self.set_status(cur, TaskStatus::Ready);
        proof {
            assert(before.proc(cur.pid as int).tasks@[cur.tid as int].wf());
            self.proc(cur.pid as int).lemma_wf_task_update(before.proc(cur.pid as int), cur.tid as int);
            self.lemma_sync_step(before, cur, None);
        }
        self.settle(None, Some(cur), true);
    }

    /// The application that a name stands for: the first with that name.
    pub open spec fn app_named(&self, name: Seq<u8>) -> Option<int> {
        app_from(self.apps@, name, 0)
    }

    /// Finds the application that a name stands for.
    pub fn find_app(&self, name: &Vec<u8>) -> (r: Option<usize>)
        ensures
            r.is_some() == self.app_named(name@).is_some(),
            r.is_some() ==> r.unwrap() == self.app_named(name@).unwrap() && r.unwrap()
                < self.apps@.len(),
    {
        let mut i: usize = 0;
        while i < self.apps.len()
            invariant
                i <= self.apps@.len(),
                self.app_named(name@) == app_from(self.apps@, name@, i as int),
            decreases self.apps@.len() - i,
        {
            if crate::codec::bytes_eq(&self.apps[i].name, name) {
                return Some(i);
            }
            i = i + 1;
        }
        None
    }

    /// Whether `self` is `before` with one more process, the child of
    /// `parent`, whose one thread is at the end of the ready queue; the
    /// frames have changed.
    pub open spec fn adopted_from(&self, before: Self, parent: usize) -> bool {
        let pid = before.procs@.len() as int;
        &&& self.procs@.len() == pid + 1
        &&& self.live_proc(pid)
        &&& self.proc(pid).pid == pid
        &&& self.proc(pid).parent == Some(parent)
        &&& self.current == before.current
        &&& self.ready_queue@ == before.ready_queue@.push(TaskId { pid: pid as usize, tid: 0 })
        &&& self.timers == before.timers
        &&& self.now_us == before.now_us
        &&& self.fs == before.fs
        &&& self.files == before.files
        &&& self.apps == before.apps
        &&& forall|q: int|
            0 <= q < pid && q != parent ==> #[trigger] self.procs@[q] == before.procs@[q]
        &&& self.live_proc(parent as int)
        &&& self.proc(parent as int).same_but_children(before.proc(parent as int))
        &&& self.proc(parent as int).children@ == before.proc(parent as int).children@.push(
            pid as usize,
        )
    }

    /// Takes a new process into the kernel as the child of `parent`: it
    /// gets the next process id, its thread joins the end of the ready
    /// queue, and the parent lists it among its children. The address
    /// space of the process was made of frames that were free in
    /// `frames0`, the frames before it was made.
    pub(crate) fn adopt(
        &mut self,
        parent: usize,
        child: ProcessControlBlock,
        Ghost(frames0): Ghost<FrameAllocator>,
    )
        requires
            (Kernel { frames: frames0, ..*old(self) }).wf(),
            old(self).live_proc(parent as int),
            old(self).procs@.len() < isize::MAX,
            old(self).frames.wf(),
            child.wf(),
            child.pid == old(self).procs@.len(),
            child.parent == Some(parent),
            child.children@.len() == 0,
            forall|t: int|
                0 <= t < child.tasks@.len() ==> !((#[trigger] child.tasks@[t]).task_status is Running),
            child.tasks@[0].task_status is Ready,
            child.memory_set.wf(),
            child.memory_set.frames_allocated(old(self).frames),
            child.memory_set.born_from(old(self).frames, frames0),
            forall|fd: int|
                0 <= fd < child.fd_table@.len() && (#[trigger] child.fd_table@[fd]).is_some()
                    ==> child.fd_table@[fd].unwrap() < old(self).files@.len(),
        ensures
            final(self).wf(),
            final(self).frames == old(self).frames,
            final(self).adopted_from(*old(self), parent),
            final(self).proc(old(self).procs@.len() as int) == child,
            final(self).proc(parent as int).tasks == old(self).proc(parent as int).tasks,
    {
        let ghost before = Kernel { frames: frames0, ..*self };
        let ghost entered = *self;
        let pid: usize = self.procs.len();
        let id = TaskId { pid, tid: 0 };
        proof {
            assert(entered.states() =~= before.states());
            assert(entered.memory_sets() =~= before.memory_sets());
            assert(entered.fd_tables() =~= before.fd_tables());
            assert(entered.families() =~= before.families());
        }
        self.procs.push(Some(child));
        match &mut self.procs[parent] {
            Some(p) => {
                p.children.push(pid);
            },
            None => {},
        }
        self.ready_queue.push_back(id);
        proof {
            let tasks = Seq::new(
                child.tasks@.len(),
                |t: int| (child.tasks@[t].task_status, child.tasks@[t].wait),
            );
            assert forall|q: int| 0 <= q < self.procs@.len() implies #[trigger] self.states()[q]
                == before.states().push(Some(tasks))[q] by {
                if q == pid {
                    assert(self.states()[q].unwrap() =~= tasks);
                } else if q == parent {
                    assert(self.states()[q].unwrap() =~= before.states()[q].unwrap());
                }
            }
            assert(self.states() =~= before.states().push(Some(tasks)));
            lemma_states_grow(
                before.ready_queue@,
                before.current,
                before.timers@,
                before.states(),
                tasks,
            );
            assert(task_live(self.states(), id));
            if before.ready_queue@.contains(id) {
                let i = choose|i: int| 0 <= i < before.ready_queue@.len() && before.ready_queue@[i] == id;
                assert(task_live(before.states(), before.ready_queue@[i]));
            }
            lemma_sched_push(before.ready_queue@, before.current, self.states(), id);
            // the address spaces
            assert forall|q: int| 0 <= q < self.procs@.len() implies #[trigger] self.memory_sets()[q]
                == before.memory_sets().push(Some(child.memory_set))[q] by {}
            assert(self.memory_sets() =~= before.memory_sets().push(Some(child.memory_set)));
            lemma_mem_birth(frames0, before.memory_sets(), self.frames, child.memory_set);
            // the processes
            assert forall|q: int| self.live_proc(q) implies (#[trigger] self.proc(q)).wf() && self.proc(
                q,
            ).pid == q by {
                if q == parent {
                    assert(before.live_proc(q));
                    assert(before.proc(q).wf());
                    assert(self.proc(q).tasks == before.proc(q).tasks);
                    self.proc(q).lemma_wf_same_sync(before.proc(q));
                } else if q != pid {
                    assert(before.live_proc(q));
                    assert(before.proc(q).wf());
                }
            }
            // the open files
            assert forall|q: int, fd: int|
                0 <= q < self.fd_tables().len() && self.fd_tables()[q].is_some() && 0 <= fd
                    < self.fd_tables()[q].unwrap().len() && (
                #[trigger] self.fd_tables()[q].unwrap()[fd]).is_some()
                    implies self.fd_tables()[q].unwrap()[fd].unwrap() < self.files@.len() by {
                if q != pid {
                    assert(before.fd_tables()[q].is_some());
                    assert(before.fd_tables()[q].unwrap()[fd].is_some());
                }
            }
            // the families
            assert forall|q: int|
                0 <= q < self.families().len() && (#[trigger] self.families()[q]).is_some() implies {
                let children = self.families()[q].unwrap().1;
                &&& children.no_duplicates()
                &&& forall|i: int|
                    0 <= i < children.len() ==> {
                        let c = #[trigger] children[i];
                        &&& c < self.families().len()
                        &&& c != q
                        &&& self.families()[c as int].is_some()
                        &&& self.families()[c as int].unwrap().0 == Some(q as usize)
                    }
            } by {
                let children = self.families()[q].unwrap().1;
                if q == pid {
                } else {
                    assert(before.families()[q].is_some());
                    let old_children = before.families()[q].unwrap().1;
                    assert(old_children.no_duplicates());
                    assert forall|i: int| 0 <= i < children.len() implies {
                        let c = #[trigger] children[i];
                        &&& c < self.families().len()
                        &&& c != q
                        &&& self.families()[c as int].is_some()
                        &&& self.families()[c as int].unwrap().0 == Some(q as usize)
                    } by {
                        if i < old_children.len() {
                            let c = old_children[i];
                            assert(children[i] == c);
                            assert(c < before.families().len());
                            assert(before.families()[c as int].is_some());
                        }
                    }
                    if q == parent {
                        assert forall|a: int, b: int|
                            0 <= a < children.len() && 0 <= b < children.len() && a
                                != b implies children[a] != children[b] by {
                            if a < old_children.len() && b < old_children.len() {
                                assert(old_children[a] != old_children[b]);
                            } else if a < old_children.len() {
                                assert(old_children[a] < before.families().len());
                            } else {
                                assert(old_children[b] < before.families().len());
                            }
                        }
                    } else {
                        assert(children =~= old_children);
                    }
                }
            }
        }
    }

    /// Takes the tasks of process `pid` out of the ready queue and out of
    /// the timers.
    fn purge(&mut self, pid: usize)
        ensures
            final(self).ready_queue@ == without_pid(old(self).ready_queue@, pid),
            final(self).timers@ == timers_without(old(self).timers@, pid),
            final(self).procs == old(self).procs,
            final(self).frames == old(self).frames,
            final(self).current == old(self).current,
            final(self).now_us == old(self).now_us,
            final(self).fs == old(self).fs,
            final(self).files == old(self).files,
            final(self).apps == old(self).apps,
    {
        let ghost before = *self;
        let mut queue: VecDeque<TaskId> = VecDeque::new();
        let n: usize = self.ready_queue.len();
        let mut i: usize = 0;
        proof {
            assert(before.ready_queue@.take(0) =~= Seq::<TaskId>::empty());
        }
        while i < n
            invariant
                i <= n,
                n == self.ready_queue@.len(),
                *self == before,
                queue@ == without_pid(before.ready_queue@.take(i as int), pid),
            decreases n - i,
        {
            let id: TaskId = self.ready_queue[i];
            proof {
                let next = before.ready_queue@.take(i as int + 1);
                assert(next.drop_last() =~= before.ready_queue@.take(i as int));
                assert(next.last() == id);
            }
            if id.pid != pid {
                queue.push_back(id);
            }
            i = i + 1;
        }
        proof {
            assert(before.ready_queue@.take(n as int) =~= before.ready_queue@);
            assert(before.timers@.take(0) =~= Seq::<TimerEntry>::empty());
        }
        let mut left: Vec<TimerEntry> = Vec::new();
        let m: usize = self.timers.len();
        let mut j: usize = 0;
        while j < m
            invariant
                j <= m,
                m == self.timers@.len(),
                *self == before,
                left@ == timers_without(before.timers@.take(j as int), pid),
            decreases m - j,
        {
            let entry: TimerEntry = self.timers[j];
            proof {
                let next = before.timers@.take(j as int + 1);
                assert(next.drop_last() =~= before.timers@.take(j as int));
                assert(next.last() == entry);
            }
            if entry.task.pid != pid {
                left.push(entry);
            }
            j = j + 1;
        }
        proof {
            assert(before.timers@.take(m as int) =~= before.timers@);
        }
        self.ready_queue = queue;
        self.timers = left;
    }

    /// Whether two kernel states agree on everything but the parents and
    /// children of the processes.
    pub open spec fn same_but_families(&self, before: Self) -> bool {
        &&& self.same_but_procs(before)
        &&& forall|q: int|
            0 <= q < self.procs@.len() ==> (#[trigger] self.procs@[q]).is_some()
                == before.procs@[q].is_some()
        &&& forall|q: int| self.live_proc(q) ==> (#[trigger] self.proc(q)).same_but_family(before.proc(q))
    }

    /// Hands the children of process `pid` over to the first process: each
    /// of them gets it as its parent and joins the end of its children, in
    /// order. The process itself has no child afterwards.
    pub fn reparent(&mut self, pid: usize)
        requires
            old(self).wf(),
            old(self).live_proc(pid as int),
            pid != 0,
        ensures
            final(self).wf(),
            final(self).same_but_families(*old(self)),
            final(self).proc(pid as int).children@.len() == 0,
            final(self).proc(pid as int).parent == old(self).proc(pid as int).parent,
            final(self).proc(0).children@ == old(self).proc(0).children@ + nonzero(
                old(self).proc(pid as int).children@,
            ),
            final(self).proc(0).parent == old(self).proc(0).parent,
            forall|q: int|
                final(self).live_proc(q) && q != 0 && q != pid ==> (#[trigger] final(self).proc(
                    q,
                )).children == old(self).proc(q).children,
            forall|q: int|
                final(self).live_proc(q) && q != 0 && q != pid ==> (#[trigger] final(self).proc(
                    q,
                )).parent == (if old(self).proc(pid as int).children@.contains(q as usize) {
                    Some(0usize)
                } else {
                    old(self).proc(q).parent
                }),
    {
        let ghost before = *self;
        let mut moved: Vec<usize> = Vec::new();
        match &mut self.procs[pid] {
            Some(p) => {
                core::mem::swap(&mut p.children, &mut moved);
            },
            None => {},
        }
        let n: usize = moved.len();
        let mut i: usize = 0;
        proof {
            assert(before.families()[pid as int].is_some());
            assert(moved@ == before.families()[pid as int].unwrap().1);
            assert(moved@.take(0) =~= Seq::<usize>::empty());
            assert(self.proc(0).children@ =~= before.proc(0).children@ + nonzero(moved@.take(0)));
            assert forall|q: int|
                0 <= q < self.families().len() && (#[trigger] self.families()[q]).is_some() implies {
                let children = self.families()[q].unwrap().1;
                &&& children.no_duplicates()
                &&& forall|j: int|
                    0 <= j < children.len() ==> {
                        let c = #[trigger] children[j];
                        &&& c < self.families().len()
                        &&& c != q
                        &&& self.families()[c as int].is_some()
                        &&& self.families()[c as int].unwrap().0 == Some(q as usize)
                    }
            } by {
                if q != pid {
                    assert(before.families()[q].is_some());
                    let children = before.families()[q].unwrap().1;
                    assert(self.families()[q].unwrap().1 == children);
                    assert forall|j: int| 0 <= j < children.len() implies {
                        let c = #[trigger] children[j];
                        &&& c < self.families().len()
                        &&& c != q
                        &&& self.families()[c as int].is_some()
                        &&& self.families()[c as int].unwrap().0 == Some(q as usize)
                    } by {
                        let c = children[j];
                        assert(before.families()[c as int].is_some());
                    }
                }
            }
        }
        while i < n
            invariant
                i <= n,
                n == moved@.len(),
                pid != 0,
                before.wf(),
                before.live_proc(pid as int),
                moved@ == before.proc(pid as int).children@,
                moved@.no_duplicates(),
                self.same_but_families(before),
                self.proc(pid as int).children@.len() == 0,
                self.proc(pid as int).parent == before.proc(pid as int).parent,
                self.proc(0).parent == before.proc(0).parent,
                self.proc(0).children@ == before.proc(0).children@ + nonzero(moved@.take(i as int)),
                tree_ok(self.families()),
                forall|j: int|
                    0 <= j < n ==> (#[trigger] moved@[j]) < self.procs@.len() && self.live_proc(
                        moved@[j] as int,
                    ) && moved@[j] != pid,
                forall|j: int|
                    i <= j < n ==> self.proc((#[trigger] moved@[j]) as int).parent == Some(pid),
                forall|q: int|
                    self.live_proc(q) && q != 0 && q != pid ==> (#[trigger] self.proc(q)).children
                        == before.proc(q).children,
                forall|q: int|
                    self.live_proc(q) && q != 0 && q != pid ==> (#[trigger] self.proc(q)).parent == (
                    if exists|j: int| 0 <= j < i && moved@[j] == q {
                        Some(0usize)
                    } else {
                        before.proc(q).parent
                    }),
            decreases n - i,
        {
            let c: usize = moved[i];
            let ghost prev = *self;
            proof {
                let next = moved@.take(i as int + 1);
                assert(next.drop_last() =~= moved@.take(i as int));
                assert(next.last() == c);
            }
            if c != 0 {
                match &mut self.procs[c] {
                    Some(child) => {
                        child.parent = Some(0);
                    },
                    None => {},
                }
                match &mut self.procs[0] {
                    Some(init) => {
                        init.children.push(c);
                    },
                    None => {},
                }
                proof {
                    assert(prev.live_proc(0)) by {
                        assert(before.live_proc(0));
                        assert(prev.procs@[0].is_some() == before.procs@[0].is_some());
                    }
                    assert forall|q: int| self.live_proc(q) implies (#[trigger] self.proc(
                        q,
                    )).same_but_family(before.proc(q)) by {
                        assert(prev.live_proc(q));
                        assert(prev.proc(q).same_but_family(before.proc(q)));
                    }
                    assert forall|q: int| 0 <= q < self.procs@.len() implies (
                    #[trigger] self.procs@[q]).is_some() == before.procs@[q].is_some() by {
                        assert(prev.procs@[q].is_some() == before.procs@[q].is_some());
                    }
                    let fam = self.families();
                    let pfam = prev.families();
                    assert(pfam[0].is_some());
                    assert(pfam[c as int].is_some());
                    assert forall|q: int| 0 <= q < fam.len() && q != 0 && q != c implies #[trigger] fam[q]
                        == pfam[q] by {}
                    // nobody lists the child yet
                    assert forall|q: int, j: int|
                        0 <= q < pfam.len() && pfam[q].is_some() && 0 <= j < pfam[q].unwrap().1.len()
                            implies #[trigger] pfam[q].unwrap().1[j] != c by {
                        if pfam[q].unwrap().1[j] == c {
                            assert(pfam[c as int].unwrap().0 == Some(q as usize));
                            assert(prev.proc(c as int).parent == Some(pid));
                            assert(prev.proc(pid as int).children@.len() == 0);
                        }
                    }
                    assert forall|q: int| 0 <= q < fam.len() && (#[trigger] fam[q]).is_some() implies {
                        let children = fam[q].unwrap().1;
                        &&& children.no_duplicates()
                        &&& forall|j: int|
                            0 <= j < children.len() ==> {
                                let x = #[trigger] children[j];
                                &&& x < fam.len()
                                &&& x != q
                                &&& fam[x as int].is_some()
                                &&& fam[x as int].unwrap().0 == Some(q as usize)
                            }
                    } by {
                        assert(pfam[q].is_some());
                        let old_children = pfam[q].unwrap().1;
                        let children = fam[q].unwrap().1;
                        assert(old_children.no_duplicates());
                        if q == 0 {
                            assert(children =~= old_children.push(c));
                            assert forall|a: int, b: int|
                                0 <= a < children.len() && 0 <= b < children.len() && a
                                    != b implies children[a] != children[b] by {
                                if a < old_children.len() && b < old_children.len() {
                                    assert(old_children[a] != old_children[b]);
                                } else if a < old_children.len() {
                                    assert(pfam[0].unwrap().1[a] != c);
                                } else {
                                    assert(pfam[0].unwrap().1[b] != c);
                                }
                            }
                        } else {
                            assert(children == old_children);
                        }
                        assert forall|j: int| 0 <= j < children.len() implies {
                            let x = #[trigger] children[j];
                            &&& x < fam.len()
                            &&& x != q
                            &&& fam[x as int].is_some()
                            &&& fam[x as int].unwrap().0 == Some(q as usize)
                        } by {
                            if j < old_children.len() {
                                let x = old_children[j];
                                assert(children[j] == x);
                                assert(pfam[q].unwrap().1[j] != c);
                                assert(pfam[x as int].is_some());
                                assert(pfam[x as int].unwrap().0 == Some(q as usize));
                                if x == 0 {
                                    assert(fam[0].unwrap().0 == pfam[0].unwrap().0);
                                }
                            }
                        }
                    }
                    assert forall|j: int| i + 1 <= j < n implies self.proc(
                        (#[trigger] moved@[j]) as int,
                    ).parent == Some(pid) by {
                        assert(moved@[j] != moved@[i as int]);
                        assert(prev.proc(moved@[j] as int).parent == Some(pid));
                        if moved@[j] == 0 {
                            assert(self.proc(0).parent == prev.proc(0).parent);
                        }
                    }
                    assert forall|q: int| self.live_proc(q) && q != 0 && q != pid implies (
                    #[trigger] self.proc(q)).parent == (if exists|j: int|
                        0 <= j < i + 1 && moved@[j] == q {
                        Some(0usize)
                    } else {
                        before.proc(q).parent
                    }) by {
                        assert(prev.live_proc(q));
                        if q == c {
                            assert(moved@[i as int] == q);
                            assert(self.proc(q).parent == Some(0usize));
                        } else {
                            assert(self.procs@[q] == prev.procs@[q]);
                            assert(self.proc(q).parent == prev.proc(q).parent);
                            if exists|j: int| 0 <= j < i + 1 && moved@[j] == q {
                                let j = choose|j: int| 0 <= j < i + 1 && moved@[j] == q;
                                assert(j < i);
                                assert(moved@[j] == q);
                            }
                            if exists|j: int| 0 <= j < i && moved@[j] == q {
                                let j = choose|j: int| 0 <= j < i && moved@[j] == q;
                                assert(moved@[j] == q);
                            }
                        }
                    }
                    assert forall|q: int| self.live_proc(q) && q != 0 && q != pid implies (
                    #[trigger] self.proc(q)).children == before.proc(q).children by {
                        assert(prev.live_proc(q));
                        assert(prev.proc(q).children == before.proc(q).children);
                        if q != c {
                            assert(self.procs@[q] == prev.procs@[q]);
                        }
                    }
                    assert(self.proc(0).children@ =~= before.proc(0).children@ + nonzero(
                        moved@.take(i as int + 1),
                    ));
                }
            } else {
                proof {
                    assert forall|q: int| self.live_proc(q) && q != 0 && q != pid implies (
                    #[trigger] self.proc(q)).parent == (if exists|j: int|
                        0 <= j < i + 1 && moved@[j] == q {
                        Some(0usize)
                    } else {
                        before.proc(q).parent
                    }) by {
                        if exists|j: int| 0 <= j < i + 1 && moved@[j] == q {
                            let j = choose|j: int| 0 <= j < i + 1 && moved@[j] == q;
                            assert(j < i);
                        }
                    }
                }
            }
            i = i + 1;
        }
        proof {
            assert(moved@.take(n as int) =~= moved@);
            assert forall|q: int| 0 <= q < self.procs@.len() implies #[trigger] self.states()[q]
                == before.states()[q] && self.memory_sets()[q] == before.memory_sets()[q]
                && self.fd_tables()[q] == before.fd_tables()[q] by {
                assert(self.procs@[q].is_some() == before.procs@[q].is_some());
                if self.procs@[q].is_some() {
                    assert(self.live_proc(q));
                    assert(self.proc(q).same_but_family(before.proc(q)));
                    assert(self.states()[q].unwrap() =~= before.states()[q].unwrap());
                }
            }
            assert(self.states() =~= before.states());
            assert forall|q: int| 0 <= q < self.procs@.len() implies #[trigger] self.memory_sets()[q]
                == before.memory_sets()[q] by {
                assert(self.procs@[q].is_some() == before.procs@[q].is_some());
                if self.procs@[q].is_some() {
                    assert(self.live_proc(q));
                    assert(self.proc(q).same_but_family(before.proc(q)));
                }
            }
            assert forall|q: int| 0 <= q < self.procs@.len() implies #[trigger] self.fd_tables()[q]
                == before.fd_tables()[q] by {
                assert(self.procs@[q].is_some() == before.procs@[q].is_some());
                if self.procs@[q].is_some() {
                    assert(self.live_proc(q));
                    assert(self.proc(q).same_but_family(before.proc(q)));
                }
            }
            assert(self.memory_sets() =~= before.memory_sets());
            assert(self.fd_tables() =~= before.fd_tables());
            assert forall|q: int| self.live_proc(q) implies (#[trigger] self.proc(q)).wf() && self.proc(
                q,
            ).pid == q by {
                assert(before.live_proc(q));
                assert(before.proc(q).wf());
                self.proc(q).lemma_wf_same_sync(before.proc(q));
            }
            assert forall|q: int| self.live_proc(q) && q != 0 && q != pid implies (#[trigger] self.proc(
                q,
            )).parent == (if before.proc(pid as int).children@.contains(q as usize) {
                Some(0usize)
            } else {
                before.proc(q).parent
            }) by {
                if before.proc(pid as int).children@.contains(q as usize) {
                    let j = choose|j: int| 0 <= j < moved@.len() && moved@[j] == q as usize;
                    assert(moved@[j] == q);
                }
            }
        }
    }

    /// Whether `self` is `before` after the thread that ran, which is not
    /// the first of its process, exited with `code`: it is a zombie with
    /// that exit code, and nobody runs.
    pub open spec fn thread_exited_from(&self, before: Self, code: i32) -> bool {
        let cur = before.current.unwrap();
        &&& self.stepped_from(before, None, None, true)
        &&& self.proc(cur.pid as int).same_but_tasks(before.proc(cur.pid as int))
        &&& self.proc(cur.pid as int).tasks_same_but(before.proc(cur.pid as int), cur.tid as int)
        &&& self.task(cur).task_status is Zombie
        &&& self.task(cur).exit_code == code
        &&& self.task(cur).wait is Nothing
        &&& self.task(cur).pending is Nothing
        &&& self.task(cur).task_cx == before.task(cur).task_cx
        &&& self.task(cur).syscall_times == before.task(cur).syscall_times
        &&& self.task(cur).priority == before.task(cur).priority
        &&& self.task(cur).start_time == before.task(cur).start_time
        &&& self.task(cur).first_run == before.task(cur).first_run
    }

    /// Whether `self` is `before` after the process of the thread that
    /// ran exited with `code`: it is a zombie with that exit code, and so
    /// are all its threads, which are gone from the ready queue and the
    /// timers; its descriptors are closed and its synchronisation objects
    /// gone; its areas are unmapped and their frames handed back; its
    /// children, unless it is the first process, belong to the first
    /// process, and every other process keeps its own; and nobody runs.
    pub open spec fn process_exited_from(&self, before: Self, code: i32) -> bool {
        let pid = before.current.unwrap().pid;
        let p = self.proc(pid as int);
        let q = before.proc(pid as int);
        &&& self.current.is_none()
        &&& self.ready_queue@ == without_pid(before.ready_queue@, pid)
        &&& self.timers@ == timers_without(before.timers@, pid)
        &&& self.now_us == before.now_us
        &&& self.fs == before.fs
        &&& self.files == before.files
        &&& self.apps == before.apps
        &&& self.procs@.len() == before.procs@.len()
        &&& forall|o: int|
            0 <= o < self.procs@.len() ==> (#[trigger] self.procs@[o]).is_some()
                == before.procs@[o].is_some()
        &&& forall|o: int|
            self.live_proc(o) && o != pid ==> (#[trigger] self.proc(o)).same_but_family(
                before.proc(o),
            )
        &&& p.is_zombie
        &&& p.exit_code == code
        &&& p.pid == q.pid
        &&& p.parent == q.parent
        &&& p.fd_table@.len() == 0
        &&& p.tasks@.len() == q.tasks@.len()
        &&& forall|t: int|
            0 <= t < p.tasks@.len() ==> (#[trigger] p.tasks@[t]).task_status is Zombie
                && p.tasks@[t].same_but_state(q.tasks@[t])
        &&& p.mutex_list@.len() == 0
        &&& p.semaphore_list@.len() == 0
        &&& p.condvar_list@.len() == 0
        &&& p.memory_set.areas().len() == 0
        &&& p.memory_set.conserves(q.memory_set, self.frames, before.frames)
        &&& forall|ppn: usize| q.memory_set.owns_data(ppn) ==> self.frames.recycled().contains(ppn)
        &&& pid != 0 ==> {
            &&& p.children@.len() == 0
            &&& self.proc(0).children@ == before.proc(0).children@ + nonzero(q.children@)
            &&& forall|o: int|
                self.live_proc(o) && o != 0 && o != pid ==> (#[trigger] self.proc(o)).parent == (
                if q.children@.contains(o as usize) {
                    Some(0usize)
                } else {
                    before.proc(o).parent
                })
            &&& forall|o: int|
                self.live_proc(o) && o != 0 && o != pid ==> (#[trigger] self.proc(o)).children
                    == before.proc(o).children
        }
        &&& pid == 0 ==> p.children == q.children && forall|o: int|
            self.live_proc(o) && o != pid ==> (#[trigger] self.proc(o)).parent == before.proc(
                o,
            ).parent && self.proc(o).children == before.proc(o).children
    }

    /// The thread that runs exits with `code`. Where it is the first
    /// thread of its process, the whole process exits. Nobody runs
    /// afterwards.
    pub fn exit_current(&mut self, code: i32)
        requires
            old(self).running(),
        ensures
            final(self).wf(),
            final(self).current.is_none(),
            old(self).current.unwrap().tid != 0 ==> final(self).thread_exited_from(*old(self), code),
            old(self).current.unwrap().tid == 0 ==> final(self).process_exited_from(*old(self), code),
    {
        let ghost before = *self;
        let cur = self.current_id();
        if cur.tid != 0 {
            match &mut self.procs[cur.pid] {
                Some(p) => {
                    p.tasks[cur.tid].task_status = TaskStatus::Zombie;
                    p.tasks[cur.tid].exit_code = code;
                    p.tasks[cur.tid].wait = WaitReason::Nothing;
                    p.tasks[cur.tid].pending = crate::task::task::Pending::Nothing;
                },
                None => {},
            }
            proof {
                assert(before.proc(cur.pid as int).tasks@[cur.tid as int].wf());
                self.proc(cur.pid as int).lemma_wf_task_update(
                    before.proc(cur.pid as int),
                    cur.tid as int,
                );
                self.lemma_sync_step(before, cur, None);
            }
            self.settle(None, None, true);
            return ;
        }
        if cur.pid != 0 {
            self.reparent(cur.pid);
        }
        let ghost handed = *self;
        proof {
            assert(handed.current == before.current);
            assert(handed.states() == before.states()) by {
                if cur.pid != 0 {
                    assert forall|q: int| 0 <= q < handed.procs@.len() implies #[trigger] handed.states()[q]
                        == before.states()[q] by {
                        assert(handed.procs@[q].is_some() == before.procs@[q].is_some());
                        if handed.procs@[q].is_some() {
                            assert(handed.live_proc(q));
                            assert(handed.proc(q).same_but_family(before.proc(q)));
                            assert(handed.states()[q].unwrap() =~= before.states()[q].unwrap());
                        }
                    }
                    assert(handed.states() =~= before.states());
                }
            }
            assert(handed.live_proc(cur.pid as int));
            handed.lemma_wf_memory(cur.pid as int);
        }
        match &mut self.procs[cur.pid] {
            Some(p) => {
                p.terminate(code);
                p.memory_set.recycle_data_pages(&mut self.frames);
            },
            None => {},
        }
        let ghost ended = *self;
        self.purge(cur.pid);
        self.current = None;
        proof {
            let pid = cur.pid as int;
            assert(self.procs@ == ended.procs@);
            // the processes
            assert forall|q: int| self.live_proc(q) implies (#[trigger] self.proc(q)).wf() && self.proc(
                q,
            ).pid == q by {
                if q != pid {
                    assert(handed.live_proc(q));
                    assert(handed.proc(q).wf());
                } else {
                    assert(handed.proc(q).pid == q);
                    self.proc(q).lemma_wf_same_sync_lists(ended.proc(q));
                }
            }
            // the address spaces
            assert forall|q: int| 0 <= q < handed.procs@.len() && q != pid implies #[trigger] self.memory_sets()[q]
                == handed.memory_sets()[q] by {}
            lemma_mem_step(
                handed.frames,
                handed.memory_sets(),
                self.frames,
                self.memory_sets(),
                pid,
            );
            // the open files and the families
            assert forall|q: int| 0 <= q < handed.procs@.len() && q != pid implies #[trigger] self.fd_tables()[q]
                == handed.fd_tables()[q] by {}
            lemma_files_table(
                handed.fd_tables(),
                self.fd_tables(),
                handed.files@,
                self.files@,
                self.fs,
                pid,
            );
            assert(self.families() =~= handed.families());
            // the schedule and the timers
            assert forall|q: int| 0 <= q < handed.procs@.len() && q != pid implies #[trigger] self.states()[q]
                == handed.states()[q] by {}
            lemma_sched_exit(
                handed.ready_queue@,
                handed.current,
                handed.timers@,
                handed.states(),
                self.states(),
                cur.pid,
            );
            assert forall|o: int| 0 <= o < self.procs@.len() implies (#[trigger] self.procs@[o]).is_some()
                == before.procs@[o].is_some() by {
                assert(handed.procs@[o].is_some() == before.procs@[o].is_some());
            }
            assert forall|o: int| self.live_proc(o) && o != pid implies (#[trigger] self.proc(
                o,
            )).same_but_family(before.proc(o)) by {
                assert(handed.live_proc(o));
                assert(self.procs@[o] == handed.procs@[o]);
                if cur.pid != 0 {
                    assert(handed.proc(o).same_but_family(before.proc(o)));
                }
            }
            assert forall|t: int| 0 <= t < self.proc(pid).tasks@.len() implies (
            #[trigger] self.proc(pid).tasks@[t]).task_status is Zombie && self.proc(
                pid,
            ).tasks@[t].same_but_state(before.proc(pid).tasks@[t]) by {
                assert(handed.proc(pid).tasks == before.proc(pid).tasks);
            }
            if cur.pid != 0 {
                assert forall|o: int| self.live_proc(o) && o != 0 && o != pid implies (
                #[trigger] self.proc(o)).parent == (if before.proc(pid).children@.contains(
                    o as usize,
                ) {
                    Some(0usize)
                } else {
                    before.proc(o).parent
                }) by {
                    assert(handed.live_proc(o));
                    assert(self.procs@[o] == handed.procs@[o]);
                    assert(handed.proc(o).parent == (if before.proc(pid).children@.contains(
                        o as usize,
                    ) {
                        Some(0usize)
                    } else {
                        before.proc(o).parent
                    }));
                }
                assert(self.procs@[0] == handed.procs@[0]);
                assert forall|o: int| self.live_proc(o) && o != 0 && o != pid implies (
                #[trigger] self.proc(o)).children == before.proc(o).children by {
                    assert(handed.live_proc(o));
                    assert(self.procs@[o] == handed.procs@[o]);
                    assert(handed.proc(o).children == before.proc(o).children);
                }
            } else {
                assert forall|o: int| self.live_proc(o) && o != pid implies (#[trigger] self.proc(
                    o,
                )).parent == before.proc(o).parent && self.proc(o).children == before.proc(
                    o,
                ).children by {
                    assert(self.procs@[o] == handed.procs@[o]);
                }
            }
        }
    }

    /// Whether process `c` can be collected by its parent: it is not the
    /// first process, it has exited, and all its threads are zombies.
    pub open spec fn reapable(&self, c: int) -> bool {
        &&& c != 0
        &&& self.live_proc(c)
        &&& self.proc(c).is_zombie
        &&& forall|t: int|
            0 <= t < self.proc(c).tasks@.len() ==> (#[trigger] self.proc(c).tasks@[t]).task_status is Zombie
    }

    /// Whether process `c` can be collected by its parent.
    pub fn is_reapable(&self, c: usize) -> (b: bool)
        ensures
            b == self.reapable(c as int),
    {
        if c == 0 || c >= self.procs.len() {
            return false;
        }
        match &self.procs[c] {
            None => false,
            Some(p) => {
                if !p.is_zombie {
                    return false;
                }
                let mut t: usize = 0;
                while t < p.tasks.len()
                    invariant
                        t <= p.tasks@.len(),
                        *p == self.proc(c as int),
                        forall|u: int| 0 <= u < t ==> (#[trigger] p.tasks@[u]).task_status is Zombie,
                    decreases p.tasks@.len() - t,
                {
                    match p.tasks[t].task_status {
                        TaskStatus::Zombie => {},
                        _ => {
                            proof {
                                assert(!(self.proc(c as int).tasks@[t as int].task_status is Zombie));
                            }
                            return false;
                        },
                    }
                    t = t + 1;
                }
                true
            },
        }
    }

    /// Whether `self` is `before` after process `c`, a child of process
    /// `parent` at the place `idx` of its children, was collected: the
    /// process is gone, its parent lists it no longer, and its frames are
    /// free.
    pub open spec fn reaped_from(&self, before: Self, parent: int, idx: int, c: int) -> bool {
        &&& self.same_but_frames(before)
        &&& self.fs == before.fs
        &&& self.files == before.files
        &&& self.procs@.len() == before.procs@.len()
        &&& self.procs@[c].is_none()
        &&& forall|q: int|
            0 <= q < self.procs@.len() && q != c && q != parent ==> #[trigger] self.procs@[q]
                == before.procs@[q]
        &&& self.live_proc(parent)
        &&& self.proc(parent).same_but_children(before.proc(parent))
        &&& self.proc(parent).tasks == before.proc(parent).tasks
        &&& self.proc(parent).children@ == before.proc(parent).children@.remove(idx)
        &&& self.frames.base() == before.frames.base()
        &&& self.frames.end() == before.frames.end()
        &&& forall|p: usize|
            #[trigger] self.frames.is_free(p) <==> before.frames.is_free(p) || before.proc(
                c,
            ).memory_set.owns(p)
        &&& forall|p: usize|
            before.frames.in_range(p) ==> #[trigger] self.frames.page(p) == before.frames.page(p)
    }

    /// Collects the child at the place `idx` of the children of process
    /// `parent`, which has exited: the child leaves the table of
    /// processes and the list of its parent, and every frame of its
    /// address space is handed back. Returns its exit code.
    pub fn reap(&mut self, parent: usize, idx: usize) -> (code: i32)
        requires
            old(self).wf(),
            old(self).live_proc(parent as int),
            idx < old(self).proc(parent as int).children@.len(),
            old(self).reapable(old(self).proc(parent as int).children@[idx as int] as int),
        ensures
            final(self).wf(),
            code == old(self).proc(
                old(self).proc(parent as int).children@[idx as int] as int,
            ).exit_code,
            final(self).reaped_from(
                *old(self),
                parent as int,
                idx as int,
                old(self).proc(parent as int).children@[idx as int] as int,
            ),
    {
        let ghost before = *self;
        let ghost c = before.proc(parent as int).children@[idx as int];
        proof {
            assert(before.families()[parent as int].is_some());
            assert(before.families()[parent as int].unwrap().1[idx as int] == c);
            assert(c != parent);
            before.lemma_wf_memory(c as int);
        }
        let child: usize = match &mut self.procs[parent] {
            Some(p) => p.children.remove(idx),
            None => 0,
        };
        let mut slot: Option<ProcessControlBlock> = None;
        core::mem::swap(&mut self.procs[child], &mut slot);
        let dead: ProcessControlBlock = slot.unwrap();
        let code: i32 = dead.exit_code;
        dead.memory_set.destroy(&mut self.frames);
        proof {
            let pid = c as int;
            // the schedule and the timers
            assert forall|q: int| 0 <= q < self.procs@.len() implies #[trigger] self.states()[q]
                == before.states().update(pid, None)[q] by {
                if q == parent {
                    assert(self.states()[q].unwrap() =~= before.states()[q].unwrap());
                }
            }
            assert(self.states() =~= before.states().update(pid, None));
            assert forall|t: int| 0 <= t < before.states()[pid].unwrap().len() implies (
            #[trigger] before.states()[pid].unwrap()[t]).0 is Zombie by {
                assert(before.proc(pid).tasks@[t].task_status is Zombie);
            }
            lemma_states_reap(
                before.ready_queue@,
                before.current,
                before.timers@,
                before.states(),
                pid,
            );
            // the address spaces
            assert(self.memory_sets() =~= before.memory_sets().update(pid, None));
            lemma_mem_death(before.frames, before.memory_sets(), self.frames, pid);
            // the processes
            assert forall|q: int| self.live_proc(q) implies (#[trigger] self.proc(q)).wf() && self.proc(
                q,
            ).pid == q by {
                assert(before.live_proc(q));
                assert(before.proc(q).wf());
                if q == parent {
                    self.proc(q).lemma_wf_same_sync(before.proc(q));
                }
            }
            assert(before.live_proc(0));
            // the open files
            assert forall|q: int, fd: int|
                0 <= q < self.fd_tables().len() && self.fd_tables()[q].is_some() && 0 <= fd
                    < self.fd_tables()[q].unwrap().len() && (
                #[trigger] self.fd_tables()[q].unwrap()[fd]).is_some()
                    implies self.fd_tables()[q].unwrap()[fd].unwrap() < self.files@.len() by {
                assert(before.fd_tables()[q].is_some());
                assert(before.fd_tables()[q].unwrap()[fd].is_some());
            }
            // the families
            let fam = self.families();
            let pfam = before.families();
            assert forall|q: int| 0 <= q < fam.len() && (#[trigger] fam[q]).is_some() implies {
                let children = fam[q].unwrap().1;
                &&& children.no_duplicates()
                &&& forall|j: int|
                    0 <= j < children.len() ==> {
                        let x = #[trigger] children[j];
                        &&& x < fam.len()
                        &&& x != q
                        &&& fam[x as int].is_some()
                        &&& fam[x as int].unwrap().0 == Some(q as usize)
                    }
            } by {
                assert(pfam[q].is_some());
                let old_children = pfam[q].unwrap().1;
                let children = fam[q].unwrap().1;
                assert(old_children.no_duplicates());
                if q == parent {
                    assert(children =~= old_children.remove(idx as int));
                    assert forall|a: int, b: int|
                        0 <= a < children.len() && 0 <= b < children.len() && a
                            != b implies children[a] != children[b] by {
                        let oa = if a < idx { a } else { a + 1 };
                        let ob = if b < idx { b } else { b + 1 };
                        assert(old_children[oa] != old_children[ob]);
                    }
                } else {
                    assert(children == old_children);
                }
                assert forall|j: int| 0 <= j < children.len() implies {
                    let x = #[trigger] children[j];
                    &&& x < fam.len()
                    &&& x != q
                    &&& fam[x as int].is_some()
                    &&& fam[x as int].unwrap().0 == Some(q as usize)
                } by {
                    let oj = if q == parent && j >= idx { j + 1 } else { j };
                    let x = old_children[oj];
                    assert(children[j] == x);
                    assert(pfam[x as int].is_some());
                    assert(pfam[x as int].unwrap().0 == Some(q as usize));
                    if x == c {
                        assert(pfam[c as int].unwrap().0 == Some(parent));
                        assert(q == parent);
                        assert(old_children[oj] != old_children[idx as int]);
                    }
                    if x == parent {
                        assert(fam[x as int].unwrap().0 == pfam[x as int].unwrap().0);
                    }
                }
            }
        }
        code
    }

    /// A kernel over the frames `[base_ppn, end_ppn)` with an empty
    /// filesystem of room for `max_inodes` inodes, the applications `apps`,
    /// and one process, made of the application with index `init`, whose
    /// thread is ready. Nobody runs yet. `None` exactly when that
    /// application cannot be laid out or costs more frames than there are.
    pub fn new(base_ppn: usize, end_ppn: usize, max_inodes: usize, apps: Vec<AppImage>, init: usize) -> (r:
        Option<Self>)
        requires
            base_ppn <= end_ppn,
            1 <= max_inodes <= u32::MAX,
            init < apps@.len(),
        ensures
            r.is_some() == (apps@[init as int].wf() && end_ppn - base_ppn >= apps@[init as int].cost()),
            r.is_some() ==> {
                let k = r.unwrap();
                &&& k.wf()
                &&& k.current.is_none()
                &&& k.ready_queue@ == seq![TaskId { pid: 0, tid: 0 }]
                &&& k.timers@.len() == 0
                &&& k.now_us == 0
                &&& k.files@.len() == 0
                &&& k.apps == apps
                &&& k.fs.inode_count() == 1
                &&& k.fs.capacity() == max_inodes
                &&& k.fs.dir().len() == 0
                &&& k.procs@.len() == 1
                &&& k.live_proc(0)
                &&& k.proc(0).pid == 0
                &&& k.proc(0).parent.is_none()
                &&& k.proc(0).fresh()
                &&& k.proc(0).memory_set.laid_out_as(apps@[init as int])
                &&& k.proc(0).memory_set.shows_image(apps@[init as int], k.frames)
                &&& k.proc(0).heap_bottom == apps@[init as int].stack_top() * crate::config::PAGE_SIZE
                &&& k.proc(0).program_brk == k.proc(0).heap_bottom
                &&& k.proc(0).fd_table@.len() == 0
                &&& forall|i: int|
                    0 <= i < apps@[init as int].segments@.len() ==> k.proc(0).memory_set.holds_at(
                        k.frames,
                        (#[trigger] apps@[init as int].segments@[i]).start_va,
                        apps@[init as int].segments@[i].data@,
                    )
            },
    {
        let mut frames = FrameAllocator::new(base_ppn, end_ppn);
        let ghost frames0 = frames;
        let (ms, user_sp, entry) = match MemorySet::from_elf(&apps[init], &mut frames) {
            None => {
                return None;
            },
            Some(made) => made,
        };
        let task = TaskControlBlock::new(entry, user_sp, 0);
        let p = ProcessControlBlock::new(0, None, ms, user_sp, user_sp, Vec::new(), task);
        let mut procs: Vec<Option<ProcessControlBlock>> = Vec::new();
        procs.push(Some(p));
        let mut ready_queue: VecDeque<TaskId> = VecDeque::new();
        let id = TaskId { pid: 0, tid: 0 };
        ready_queue.push_back(id);
        let k = Kernel {
            frames,
            procs,
            ready_queue,
            current: None,
            timers: Vec::new(),
            now_us: 0,
            fs: FileSystem::new(max_inodes),
            files: Vec::new(),
            apps,
        };
        proof {
            assert(k.ready_queue@ =~= seq![id]);
            assert(k.live_proc(0));
            assert(task_live(k.states(), id));
            assert(state_of(k.states(), id).0 is Ready);
            assert forall|other: TaskId| task_live(k.states(), other) implies other == id by {
                assert(other.pid == 0);
                assert(k.states()[0].unwrap().len() == 1);
            }
            assert(k.memory_sets() =~= seq![Some(ms)]);
            frames0.lemma_wf();
            assert(k.families()[0].unwrap().1 =~= Seq::<usize>::empty());
        }
        Some(k)
    }

    /// Whether `self` is `before` with one more thread in the process of
    /// the task that runs, at the end of the ready queue.
    pub open spec fn thread_created_from(&self, before: Self, task: TaskControlBlock) -> bool {
        let cur = before.current.unwrap();
        &&& self.stepped_from(
            before,
            Some(TaskId { pid: cur.pid, tid: before.cur_proc().tasks@.len() as usize }),
            None,
            false,
        )
        &&& self.proc(cur.pid as int).thread_added_from(before.cur_proc(), task)
    }

    /// Starts a thread in the process of the task that runs: it begins at
    /// `entry` with the stack pointer `sp` and the argument `arg`, and
    /// joins the end of the ready queue. Returns its number in the
    /// process; `None`, and no change, exactly when the number cannot be
    /// written as a signed number.
    pub fn thread_create(&mut self, entry: usize, sp: usize, arg: isize) -> (r: Option<usize>)
        requires
            old(self).running(),
        ensures
            final(self).running(),
            r.is_some() == (old(self).cur_proc().tasks@.len() < isize::MAX),
            r.is_none() ==> *final(self) == *old(self),
            r.is_some() ==> {
                &&& r.unwrap() == old(self).cur_proc().tasks@.len()
                &&& final(self).thread_created_from(
                    *old(self),
                    final(self).cur_proc().tasks@[r.unwrap() as int],
                )
                &&& final(self).cur_proc().tasks@[r.unwrap() as int].task_cx == (
                crate::task::task::TaskContext { sepc: entry, sp, a0: arg })
                &&& final(self).cur_proc().tasks@[r.unwrap() as int].task_status is Ready
                &&& final(self).cur_proc().tasks@[r.unwrap() as int].first_run
            },
    {
        let ghost before = *self;
        let cur = self.current_id();
        if self.current_process().tasks.len() >= isize::MAX as usize {
            return None;
        }
        let task = TaskControlBlock::new(entry, sp, arg);
        let ghost made = task;
        let tid: usize = match &mut self.procs[cur.pid] {
            Some(p) => p.add_thread(task),
            None => 0,
        };
        let id = TaskId { pid: cur.pid, tid };
        proof {
            let pid = cur.pid as int;
            let state = (TaskStatus::Ready, WaitReason::Nothing);
            self.lemma_parts_same(before, pid);
            let want = before.states().update(
                pid,
                Some(before.states()[pid].unwrap().push(state)),
            );
            assert forall|q: int| 0 <= q < self.procs@.len() implies #[trigger] self.states()[q]
                == want[q] by {
                if q == pid {
                    assert(self.states()[q].unwrap() =~= want[q].unwrap());
                }
            }
            assert(self.states() =~= want);
            lemma_states_thread(
                before.ready_queue@,
                before.current,
                before.timers@,
                before.states(),
                pid,
                state,
            );
            if before.ready_queue@.contains(id) {
                let i = choose|i: int| 0 <= i < before.ready_queue@.len() && before.ready_queue@[i] == id;
                assert(task_live(before.states(), before.ready_queue@[i]));
            }
        }
        self.settle(Some(id), None, false);
        Some(tid)
    }

    /// Whether `self` is `before` after the task that ran went to sleep
    /// until `expire_ms`: it is blocked on its timer, which stands among
    /// the timers behind those due no later, and nobody runs.
    pub open spec fn slept_from(&self, before: Self, expire_ms: usize) -> bool {
        let cur = before.current.unwrap();
        &&& self.current.is_none()
        &&& self.ready_queue == before.ready_queue
        &&& self.timers@ == before.timers@.insert(
            timer_place(before.timers@, expire_ms, 0),
            TimerEntry { expire_ms, task: cur },
        )
        &&& self.frames == before.frames
        &&& self.now_us == before.now_us
        &&& self.fs == before.fs
        &&& self.files == before.files
        &&& self.apps == before.apps
        &&& self.procs_same_but(before, cur.pid as int)
        &&& self.proc(cur.pid as int).same_but_tasks(before.proc(cur.pid as int))
        &&& self.proc(cur.pid as int).tasks_same_but(before.proc(cur.pid as int), cur.tid as int)
        &&& self.task(cur).task_status is Blocked
        &&& self.task(cur).wait is Timer
        &&& self.task(cur).pending == before.task(cur).pending
        &&& self.task(cur).same_but_state(before.task(cur))
    }

    /// Puts the task that runs to sleep until the clock reads `expire_ms`
    /// milliseconds. Nobody runs afterwards.
    pub fn sleep_current(&mut self, expire_ms: usize)
        requires
            old(self).running(),
        ensures
            final(self).wf(),
            final(self).slept_from(*old(self), expire_ms),
    {
        let ghost before = *self;
        let cur = self.current_id();
        match &mut self.procs[cur.pid] {
            Some(p) => {
                p.tasks[cur.tid].task_status = TaskStatus::Blocked;
                p.tasks[cur.tid].wait = WaitReason::Timer;
            },
            None => {},
        }
        proof {
            assert(before.proc(cur.pid as int).tasks@[cur.tid as int].wf());
            self.proc(cur.pid as int).lemma_wf_timer_task(before.proc(cur.pid as int), cur.tid as int);
            self.lemma_sync_step(before, cur, None);
            lemma_timer_place(before.timers@, expire_ms, 0);
        }
        let mut place: usize = 0;
        while place < self.timers.len() && self.timers[place].expire_ms <= expire_ms
            invariant
                place <= self.timers@.len(),
                timer_place(self.timers@, expire_ms, 0) == timer_place(
                    self.timers@,
                    expire_ms,
                    place as int,
                ),
            decreases self.timers@.len() - place,
        {
            place = place + 1;
        }
        let ghost blocked = *self;
        self.timers.insert(place, TimerEntry { expire_ms, task: cur });
        self.current = None;
        proof {
            let timers = self.timers@;
            let old_timers = before.timers@;
            assert(self.states() =~= blocked.states());
            assert(self.memory_sets() =~= blocked.memory_sets());
            assert(self.fd_tables() =~= blocked.fd_tables());
            assert(self.families() =~= blocked.families());
            assert forall|q: int| self.live_proc(q) implies (#[trigger] self.proc(q)).wf() && self.proc(
                q,
            ).pid == q by {
                assert(blocked.live_proc(q));
                assert(blocked.proc(q).wf());
            }
            assert(task_live(self.states(), cur));
            assert forall|i: int| 0 <= i < old_timers.len() implies (#[trigger] old_timers[i]).task
                != cur by {
                assert(task_live(before.states(), old_timers[i].task));
                assert(state_of(before.states(), old_timers[i].task).0 is Blocked);
                assert(state_of(before.states(), cur).0 is Running);
            }
            assert forall|i: int| 0 <= i < timers.len() implies #[trigger] timers[i] == (if i < place {
                old_timers[i]
            } else if i == place {
                TimerEntry { expire_ms, task: cur }
            } else {
                old_timers[i - 1]
            }) by {}
            assert forall|i: int| 0 <= i < timers.len() implies task_live(
                self.states(),
                (#[trigger] timers[i]).task,
            ) && state_of(self.states(), timers[i].task).0 is Blocked && state_of(
                self.states(),
                timers[i].task,
            ).1 is Timer by {
                if i < place {
                    assert(task_live(blocked.states(), old_timers[i].task));
                } else if i > place {
                    assert(task_live(blocked.states(), old_timers[i - 1].task));
                }
            }
            assert forall|i: int, j: int|
                0 <= i < timers.len() && 0 <= j < timers.len() && i != j implies (
            #[trigger] timers[i]).task != (#[trigger] timers[j]).task by {
                let oi = if i < place { i } else { i - 1 };
                let oj = if j < place { j } else { j - 1 };
                if i != place && j != place {
                    assert(old_timers[oi].task != old_timers[oj].task);
                } else if i == place {
                    assert(old_timers[oj].task != cur);
                } else {
                    assert(old_timers[oi].task != cur);
                }
            }
            assert forall|i: int, j: int| 0 <= i < j < timers.len() implies (
            #[trigger] timers[i]).expire_ms <= (#[trigger] timers[j]).expire_ms by {
                let oi = if i < place { i } else { i - 1 };
                let oj = if j < place { j } else { j - 1 };
                if i != place && j != place {
                    assert(old_timers[oi].expire_ms <= old_timers[oj].expire_ms);
                } else if i == place {
                    assert(old_timers[place as int].expire_ms > expire_ms);
                    if oj > place {
                        assert(old_timers[place as int].expire_ms <= old_timers[oj].expire_ms);
                    }
                } else {
                    assert(old_timers[oi].expire_ms <= expire_ms);
                }
            }
        }
    }

    /// Whether the tasks of `self` are those of `before` but for the tasks
    /// of the timers `due`, which were woken: each is ready and waits for
    /// nothing.
    pub open spec fn woke_from(&self, before: Self, due: Seq<TimerEntry>) -> bool {
        &&& self.procs@.len() == before.procs@.len()
        &&& forall|pid: int|
            0 <= pid < self.procs@.len() ==> (#[trigger] self.procs@[pid]).is_some()
                == before.procs@[pid].is_some()
        &&& forall|pid: int|
            self.live_proc(pid) ==> (#[trigger] self.proc(pid)).same_but_tasks(before.proc(pid))
                && self.proc(pid).tasks@.len() == before.proc(pid).tasks@.len()
        &&& forall|i: int|
            0 <= i < due.len() ==> before.live((#[trigger] due[i]).task) && self.task(
                due[i].task,
            ).woken_from(before.task(due[i].task))
        &&& forall|other: TaskId|
            before.live(other) && !timer_tasks(due).contains(other) ==> #[trigger] self.task(other)
                == before.task(other)
    }

    /// Sets the clock to `now_us` microseconds, unless it is ahead
    /// already, and wakes every task whose timer is due: it leaves the
    /// timers and joins the end of the ready queue, the earliest first.
    pub fn tick(&mut self, now_us: usize)
        requires
            old(self).wf(),
        ensures
            final(self).wf(),
            final(self).current == old(self).current,
            final(self).now_us == (if now_us > old(self).now_us {
                now_us
            } else {
                old(self).now_us
            }),
            final(self).timers@ == old(self).timers@.skip(
                due_count(old(self).timers@, final(self).now_ms(), 0),
            ),
            final(self).ready_queue@ == old(self).ready_queue@ + timer_tasks(
                old(self).timers@.take(due_count(old(self).timers@, final(self).now_ms(), 0)),
            ),
            final(self).timers@.len() > 0 ==> final(self).timers@[0].expire_ms > final(self).now_ms(),
            final(self).frames == old(self).frames,
            final(self).fs == old(self).fs,
            final(self).files == old(self).files,
            final(self).apps == old(self).apps,
            final(self).woke_from(
                *old(self),
                old(self).timers@.take(due_count(old(self).timers@, final(self).now_ms(), 0)),
            ),
    {
        let ghost before = *self;
        if now_us > self.now_us {
            self.now_us = now_us;
        }
        let now: usize = self.get_time_ms();
        let ghost mut woken: int = 0;
        proof {
            self.lemma_wf_parts_keep(before);
            assert(before.timers@.skip(0) =~= before.timers@);
            assert(before.timers@.take(0) =~= Seq::<TimerEntry>::empty());
            assert(self.procs@ == before.procs@);
            assert(before.ready_queue@ + timer_tasks(before.timers@.take(0)) =~= before.ready_queue@);
        }
        while self.timers.len() > 0 && self.timers[0].expire_ms <= now
            invariant
                self.wf(),
                now == self.now_ms(),
                self.current == before.current,
                self.now_us == (if now_us > before.now_us {
                    now_us
                } else {
                    before.now_us
                }),
                0 <= woken <= before.timers@.len(),
                self.timers@ == before.timers@.skip(woken),
                self.ready_queue@ == before.ready_queue@ + timer_tasks(before.timers@.take(woken)),
                due_count(before.timers@, now, 0) == woken + due_count(before.timers@, now, woken),
                self.frames == before.frames,
                self.fs == before.fs,
                self.files == before.files,
                self.apps == before.apps,
                before.wf(),
                self.woke_from(before, before.timers@.take(woken)),
            decreases self.timers@.len(),
        {
            let ghost prev = *self;
            let entry: TimerEntry = self.timers.remove(0);
            let id: TaskId = entry.task;
            proof {
                assert(prev.timers@[0] == entry);
                assert(task_live(prev.states(), prev.timers@[0].task));
                assert(state_of(prev.states(), id).0 is Blocked);
                assert(state_of(prev.states(), id).1 is Timer);
                assert(prev.live(id));
                assert(prev.proc(id.pid as int).wf());
                assert(prev.proc(id.pid as int).tasks@[id.tid as int].wf());
            }
            match &mut self.procs[id.pid] {
                Some(p) => {
                    p.wake(id.tid);
                },
                None => {},
            }
            self.ready_queue.push_back(id);
            proof {
                let state = (self.task(id).task_status, self.task(id).wait);
                self.proc(id.pid as int).lemma_wf_timer_task(prev.proc(id.pid as int), id.tid as int);
                self.lemma_parts_same(prev, id.pid as int);
                self.lemma_states_changed(prev, id);
                lemma_sched_wake(
                    prev.ready_queue@,
                    prev.current,
                    prev.states(),
                    self.states(),
                    id,
                    state,
                );
                assert(task_live(self.states(), id));
                lemma_sched_push(prev.ready_queue@, prev.current, self.states(), id);
                let rest = self.timers@;
                assert(rest =~= prev.timers@.skip(1));
                assert forall|i: int| 0 <= i < rest.len() implies task_live(
                    self.states(),
                    (#[trigger] rest[i]).task,
                ) && state_of(self.states(), rest[i].task).0 is Blocked && state_of(
                    self.states(),
                    rest[i].task,
                ).1 is Timer by {
                    assert(rest[i] == prev.timers@[i + 1]);
                    assert(prev.timers@[i + 1].task != prev.timers@[0].task);
                    assert(task_live(prev.states(), prev.timers@[i + 1].task));
                }
                assert forall|i: int, j: int|
                    0 <= i < rest.len() && 0 <= j < rest.len() && i != j implies (
                #[trigger] rest[i]).task != (#[trigger] rest[j]).task by {
                    assert(prev.timers@[i + 1].task != prev.timers@[j + 1].task);
                }
                assert forall|i: int, j: int| 0 <= i < j < rest.len() implies (
                #[trigger] rest[i]).expire_ms <= (#[trigger] rest[j]).expire_ms by {
                    assert(prev.timers@[i + 1].expire_ms <= prev.timers@[j + 1].expire_ms);
                }
                assert(before.timers@[woken] == entry);
                let due = before.timers@.take(woken);
                let more = before.timers@.take(woken + 1);
                assert(more[woken] == entry);
                assert forall|i: int| 0 <= i < woken implies (#[trigger] due[i]).task != id by {
                    assert(before.timers@[i].task != before.timers@[woken].task);
                }
                assert(before.live(id)) by {
                    assert(prev.procs@[id.pid as int].is_some() == before.procs@[id.pid as int].is_some());
                    assert(prev.proc(id.pid as int).tasks@.len() == before.proc(
                        id.pid as int,
                    ).tasks@.len());
                }
                assert(prev.task(id) == before.task(id));
                assert forall|pid: int| 0 <= pid < self.procs@.len() implies (
                #[trigger] self.procs@[pid]).is_some() == before.procs@[pid].is_some() by {
                    assert(prev.procs@[pid].is_some() == before.procs@[pid].is_some());
                }
                assert forall|pid: int| self.live_proc(pid) implies (#[trigger] self.proc(
                    pid,
                )).same_but_tasks(before.proc(pid)) && self.proc(pid).tasks@.len() == before.proc(
                    pid,
                ).tasks@.len() by {
                    assert(prev.live_proc(pid));
                    assert(prev.proc(pid).same_but_tasks(before.proc(pid)));
                }
                assert forall|i: int| 0 <= i < more.len() implies before.live((#[trigger] more[i]).task)
                    && self.task(more[i].task).woken_from(before.task(more[i].task)) by {
                    if i < woken {
                        assert(due[i] == more[i]);
                        assert(before.live(due[i].task));
                        assert(prev.task(due[i].task).woken_from(before.task(due[i].task)));
                        assert(self.task(due[i].task) == prev.task(due[i].task));
                    }
                }
                assert forall|other: TaskId|
                    before.live(other) && !timer_tasks(more).contains(other)
                        implies #[trigger] self.task(other) == before.task(other) by {
                    assert(timer_tasks(more)[woken] == id);
                    assert(other != id);
                    if timer_tasks(due).contains(other) {
                        let i = choose|i: int| 0 <= i < due.len() && timer_tasks(due)[i] == other;
                        assert(timer_tasks(more)[i] == other);
                    }
                    assert(prev.task(other) == before.task(other));
                    assert(prev.live(other));
                }
                assert(self.timers@ =~= before.timers@.skip(woken + 1));
                assert(self.ready_queue@ =~= before.ready_queue@ + timer_tasks(
                    before.timers@.take(woken + 1),
                ));
                woken = woken + 1;
            }
        }
        proof {
            if self.timers@.len() > 0 {
                assert(before.timers@[woken] == self.timers@[0]);
            }
        }
    }

    /// The task that runs is the only one whose status is running, and
    /// every task in the ready queue is ready.
    pub proof fn lemma_one_running(&self)
        requires
            self.wf(),
        ensures
            forall|a: TaskId, b: TaskId|
                self.live(a) && self.live(b) && (#[trigger] self.task(a)).task_status is Running && (
                #[trigger] self.task(b)).task_status is Running ==> a == b,
            forall|a: TaskId|
                self.live(a) && (#[trigger] self.task(a)).task_status is Running ==> self.current
                    == Some(a),
            forall|i: int|
                0 <= i < self.ready_queue@.len() ==> self.live(#[trigger] self.ready_queue@[i])
                    && self.task(self.ready_queue@[i]).task_status is Ready,
    {
        assert forall|a: TaskId|
            self.live(a) && (#[trigger] self.task(a)).task_status is Running implies self.current
            == Some(a) by {
            assert(task_live(self.states(), a));
            assert(state_of(self.states(), a).0 is Running);
        }
        assert forall|i: int| 0 <= i < self.ready_queue@.len() implies self.live(
            #[trigger] self.ready_queue@[i],
        ) && self.task(self.ready_queue@[i]).task_status is Ready by {
            let id = self.ready_queue@[i];
            assert(task_live(self.states(), id));
            assert(state_of(self.states(), id).0 is Ready);
        }
    }

    /// No frame backs two pages, in one address space or in two: the
    /// frame of a page of one area is the frame of no other page of any
    /// area of any process, and it is not free.
    pub proof fn lemma_frame_in_one_area(&self, p: int, i: int, a: int, q: int, j: int, b: int)
        requires
            self.wf(),
            self.live_proc(p),
            self.live_proc(q),
            0 <= i < self.proc(p).memory_set.areas().len(),
            0 <= a < self.proc(p).memory_set.areas()[i].frames().len(),
            0 <= j < self.proc(q).memory_set.areas().len(),
            0 <= b < self.proc(q).memory_set.areas()[j].frames().len(),
            p != q || i != j || a != b,
        ensures
            self.proc(p).memory_set.areas()[i].frames()[a] != self.proc(q).memory_set.areas()[j].frames()[b],
            !self.frames.is_free(self.proc(p).memory_set.areas()[i].frames()[a]),
    {
        let ms_p = self.proc(p).memory_set;
        let ms_q = self.proc(q).memory_set;
        let f = ms_p.areas()[i].frames()[a];
        let g = ms_q.areas()[j].frames()[b];
        assert(self.memory_sets()[p] == Some(ms_p));
        assert(self.memory_sets()[q] == Some(ms_q));
        assert(ms_p.owns_data(f));
        assert(ms_q.owns_data(g));
        assert(ms_p.owns(f));
        if p == q {
            ms_p.lemma_frame_once(i, a, j, b);
        } else {
            if f == g {
                assert(self.memory_sets()[p].unwrap().owns(f));
                assert(self.memory_sets()[q].unwrap().owns(f));
            }
        }
    }
}

} // verus!

//! Process management system calls.

use vstd::prelude::*;
use crate::codec::{le_bytes, to_le_bytes};
use crate::config::{FAILURE, MAX_SYSCALL_NUM, PAGE_SIZE, SYSCALL_GETPID, SYSCALL_GET_TIME, SYSCALL_MMAP, SYSCALL_MUNMAP, SYSCALL_SET_PRIORITY, SYSCALL_TASK_INFO, SYSCALL_YIELD};
use crate::task::task::{bump, TaskStatus};
use crate::mm::memory_set::{ceil_page, floor_page, va_ceil, va_floor, MapPermission, MapType};
use crate::kernel::Kernel;
use crate::loader::AppImage;
use crate::mm::memory_set::MemorySet;
use crate::syscall::fs::path_at;
use crate::task::process::ProcessControlBlock;
use crate::task::task::{TaskContext, TaskControlBlock, TaskId};
use crate::config::{STILL_RUNNING, SYSCALL_EXEC, SYSCALL_EXIT, SYSCALL_SBRK, SYSCALL_SPAWN, SYSCALL_WAITPID};
use crate::mm::memory_set::areas_shrunk;
use crate::kernel::lemma_mem_replace;

verus! {
/// What `sys_getpid` makes of the kernel: whether the call, made in the state
/// `k0`, leaves the state `k1` and returns `r`.
pub open spec fn sys_getpid_post(k0: Kernel, k1: Kernel, r: isize) -> bool {
    &&& k1.running()
    &&& k1.counted_from(k0, SYSCALL_GETPID)
    &&& r == k0.current.unwrap().pid
}

/// Returns the id of the process that the running task belongs to.
pub fn sys_getpid(k: &mut Kernel) -> (r: isize)
    requires
        old(k).running(),
    ensures
        sys_getpid_post(*old(k), *final(k), r),
{
    k.count_syscall(SYSCALL_GETPID);
    let cur = k.current_id();
    cur.pid as isize
}

/// What `sys_set_priority` makes of the kernel: whether the call, made in the state
/// `k0`, leaves the state `k1` and returns `r`.
pub open spec fn sys_set_priority_post(k0: Kernel, k1: Kernel, prio: isize, r: isize) -> bool {
    &&& k1.running()
    &&& r == (if prio <= 1 {
        FAILURE
    } else {
        prio
    })
    &&& k1.same_but_task(k0, k0.current.unwrap())
    &&& k1.task(k0.current.unwrap()).counted_from(
        k0.task(k0.current.unwrap()),
        SYSCALL_SET_PRIORITY,
    )
    &&& k1.task(k0.current.unwrap()).same_but_priority(
        k0.task(k0.current.unwrap()),
    )
    &&& k1.task(k0.current.unwrap()).priority == (if prio <= 1 {
        k0.task(k0.current.unwrap()).priority
    } else {
        prio
    })
}

/// Sets the priority of the running task to `prio` and returns it; fails
/// with -1, and leaves the priority as it is, exactly when `prio` is 1 or
/// less.
pub fn sys_set_priority(k: &mut Kernel, prio: isize) -> (r: isize)
    requires
        old(k).running(),
    ensures
        sys_set_priority_post(*old(k), *final(k), prio, r),
{
    k.count_syscall(SYSCALL_SET_PRIORITY);
    if prio <= 1 {
        return FAILURE;
    }
    let ghost counted = *k;
    let cur = k.current_id();
    match &mut k.procs[cur.pid] {
        Some(p) => {
            p.tasks[cur.tid].priority = prio;
        },
        None => {},
    }
    proof {
        assert(counted.proc(cur.pid as int).tasks@[cur.tid as int].wf());
        k.lemma_task_update(counted, cur);
    }
    prio
}

/// What `sys_yield` makes of the kernel: whether the call, made in the state
/// `k0`, leaves the state `k1` and returns `r`.
pub open spec fn sys_yield_post(k0: Kernel, k1: Kernel, r: isize) -> bool {
    &&& k1.wf()
    &&& r == 0
    &&& k1.stepped_from(k0, None, k0.current, true)
    &&& k1.proc(k0.current.unwrap().pid as int).same_but_tasks(
        k0.proc(k0.current.unwrap().pid as int),
    )
    &&& k1.proc(k0.current.unwrap().pid as int).tasks_same_but(
        k0.proc(k0.current.unwrap().pid as int),
        k0.current.unwrap().tid as int,
    )
    &&& k1.task(k0.current.unwrap()).task_status is Ready
    &&& k1.task(k0.current.unwrap()).same_but_state_and_counters(
        k0.task(k0.current.unwrap()),
    )
    &&& k1.task(k0.current.unwrap()).counted_from(
        k0.task(k0.current.unwrap()),
        SYSCALL_YIELD,
    )
}

/// The running task gives up the processor: it is ready and goes to the
/// end of the ready queue, and nobody runs until the scheduler puts the
/// first task of the queue on the processor. Returns 0.
pub fn sys_yield(k: &mut Kernel) -> (r: isize)
    requires
        old(k).running(),
    ensures
        sys_yield_post(*old(k), *final(k), r),
{
    k.count_syscall(SYSCALL_YIELD);
    k.suspend_current();
    0
}

/// The permissions that the protection bits of `mmap` stand for: bit 0
/// for reading, bit 1 for writing, bit 2 for executing; user access always.
pub open spec fn prot_perm(prot: usize) -> MapPermission {
    MapPermission { r: prot % 2 == 1, w: (prot / 2) % 2 == 1, x: (prot / 4) % 2 == 1, u: true }
}

/// Whether `mmap` maps the range: the start is page-aligned, the
/// protection bits are three at most and not all clear, the end of the
/// range can be written as an address, and the address space of the
/// running task can take a framed area over the pages of the range.
pub open spec fn mmap_ok(k: Kernel, start: usize, len: usize, prot: usize) -> bool {
    &&& start % PAGE_SIZE == 0
    &&& 1 <= prot <= 7
    &&& start + len <= usize::MAX
    &&& k.proc(k.current.unwrap().pid as int).memory_set.can_insert(
        va_floor(start),
        va_ceil((start + len) as usize),
        MapType::Framed,
        prot_perm(prot),
        k.frames,
    )
}

/// What `sys_mmap` makes of the kernel: whether the call, made in the state
/// `k0`, leaves the state `k1` and returns `r`.
pub open spec fn sys_mmap_post(k0: Kernel, k1: Kernel, start: usize, len: usize, prot: usize, r: isize) -> bool {
    &&& k1.running()
    &&& r == (if mmap_ok(k0, start, len, prot) {
        0
    } else {
        FAILURE
    })
    &&& k1.same_but_memory(k0, k0.current.unwrap().pid as int)
    &&& k1.proc(k0.current.unwrap().pid as int).tasks_same_but(
        k0.proc(k0.current.unwrap().pid as int),
        k0.current.unwrap().tid as int,
    )
    &&& k1.task(k0.current.unwrap()).same_but_counters(
        k0.task(k0.current.unwrap()),
    )
    &&& k1.task(k0.current.unwrap()).counted_from(
        k0.task(k0.current.unwrap()),
        SYSCALL_MMAP,
    )
    &&& k1.proc(k0.current.unwrap().pid as int).heap_bottom == k0.proc(
        k0.current.unwrap().pid as int,
    ).heap_bottom
    &&& k1.proc(k0.current.unwrap().pid as int).program_brk == k0.proc(
        k0.current.unwrap().pid as int,
    ).program_brk
    &&& r != 0 ==> k1.frames == k0.frames && k1.proc(
        k0.current.unwrap().pid as int,
    ).memory_set == k0.proc(k0.current.unwrap().pid as int).memory_set
    &&& r == 0 ==> {
        let before = k0.proc(k0.current.unwrap().pid as int).memory_set;
        let after = k1.proc(k0.current.unwrap().pid as int).memory_set;
        let area = after.areas().last();
        &&& after.areas() == before.areas().push(area)
        &&& area.start() == va_floor(start)
        &&& area.end() == va_ceil((start + len) as usize)
        &&& area.map_type() is Framed
        &&& area.perm() == prot_perm(prot)
        &&& after.conserves(before, k1.frames, k0.frames)
        &&& k1.frames.free_count_spec() == k0.frames.free_count_spec() - (va_ceil(
            (start + len) as usize,
        ) - va_floor(start)) - before.page_table().missing_tables(
            va_floor(start),
            va_ceil((start + len) as usize),
        )
        &&& forall|i: int|
            0 <= i < area.frames().len() ==> k1.frames.page(#[trigger] area.frames()[i])
                == crate::mm::frame_allocator::zero_page()
        &&& forall|p: usize|
            k0.frames.is_allocated(p) ==> #[trigger] k1.frames.page(p) == k0.frames.page(p)
    }
}

/// Maps the addresses `[start, start + len)` in the address space of the
/// running task to fresh zeroed frames, with the permissions that `prot`
/// stands for. Returns 0; fails with -1, and maps nothing, exactly when
/// `mmap_ok` does not hold.
pub fn sys_mmap(k: &mut Kernel, start: usize, len: usize, prot: usize) -> (r: isize)
    requires
        old(k).running(),
    ensures
        sys_mmap_post(*old(k), *final(k), start, len, prot, r),
{
    let ghost before = *k;
    k.count_syscall(SYSCALL_MMAP);
    let ghost counted = *k;
    let cur = k.current_id();
    proof {
        assert(counted.memory_sets() =~= before.memory_sets());
        assert(counted.memory_sets()[cur.pid as int].is_some());
    }
    if start % PAGE_SIZE != 0 || prot == 0 || prot > 7 || len > usize::MAX - start {
        return FAILURE;
    }
    let perm = MapPermission {
        r: prot % 2 == 1,
        w: (prot / 2) % 2 == 1,
        x: (prot / 4) % 2 == 1,
        u: false,
    };
    let ok = match &mut k.procs[cur.pid] {
        Some(p) => p.memory_set.insert_framed_area(start, start + len, perm, &mut k.frames),
        None => false,
    };
    if !ok {
        proof {
            assert(k.procs@ =~= counted.procs@);
            k.lemma_wf_parts_keep(counted);
        }
        return FAILURE;
    }
    proof {
        k.lemma_memory_update(counted, cur.pid as int);
    }
    0
}

/// Whether `munmap` unmaps the range: the start is page-aligned, the end
/// of the range can be written as an address, and the first area of the
/// address space of the running task that spans exactly the pages of the
/// range is a framed one.
pub open spec fn munmap_ok(k: Kernel, start: usize, len: usize) -> bool {
    &&& start % PAGE_SIZE == 0
    &&& start + len <= usize::MAX
    &&& k.proc(k.current.unwrap().pid as int).memory_set.can_unmap(
        va_floor(start),
        va_ceil((start + len) as usize),
    )
}

/// What `sys_munmap` makes of the kernel: whether the call, made in the state
/// `k0`, leaves the state `k1` and returns `r`.
pub open spec fn sys_munmap_post(k0: Kernel, k1: Kernel, start: usize, len: usize, r: isize) -> bool {
    &&& k1.running()
    &&& r == (if munmap_ok(k0, start, len) {
        0
    } else {
        FAILURE
    })
    &&& k1.same_but_memory(k0, k0.current.unwrap().pid as int)
    &&& k1.proc(k0.current.unwrap().pid as int).tasks_same_but(
        k0.proc(k0.current.unwrap().pid as int),
        k0.current.unwrap().tid as int,
    )
    &&& k1.task(k0.current.unwrap()).same_but_counters(
        k0.task(k0.current.unwrap()),
    )
    &&& k1.task(k0.current.unwrap()).counted_from(
        k0.task(k0.current.unwrap()),
        SYSCALL_MUNMAP,
    )
    &&& k1.proc(k0.current.unwrap().pid as int).heap_bottom == k0.proc(
        k0.current.unwrap().pid as int,
    ).heap_bottom
    &&& k1.proc(k0.current.unwrap().pid as int).program_brk == k0.proc(
        k0.current.unwrap().pid as int,
    ).program_brk
    &&& r != 0 ==> k1.frames == k0.frames && k1.proc(
        k0.current.unwrap().pid as int,
    ).memory_set == k0.proc(k0.current.unwrap().pid as int).memory_set
    &&& r == 0 ==> {
        let before = k0.proc(k0.current.unwrap().pid as int).memory_set;
        let after = k1.proc(k0.current.unwrap().pid as int).memory_set;
        let idx = before.index_by_range(va_floor(start), va_ceil((start + len) as usize)).unwrap();
        &&& after.areas() == before.areas().remove(idx)
        &&& after.conserves(before, k1.frames, k0.frames)
        &&& k1.frames.recycled() == k0.frames.recycled() + before.areas()[idx].frames()
        &&& k1.frames.free_count_spec() == k0.frames.free_count_spec()
            + before.areas()[idx].frames().len()
        &&& before.areas()[idx].frames().len() == va_ceil((start + len) as usize) - va_floor(start)
        &&& forall|vpn: usize|
            before.areas()[idx].contains(vpn) ==> !(#[trigger] after.page_table().mapped(vpn))
        &&& forall|p: usize|
            k0.frames.in_range(p) ==> #[trigger] k1.frames.page(p) == k0.frames.page(p)
    }
}

/// Unmaps the addresses `[start, start + len)` where an area of the
/// address space of the running task spans exactly that range: the area
/// goes, its pages are no longer valid, and its frames are handed back to
/// the allocator, in order, on top of its recycle stack. Returns 0; fails
/// with -1, and unmaps nothing, exactly when `munmap_ok` does not hold.
pub fn sys_munmap(k: &mut Kernel, start: usize, len: usize) -> (r: isize)
    requires
        old(k).running(),
    ensures
        sys_munmap_post(*old(k), *final(k), start, len, r),
{
    let ghost before = *k;
    k.count_syscall(SYSCALL_MUNMAP);
    let ghost counted = *k;
    let cur = k.current_id();
    proof {
        assert(counted.memory_sets() =~= before.memory_sets());
        assert(counted.memory_sets()[cur.pid as int].is_some());
    }
    if start % PAGE_SIZE != 0 || len > usize::MAX - start {
        return FAILURE;
    }
    let start_vpn: usize = floor_page(start);
    let end_vpn: usize = ceil_page(start + len);
    let ok = match &mut k.procs[cur.pid] {
        Some(p) => p.memory_set.unmap_area(start_vpn, end_vpn, &mut k.frames),
        None => false,
    };
    if !ok {
        proof {
            assert(k.procs@ =~= counted.procs@);
            k.lemma_wf_parts_keep(counted);
        }
        return FAILURE;
    }
    proof {
        let ms = counted.proc(cur.pid as int).memory_set;
        ms.lemma_wf();
        ms.lemma_range_from(start_vpn, end_vpn, 0);
        assert(ms.areas()[ms.index_by_range(start_vpn, end_vpn).unwrap()].wf());
        assert(ms == before.cur_ms());
        k.lemma_memory_update(counted, cur.pid as int);
    }
    0
}

/// A time as seconds and microseconds.
#[derive(Clone, Copy, Debug)]
pub struct TimeVal {
    /// Whole seconds.
    pub sec: usize,
    /// Microseconds beyond the whole seconds.
    pub usec: usize,
}

/// The size of a `TimeVal` in user memory, in bytes.
pub const TIMEVAL_SIZE: usize = 16;

impl TimeVal {
    /// The time that a clock reading in microseconds stands for.
    pub open spec fn from_us_spec(us: usize) -> TimeVal {
        TimeVal { sec: (us / 1_000_000) as usize, usec: (us % 1_000_000) as usize }
    }

    /// The time that a clock reading in microseconds stands for.
    pub fn from_us(us: usize) -> (tv: TimeVal)
        ensures
            tv == Self::from_us_spec(us),
    {
        TimeVal { sec: us / 1_000_000, usec: us % 1_000_000 }
    }

    /// The 16 bytes of the time in user memory: seconds and microseconds
    /// in eight bytes each, lowest byte first.
    pub open spec fn bytes_spec(self) -> Seq<u8> {
        le_bytes(self.sec as int, 8) + le_bytes(self.usec as int, 8)
    }

    /// The time in user memory.
    pub fn to_bytes(&self) -> (bytes: Vec<u8>)
        ensures
            bytes@ == self.bytes_spec(),
            bytes@.len() == TIMEVAL_SIZE,
    {
        let mut out: Vec<u8> = to_le_bytes(self.sec as u64, 8);
        let mut usec: Vec<u8> = to_le_bytes(self.usec as u64, 8);
        out.append(&mut usec);
        out
    }
}

/// What `sys_get_time` makes of the kernel: whether the call, made in the state
/// `k0`, leaves the state `k1` and returns `r`.
pub open spec fn sys_get_time_post(k0: Kernel, k1: Kernel, ts: usize, tz: usize, r: isize) -> bool {
    &&& k1.running()
    &&& k1.same_but_frames(k0)
    &&& k1.frames.same_frames(k0.frames)
    &&& k1.fs == k0.fs
    &&& k1.files == k0.files
    &&& k1.tasks_counted(k0, SYSCALL_GET_TIME)
    &&& r == (if k0.cur_ms().user_range_ok(ts, TIMEVAL_SIZE) {
        0
    } else {
        FAILURE
    })
    &&& r != 0 ==> k1.frames == k0.frames
    &&& r == 0 ==> k1.wrote_user(k0, ts, TimeVal::from_us_spec(k0.now_us).bytes_spec())
}

/// Writes the clock, as seconds and microseconds, into the memory of the
/// running task at `ts`, byte by byte, so that the time may lie across
/// pages. Returns 0; fails with -1, and writes nothing, exactly when the
/// task may not touch some byte of the 16.
pub fn sys_get_time(k: &mut Kernel, ts: usize, _tz: usize) -> (r: isize)
    requires
        old(k).running(),
    ensures
        sys_get_time_post(*old(k), *final(k), ts, _tz, r),
{
    let ghost before = *k;
    k.count_syscall(SYSCALL_GET_TIME);
    proof {
        assert(k.cur_ms() == before.cur_ms());
    }
    let tv = TimeVal::from_us(k.now_us);
    let bytes: Vec<u8> = tv.to_bytes();
    let ok: bool = k.user_write(ts, &bytes);
    proof {
        assert(k.cur_ms() == before.cur_ms());
    }
    if ok {
        0
    } else {
        FAILURE
    }
}

/// What a task is told about itself.
pub struct TaskInfo {
    /// The status of the task.
    pub status: TaskStatus,
    /// How often the task made each system call, by call number.
    pub syscall_times: Vec<u32>,
    /// The time since the task first ran, in milliseconds.
    pub time: usize,
}

/// The size of a `TaskInfo` in user memory, in bytes.
pub const TASK_INFO_SIZE: usize = 2016;

/// The counters in user memory: four bytes each, lowest byte first.
pub open spec fn counters_bytes(counters: Seq<u32>) -> Seq<u8>
    decreases counters.len(),
{
    if counters.len() == 0 {
        Seq::empty()
    } else {
        counters_bytes(counters.drop_last()) + le_bytes(counters.last() as int, 4)
    }
}

/// The bytes of a `TaskInfo` in user memory: the status in four bytes, the
/// 500 counters in four each, four zero bytes, and the time in eight, all
/// lowest byte first.
pub open spec fn task_info_bytes(status: TaskStatus, counters: Seq<u32>, time: usize) -> Seq<u8> {
    le_bytes(status.code(), 4) + counters_bytes(counters) + Seq::new(4, |i: int| 0u8) + le_bytes(
        time as int,
        8,
    )
}

impl TaskInfo {
    /// The record in user memory.
    pub fn to_bytes(&self) -> (bytes: Vec<u8>)
        requires
            self.syscall_times@.len() == MAX_SYSCALL_NUM,
        ensures
            bytes@ == task_info_bytes(self.status, self.syscall_times@, self.time),
            bytes@.len() == TASK_INFO_SIZE,
    {
        let mut out: Vec<u8> = to_le_bytes(self.status.bits() as u64, 4);
        let ghost head = out@;
        let mut i: usize = 0;
        proof {
            assert(self.syscall_times@.take(0) =~= Seq::<u32>::empty());
            assert(out@ =~= head + counters_bytes(self.syscall_times@.take(0)));
        }
        while i < self.syscall_times.len()
            invariant
                i <= self.syscall_times@.len(),
                head.len() == 4,
                out@ == head + counters_bytes(self.syscall_times@.take(i as int)),
                out@.len() == 4 + 4 * i,
            decreases self.syscall_times@.len() - i,
        {
            let mut word: Vec<u8> = to_le_bytes(self.syscall_times[i] as u64, 4);
            proof {
                let next = self.syscall_times@.take(i as int + 1);
                assert(next.drop_last() =~= self.syscall_times@.take(i as int));
                assert(next.last() == self.syscall_times@[i as int]);
                assert(head + counters_bytes(self.syscall_times@.take(i as int)) + word@ =~= head
                    + counters_bytes(next));
            }
            out.append(&mut word);
            i = i + 1;
        }
        proof {
            assert(self.syscall_times@.take(i as int) =~= self.syscall_times@);
        }
        let ghost counted = out@;
        let mut k: usize = 0;
        while k < 4
            invariant
                k <= 4,
                out@ == counted + Seq::new(k as nat, |i: int| 0u8),
            decreases 4 - k,
        {
            out.push(0u8);
            assert(out@ =~= counted + Seq::new((k + 1) as nat, |i: int| 0u8));
            k = k + 1;
        }
        let mut time: Vec<u8> = to_le_bytes(self.time as u64, 8);
        out.append(&mut time);
        out
    }
}

/// The time since a task first ran, at the clock reading `now_ms`.
pub open spec fn run_time(now_ms: usize, start_time: usize) -> usize {
    if now_ms >= start_time {
        (now_ms - start_time) as usize
    } else {
        0
    }
}

/// What `sys_task_info` makes of the kernel: whether the call, made in the state
/// `k0`, leaves the state `k1` and returns `r`.
pub open spec fn sys_task_info_post(k0: Kernel, k1: Kernel, ti: usize, r: isize) -> bool {
    &&& k1.running()
    &&& k1.same_but_frames(k0)
    &&& k1.frames.same_frames(k0.frames)
    &&& k1.fs == k0.fs
    &&& k1.files == k0.files
    &&& k1.tasks_counted(k0, SYSCALL_TASK_INFO)
    &&& r == (if k0.cur_ms().user_range_ok(ti, TASK_INFO_SIZE) {
        0
    } else {
        FAILURE
    })
    &&& r != 0 ==> k1.frames == k0.frames
    &&& r == 0 ==> k1.wrote_user(
        k0,
        ti,
        task_info_bytes(
            TaskStatus::Running,
            k1.task(k0.current.unwrap()).syscall_times@,
            run_time(k0.now_ms(), k0.task(k0.current.unwrap()).start_time),
        ),
    )
}

/// Writes what the running task is told about itself into its memory at
/// `ti`, byte by byte, so that the record may lie across pages: its
/// status, its counters with this call counted, and the time since it
/// first ran. Returns 0; fails with -1, and writes nothing, exactly when
/// the task may not touch some byte of the record.
pub fn sys_task_info(k: &mut Kernel, ti: usize) -> (r: isize)
    requires
        old(k).running(),
    ensures
        sys_task_info_post(*old(k), *final(k), ti, r),
{
    let ghost before = *k;
    k.count_syscall(SYSCALL_TASK_INFO);
    let ghost counted = *k;
    proof {
        assert(k.cur_ms() == before.cur_ms());
    }
    let cur = k.current_id();
    let now: usize = k.get_time_ms();
    let p = k.current_process();
    let task = &p.tasks[cur.tid];
    assert(task.wf());
    let info = TaskInfo {
        status: task.task_status,
        syscall_times: task.syscall_times.clone(),
        time: if now >= task.start_time {
            now - task.start_time
        } else {
            0
        },
    };
    assert(info.syscall_times@ =~= task.syscall_times@);
    let bytes: Vec<u8> = info.to_bytes();
    let ok: bool = k.user_write(ti, &bytes);
    proof {
        assert(k.cur_ms() == before.cur_ms());
        assert(k.task(cur) == counted.task(cur));
    }
    if ok {
        0
    } else {
        FAILURE
    }
}

/// The application that `spawn` and `exec` load for the string at `path`.
pub open spec fn app_at(k: Kernel, path: usize) -> Option<int> {
    match path_at(k, path) {
        Some(name) => k.app_named(name),
        None => None,
    }
}

/// Whether `spawn` goes through: a string ends at `path`, an application
/// has that name, the table of processes has room, the image can be laid
/// out, and the frames for it are free.
pub open spec fn spawn_plan(k: Kernel, path: usize) -> bool {
    &&& app_at(k, path).is_some()
    &&& k.procs@.len() < isize::MAX
    &&& k.apps@[app_at(k, path).unwrap()].wf()
    &&& k.frames.free_count_spec() >= k.apps@[app_at(k, path).unwrap()].cost()
}

/// Whether a process is what `spawn` makes of an image: a new process
/// with an address space laid out as the image says, holding the data of
/// its segments and zero bytes elsewhere; the heap empty above the user stack; no open file; and a
/// thread that starts at the entry point with an empty stack.
pub open spec fn spawned_as(p: ProcessControlBlock, image: AppImage, k: Kernel) -> bool {
    &&& p.fresh()
    &&& p.wf()
    &&& p.memory_set.laid_out_as(image)
    &&& p.memory_set.shows_image(image, k.frames)
    &&& forall|i: int|
        0 <= i < image.segments@.len() ==> p.memory_set.holds_at(
            k.frames,
            (#[trigger] image.segments@[i]).start_va,
            image.segments@[i].data@,
        )
    &&& p.heap_bottom == image.stack_top() * PAGE_SIZE
    &&& p.program_brk == image.stack_top() * PAGE_SIZE
    &&& p.fd_table@.len() == 0
    &&& p.tasks@[0].task_cx == (TaskContext {
        sepc: image.entry,
        sp: (image.stack_top() * PAGE_SIZE) as usize,
        a0: 0,
    })
}

/// What `sys_spawn` makes of the kernel: whether the call, made in the state
/// `k0`, leaves the state `k1` and returns `r`.
pub open spec fn sys_spawn_post(k0: Kernel, k1: Kernel, path: usize, r: isize) -> bool {
    &&& k1.running()
    &&& k1.proc(k0.current.unwrap().pid as int).tasks_same_but(
        k0.cur_proc(),
        k0.current.unwrap().tid as int,
    )
    &&& k1.task(k0.current.unwrap()).same_but_counters(
        k0.task(k0.current.unwrap()),
    )
    &&& k1.task(k0.current.unwrap()).counted_from(
        k0.task(k0.current.unwrap()),
        SYSCALL_SPAWN,
    )
    &&& !spawn_plan(k0, path) ==> r == FAILURE && k1.counted_from(k0, SYSCALL_SPAWN)
    &&& spawn_plan(k0, path) ==> {
        let image = k0.apps@[app_at(k0, path).unwrap()];
        let pid = k0.procs@.len() as int;
        &&& r == pid
        &&& k1.adopted_from(k0, k0.current.unwrap().pid)
        &&& spawned_as(k1.proc(pid), image, k1)
        &&& k1.proc(pid).memory_set.born_from(k1.frames, k0.frames)
    }
}

/// Starts the application whose name is the string at `path` as a new
/// process, a child of the process of the running task, and returns its
/// process id. Its thread joins the end of the ready queue. Fails with -1,
/// and changes nothing but the counter, exactly when `spawn_plan` does not
/// hold.
pub fn sys_spawn(k: &mut Kernel, path: usize) -> (r: isize)
    requires
        old(k).running(),
    ensures
        sys_spawn_post(*old(k), *final(k), path, r),
{
    let ghost before = *k;
    k.count_syscall(SYSCALL_SPAWN);
    let ghost counted = *k;
    proof {
        assert(k.cur_ms() == before.cur_ms());
        assert(path_at(counted, path) == path_at(before, path));
        assert(app_at(counted, path) == app_at(before, path));
    }
    let cur = k.current_id();
    let name: Vec<u8> = match k.user_str(path) {
        None => {
            return FAILURE;
        },
        Some(name) => name,
    };
    let idx: usize = match k.find_app(&name) {
        None => {
            return FAILURE;
        },
        Some(idx) => idx,
    };
    let pid: usize = k.procs.len();
    if pid >= isize::MAX as usize {
        return FAILURE;
    }
    proof {
        k.lemma_wf_memory(cur.pid as int);
    }
    let (ms, user_sp, entry) = match MemorySet::from_elf(&k.apps[idx], &mut k.frames) {
        None => {
            return FAILURE;
        },
        Some(made) => made,
    };
    let task = TaskControlBlock::new(entry, user_sp, 0);
    let child = ProcessControlBlock::new(pid, Some(cur.pid), ms, user_sp, user_sp, Vec::new(), task);
    let ghost made = *k;
    proof {
        assert((Kernel { frames: counted.frames, ..made }) == counted);
    }
    k.adopt(cur.pid, child, Ghost(counted.frames));
    proof {
        let image = before.apps@[app_at(before, path).unwrap()];
        assert(image == counted.apps@[idx as int]);
        assert(k.proc(pid as int) == child);
        assert(spawned_as(k.proc(pid as int), image, *k));
        assert(k.adopted_from(before, cur.pid));
    }
    pid as isize
}

/// Whether `fork` goes through: the table of processes has room, and the
/// frames for a copy of the address space are free.
pub open spec fn fork_plan(k: Kernel) -> bool {
    &&& k.procs@.len() < isize::MAX
    &&& k.frames.free_count_spec() >= k.cur_ms().clone_cost()
}

/// Whether `child` is what `fork` makes of the process `parent` for its
/// thread `tid`: a new process with a copy of the address space, page by
/// page, in which user mode sees what it saw in the parent; the same heap
/// bounds and descriptors; and one thread, a copy of the one that called,
/// which finds 0 in its first argument register.
pub open spec fn forked_as(
    child: ProcessControlBlock,
    parent: ProcessControlBlock,
    tid: int,
    after: Kernel,
    before: Kernel,
) -> bool {
    &&& child.fresh()
    &&& child.wf()
    &&& child.memory_set.same_layout(parent.memory_set)
    &&& child.memory_set.sees_as(parent.memory_set, after.frames, before.frames)
    &&& forall|i: int, a: int|
        0 <= i < parent.memory_set.areas().len() && 0 <= a < parent.memory_set.areas()[i].frames().len()
            ==> after.frames.page(#[trigger] child.memory_set.areas()[i].frames()[a])
            == before.frames.page(parent.memory_set.areas()[i].frames()[a])
    &&& child.memory_set.born_from(after.frames, before.frames)
    &&& child.heap_bottom == parent.heap_bottom
    &&& child.program_brk == parent.program_brk
    &&& child.fd_table@ == parent.fd_table@
    &&& child.tasks@[0].task_cx == (TaskContext { a0: 0, ..parent.tasks@[tid].task_cx })
    &&& child.tasks@[0].syscall_times@ == parent.tasks@[tid].syscall_times@
    &&& child.tasks@[0].priority == parent.tasks@[tid].priority
}

/// What `sys_fork` makes of the kernel: whether the call, made in the state
/// `k0`, leaves the state `k1` and returns `r`.
pub open spec fn sys_fork_post(k0: Kernel, k1: Kernel, r: isize) -> bool {
    &&& k1.running()
    &&& !fork_plan(k0) ==> r == FAILURE && k1 == k0
    &&& fork_plan(k0) ==> {
        let pid = k0.procs@.len() as int;
        let cur = k0.current.unwrap();
        &&& r == pid
        &&& k1.adopted_from(k0, cur.pid)
        &&& k1.proc(cur.pid as int).tasks == k0.cur_proc().tasks
        &&& forked_as(k1.proc(pid), k0.cur_proc(), cur.tid as int, k1, k0)
    }
}

/// Makes a copy of the process of the running task as its child, and
/// returns the process id of the child to the caller; the thread of the
/// child, which joins the end of the ready queue, finds 0 instead. Fails
/// with -1, and changes nothing, exactly when `fork_plan` does not hold.
pub fn sys_fork(k: &mut Kernel) -> (r: isize)
    requires
        old(k).running(),
    ensures
        sys_fork_post(*old(k), *final(k), r),
{
    let ghost before = *k;
    let cur = k.current_id();
    let pid: usize = k.procs.len();
    if pid >= isize::MAX as usize {
        return FAILURE;
    }
    proof {
        k.lemma_wf_memory(cur.pid as int);
    }
    let copy = match &k.procs[cur.pid] {
        Some(p) => p.memory_set.clone_cow_free(&mut k.frames),
        None => None,
    };
    let ms: MemorySet = match copy {
        None => {
            return FAILURE;
        },
        Some(ms) => ms,
    };
    let ghost copied = ms;
    let ghost frames_copied = k.frames;
    proof {
        assert(copied.sees_as(before.cur_proc().memory_set, frames_copied, before.frames));
    }
    let parent = k.procs[cur.pid].as_ref().unwrap();
    let caller = &parent.tasks[cur.tid];
    assert(before.proc(cur.pid as int).tasks@[cur.tid as int].wf());
    let mut fds: Vec<Option<usize>> = Vec::new();
    let mut i: usize = 0;
    while i < parent.fd_table.len()
        invariant
            i <= parent.fd_table@.len(),
            fds@ == parent.fd_table@.take(i as int),
        decreases parent.fd_table@.len() - i,
    {
        fds.push(parent.fd_table[i]);
        assert(fds@ =~= parent.fd_table@.take(i as int + 1));
        i = i + 1;
    }
    assert(parent.fd_table@.take(i as int) =~= parent.fd_table@);
    let mut counters: Vec<u32> = Vec::new();
    let mut j: usize = 0;
    while j < caller.syscall_times.len()
        invariant
            j <= caller.syscall_times@.len(),
            counters@ == caller.syscall_times@.take(j as int),
        decreases caller.syscall_times@.len() - j,
    {
        counters.push(caller.syscall_times[j]);
        assert(counters@ =~= caller.syscall_times@.take(j as int + 1));
        j = j + 1;
    }
    assert(caller.syscall_times@.take(j as int) =~= caller.syscall_times@);
    let task = TaskControlBlock {
        task_status: TaskStatus::Ready,
        task_cx: TaskContext { sepc: caller.task_cx.sepc, sp: caller.task_cx.sp, a0: 0 },
        start_time: 0,
        first_run: true,
        syscall_times: counters,
        priority: caller.priority,
        exit_code: 0,
        wait: crate::task::task::WaitReason::Nothing,
        pending: crate::task::task::Pending::Nothing,
    };
    let child = ProcessControlBlock::new(
        pid,
        Some(cur.pid),
        ms,
        parent.heap_bottom,
        parent.program_brk,
        fds,
        task,
    );
    proof {
        assert(before.fd_tables()[cur.pid as int].unwrap() == parent.fd_table@);
        assert forall|fd: int| 0 <= fd < child.fd_table@.len() && (#[trigger] child.fd_table@[fd]).is_some()
            implies child.fd_table@[fd].unwrap() < k.files@.len() by {
            assert(before.fd_tables()[cur.pid as int].unwrap()[fd].is_some());
        }
    }
    let ghost made = *k;
    proof {
        assert((Kernel { frames: before.frames, ..made }) == before);
        assert(*parent == before.cur_proc());
    }
    k.adopt(cur.pid, child, Ghost(before.frames));
    proof {
        assert(k.proc(pid as int) == child);
        assert(child.memory_set == copied);
        assert(k.frames == frames_copied);
        assert(forked_as(k.proc(pid as int), before.cur_proc(), cur.tid as int, *k, before));
    }
    pid as isize
}

/// What `sys_exit` makes of the kernel: whether the call, made in the state
/// `k0`, leaves the state `k1`.
pub open spec fn sys_exit_post(k0: Kernel, k1: Kernel, exit_code: i32) -> bool {
    &&& k1.wf()
    &&& k1.current.is_none()
    &&& exists|counted: Kernel|
        {
            &&& counted.counted_from(k0, SYSCALL_EXIT)
            &&& #[trigger] counted.running()
            &&& k0.current.unwrap().tid != 0 ==> k1.thread_exited_from(
                counted,
                exit_code,
            )
            &&& k0.current.unwrap().tid == 0 ==> k1.process_exited_from(
                counted,
                exit_code,
            )
        }
}

/// The running task exits with the exit code `exit_code`. Where it is
/// the first thread of its process, the process exits with it: the process
/// is a zombie until its parent waits for it, its threads are gone from
/// the schedule, its memory is unmapped, and its children belong to the
/// first process. Nobody runs afterwards; nothing is returned to the task.
pub fn sys_exit(k: &mut Kernel, exit_code: i32)
    requires
        old(k).running(),
    ensures
        sys_exit_post(*old(k), *final(k), exit_code),
{
    k.count_syscall(SYSCALL_EXIT);
    let ghost counted = *k;
    k.exit_current(exit_code);
    proof {
        assert(counted.running());
    }
}

/// Whether a child with process id `c` is one that `waitpid` was asked
/// for: any child where `pid` is -1, the child `pid` otherwise.
pub open spec fn child_matches(pid: isize, c: usize) -> bool {
    pid == -1 || pid == c
}

/// Whether some child is one that `waitpid` was asked for.
pub open spec fn any_match(children: Seq<usize>, pid: isize) -> bool {
    exists|i: int| 0 <= i < children.len() && child_matches(pid, #[trigger] children[i])
}

/// The place of the first child at or after `from` that `waitpid` was
/// asked for and that can be collected.
pub open spec fn zombie_from(k: Kernel, children: Seq<usize>, pid: isize, from: int) -> Option<int>
    decreases children.len() - from,
{
    if from < 0 || from >= children.len() {
        None
    } else if child_matches(pid, children[from]) && k.reapable(children[from] as int) {
        Some(from)
    } else {
        zombie_from(k, children, pid, from + 1)
    }
}

/// The exit code as the four bytes that `waitpid` writes: the number
/// itself, or, where it is negative, two to the power 32 more.
pub open spec fn exit_code_bytes(code: i32) -> Seq<u8> {
    le_bytes(
        if code >= 0 {
            code as int
        } else {
            code + 0x1_0000_0000
        },
        4,
    )
}

/// What `waitpid` returns.
pub open spec fn waitpid_result(k: Kernel, pid: isize, ptr: usize) -> int {
    let children = k.cur_proc().children@;
    if !any_match(children, pid) {
        FAILURE as int
    } else if zombie_from(k, children, pid, 0).is_none() {
        STILL_RUNNING as int
    } else if !k.cur_ms().user_range_ok(ptr, 4) {
        FAILURE as int
    } else {
        children[zombie_from(k, children, pid, 0).unwrap()] as int
    }
}

/// What `sys_waitpid` makes of the kernel: whether the call, made in the state
/// `k0`, leaves the state `k1` and returns `r`.
pub open spec fn sys_waitpid_post(k0: Kernel, k1: Kernel, pid: isize, exit_code_ptr: usize, r: isize) -> bool {
    &&& k1.running()
    &&& r == waitpid_result(k0, pid, exit_code_ptr)
    &&& r < 0 ==> k1.counted_from(k0, SYSCALL_WAITPID)
    &&& r >= 0 ==> exists|counted: Kernel, reaped: Kernel|
        {
            &&& counted.counted_from(k0, SYSCALL_WAITPID)
            &&& #[trigger] reaped.reaped_from(
                counted,
                k0.current.unwrap().pid as int,
                zombie_from(k0, k0.cur_proc().children@, pid, 0).unwrap(),
                r as int,
            )
            &&& k1.same_but_pages(reaped)
            &&& k1.wrote_user(
                reaped,
                exit_code_ptr,
                exit_code_bytes(k0.proc(r as int).exit_code),
            )
        }
}

/// Waits for a child of the process of the running task: the child with
/// process id `pid`, or any child where `pid` is -1. The first such child
/// that has exited is collected: it leaves the table of processes, its
/// frames are handed back, its exit code is written to the memory of the
/// running task at `exit_code_ptr`, and its process id is returned. Fails
/// with -1 where no child is one that was asked for, or where the task
/// may not touch the four bytes of the exit code; and with -2 where such
/// children exist but none has exited. Where it fails, only the counter
/// changes.
pub fn sys_waitpid(k: &mut Kernel, pid: isize, exit_code_ptr: usize) -> (r: isize)
    requires
        old(k).running(),
    ensures
        sys_waitpid_post(*old(k), *final(k), pid, exit_code_ptr, r),
{
    let ghost before = *k;
    k.count_syscall(SYSCALL_WAITPID);
    let ghost counted = *k;
    let cur = k.current_id();
    let p = k.current_process();
    let n: usize = p.children.len();
    let mut matched: bool = false;
    let mut found: Option<usize> = None;
    let mut i: usize = 0;
    proof {
        assert(counted.cur_proc().children == before.cur_proc().children);
        assert(counted.cur_ms() == before.cur_ms());
        lemma_zombie_same(counted, before, p.children@, pid, 0);
    }
    while i < n
        invariant
            i <= n,
            n == p.children@.len(),
            *k == counted,
            *p == counted.cur_proc(),
            matched == exists|j: int| 0 <= j < i && child_matches(pid, #[trigger] p.children@[j]),
            match found {
                Some(idx) => idx < i && zombie_from(counted, p.children@, pid, 0) == Some(idx as int),
                None => zombie_from(counted, p.children@, pid, 0) == zombie_from(
                    counted,
                    p.children@,
                    pid,
                    i as int,
                ),
            },
            found.is_some() ==> child_matches(pid, p.children@[found.unwrap() as int])
                && counted.reapable(p.children@[found.unwrap() as int] as int),
        decreases n - i,
    {
        let c: usize = p.children[i];
        let fits: bool = pid == -1 || (pid >= 0 && pid as usize == c);
        assert(fits == child_matches(pid, c));
        if fits {
            matched = true;
            if found.is_none() && k.is_reapable(c) {
                found = Some(i);
            }
        }
        proof {
            if exists|j: int| 0 <= j < i + 1 && child_matches(pid, #[trigger] p.children@[j]) {
                let j = choose|j: int| 0 <= j < i + 1 && child_matches(pid, #[trigger] p.children@[j]);
                if j < i {
                    assert(child_matches(pid, p.children@[j]));
                }
            }
        }
        i = i + 1;
    }
    if !matched {
        return FAILURE;
    }
    let idx: usize = match found {
        None => {
            return STILL_RUNNING;
        },
        Some(idx) => idx,
    };
    if !k.user_check(exit_code_ptr, 4) {
        return FAILURE;
    }
    let child: usize = p.children[idx];
    proof {
        assert(counted.families()[cur.pid as int].is_some());
        assert(counted.families()[cur.pid as int].unwrap().1[idx as int] == child);
        assert(child < counted.procs@.len());
    }
    let code: i32 = k.reap(cur.pid, idx);
    let ghost reaped = *k;
    let bits: u64 = if code >= 0 {
        code as u64
    } else {
        (code as i64 + 0x1_0000_0000) as u64
    };
    let bytes: Vec<u8> = to_le_bytes(bits, 4);
    proof {
        assert(reaped.cur_ms() == counted.cur_ms());
        assert(counted.proc(child as int) == before.proc(child as int));
    }
    let ok: bool = k.user_write(exit_code_ptr, &bytes);
    assert(ok);
    proof {
        assert(reaped.reaped_from(counted, cur.pid as int, idx as int, child as int));
        assert(zombie_from(before, before.cur_proc().children@, pid, 0) == Some(idx as int));
        assert(bytes@ == exit_code_bytes(before.proc(child as int).exit_code));
        assert(k.same_but_pages(reaped));
        assert(k.wrote_user(reaped, exit_code_ptr, bytes@));
        assert(counted.counted_from(before, SYSCALL_WAITPID));
        let r = child as isize;
        assert(reaped.reaped_from(
            counted,
            before.current.unwrap().pid as int,
            zombie_from(before, before.cur_proc().children@, pid, 0).unwrap(),
            r as int,
        ));
        assert(k.wrote_user(
            reaped,
            exit_code_ptr,
            exit_code_bytes(before.proc(r as int).exit_code),
        ));
    }
    child as isize
}

/// Which children can be collected depends on the children alone.
pub proof fn lemma_zombie_same(a: Kernel, b: Kernel, children: Seq<usize>, pid: isize, from: int)
    requires
        a.procs@.len() == b.procs@.len(),
        forall|i: int|
            0 <= i < children.len() ==> a.reapable((#[trigger] children[i]) as int) == b.reapable(
                children[i] as int,
            ),
    ensures
        zombie_from(a, children, pid, from) == zombie_from(b, children, pid, from),
    decreases children.len() - from,
{
    if 0 <= from < children.len() {
        lemma_zombie_same(a, b, children, pid, from + 1);
    }
}

/// Whether `exec` goes through: a string ends at `path`, an application
/// has that name, the process has no thread but the one that calls, the
/// image can be laid out, and the frames for it are free.
pub open spec fn exec_plan(k: Kernel, path: usize) -> bool {
    &&& app_at(k, path).is_some()
    &&& k.cur_proc().tasks@.len() == 1
    &&& k.apps@[app_at(k, path).unwrap()].wf()
    &&& k.frames.free_count_spec() >= k.apps@[app_at(k, path).unwrap()].cost()
}

/// Whether `p` is the process `q` after it started the application
/// `image` anew: a new address space laid out as the image says, holding
/// the data of its segments and zero bytes elsewhere; the heap empty above the user stack; its
/// thread at the entry point with an empty stack, with nothing pending;
/// and its id, family, descriptors and synchronisation objects as before.
pub open spec fn executed_as(p: ProcessControlBlock, q: ProcessControlBlock, image: AppImage, k: Kernel) -> bool {
    &&& p.same_but_memory(q)
    &&& p.memory_set.laid_out_as(image)
    &&& p.memory_set.shows_image(image, k.frames)
    &&& forall|i: int|
        0 <= i < image.segments@.len() ==> p.memory_set.holds_at(
            k.frames,
            (#[trigger] image.segments@[i]).start_va,
            image.segments@[i].data@,
        )
    &&& p.heap_bottom == image.stack_top() * PAGE_SIZE
    &&& p.program_brk == image.stack_top() * PAGE_SIZE
    &&& p.tasks@.len() == 1
    &&& p.tasks@[0].task_cx == (TaskContext {
        sepc: image.entry,
        sp: (image.stack_top() * PAGE_SIZE) as usize,
        a0: 0,
    })
    &&& p.tasks@[0].pending is Nothing
    &&& p.tasks@[0].task_status == q.tasks@[0].task_status
    &&& p.tasks@[0].wait == q.tasks@[0].wait
    &&& p.tasks@[0].start_time == q.tasks@[0].start_time
    &&& p.tasks@[0].first_run == q.tasks@[0].first_run
    &&& p.tasks@[0].priority == q.tasks@[0].priority
    &&& p.tasks@[0].exit_code == q.tasks@[0].exit_code
}

/// What `sys_exec` makes of the kernel: whether the call, made in the state
/// `k0`, leaves the state `k1` and returns `r`.
pub open spec fn sys_exec_post(k0: Kernel, k1: Kernel, path: usize, r: isize) -> bool {
    &&& k1.running()
    &&& r == (if exec_plan(k0, path) {
        0
    } else {
        FAILURE
    })
    &&& r != 0 ==> k1.counted_from(k0, SYSCALL_EXEC)
    &&& r == 0 ==> {
        let pid = k0.current.unwrap().pid as int;
        let image = k0.apps@[app_at(k0, path).unwrap()];
        &&& k1.same_but_frames(k0)
        &&& k1.fs == k0.fs
        &&& k1.files == k0.files
        &&& k1.procs_same_but(k0, pid)
        &&& executed_as(k1.proc(pid), k0.cur_proc(), image, k1)
        &&& k1.proc(pid).tasks@[0].counted_from(k0.cur_proc().tasks@[0], SYSCALL_EXEC)
        &&& forall|p: usize|
            k0.cur_ms().owns(p) ==> #[trigger] k1.frames.is_free(p)
    }
}

/// Replaces the program of the process of the running task by the
/// application whose name is the string at `path`: the process gets a new
/// address space built from the image, and the frames of the old one are
/// handed back. Returns 0; fails with -1, and changes nothing but the
/// counter, exactly when `exec_plan` does not hold.
pub fn sys_exec(k: &mut Kernel, path: usize) -> (r: isize)
    requires
        old(k).running(),
    ensures
        sys_exec_post(*old(k), *final(k), path, r),
{
    let ghost before = *k;
    k.count_syscall(SYSCALL_EXEC);
    let ghost counted = *k;
    proof {
        assert(k.cur_ms() == before.cur_ms());
        assert(path_at(counted, path) == path_at(before, path));
        assert(app_at(counted, path) == app_at(before, path));
    }
    let cur = k.current_id();
    let name: Vec<u8> = match k.user_str(path) {
        None => {
            return FAILURE;
        },
        Some(name) => name,
    };
    let idx: usize = match k.find_app(&name) {
        None => {
            return FAILURE;
        },
        Some(idx) => idx,
    };
    if k.current_process().tasks.len() != 1 {
        return FAILURE;
    }
    proof {
        k.lemma_wf_memory(cur.pid as int);
    }
    let (mut ms, user_sp, entry) = match MemorySet::from_elf(&k.apps[idx], &mut k.frames) {
        None => {
            return FAILURE;
        },
        Some(made) => made,
    };
    let ghost fresh = ms;
    let ghost frames_made = k.frames;
    match &mut k.procs[cur.pid] {
        Some(p) => {
            core::mem::swap(&mut p.memory_set, &mut ms);
            p.heap_bottom = user_sp;
            p.program_brk = user_sp;
            p.tasks[cur.tid].task_cx = TaskContext { sepc: entry, sp: user_sp, a0: 0 };
            p.tasks[cur.tid].pending = crate::task::task::Pending::Nothing;
        },
        None => {},
    }
    proof {
        crate::kernel::lemma_mem_birth(
            counted.frames,
            counted.memory_sets(),
            frames_made,
            fresh,
        );
        assert(counted.memory_sets()[cur.pid as int] == Some(ms));
    }
    ms.destroy(&mut k.frames);
    proof {
        let pid = cur.pid as int;
        assert(counted.proc(pid).tasks@[cur.tid as int].wf());
        k.proc(pid).lemma_wf_task_kept(counted.proc(pid), cur.tid as int);
        assert(k.memory_sets() =~= counted.memory_sets().update(pid, Some(fresh)));
        lemma_mem_replace(
            counted.frames,
            counted.memory_sets(),
            frames_made,
            k.frames,
            fresh,
            pid,
        );
        assert(k.fd_tables() =~= counted.fd_tables());
        assert(k.families() =~= counted.families());
        k.lemma_states_changed(counted, cur);
        let inner = counted.states()[pid].unwrap();
        assert(inner.update(cur.tid as int, inner[cur.tid as int]) =~= inner);
        assert(k.states() =~= counted.states());
        assert forall|q: int| k.live_proc(q) implies (#[trigger] k.proc(q)).wf() && k.proc(q).pid
            == q by {
            assert(counted.live_proc(q));
            assert(counted.proc(q).wf());
        }
        let image = before.apps@[app_at(before, path).unwrap()];
        assert(image == counted.apps@[idx as int]);
        frames_made.lemma_wf();
        assert forall|va: usize| fresh.user_ok(va) implies #[trigger] fresh.user_byte(k.frames, va)
            == fresh.user_byte(frames_made, va) by {
            fresh.lemma_user_frame(va);
            assert(fresh.owns(fresh.user_frame(va)));
        }
        assert(fresh.shows_image(image, frames_made));
        assert(k.proc(pid).memory_set.shows_image(image, k.frames));
        assert forall|i: int| 0 <= i < image.segments@.len() implies k.proc(pid).memory_set.holds_at(
            k.frames,
            (#[trigger] image.segments@[i]).start_va,
            image.segments@[i].data@,
        ) by {
            assert(fresh.holds_at(frames_made, image.segments@[i].start_va, image.segments@[i].data@));
            assert(fresh.user_bytes(k.frames, image.segments@[i].start_va, image.segments@[i].data@.len())
                =~= fresh.user_bytes(
                frames_made,
                image.segments@[i].start_va,
                image.segments@[i].data@.len(),
            ));
        }
    }
    0
}

/// Whether `sbrk` goes through: the new break is not below the bottom of
/// the heap, both breaks can be written down, and where the heap grows
/// into new pages, those pages can be mapped.
pub open spec fn sbrk_plan(k: Kernel, size: i32) -> bool {
    let p = k.cur_proc();
    let brk = p.program_brk + size;
    &&& p.heap_bottom <= brk <= usize::MAX
    &&& p.program_brk <= isize::MAX
    &&& va_ceil(brk as usize) > va_ceil(p.program_brk) ==> p.memory_set.can_grow(
        va_ceil(p.program_brk),
        va_ceil(brk as usize),
        k.frames,
    )
}

/// What `sys_sbrk` makes of the kernel: whether the call, made in the state
/// `k0`, leaves the state `k1` and returns `r`.
pub open spec fn sys_sbrk_post(k0: Kernel, k1: Kernel, size: i32, r: isize) -> bool {
    &&& k1.running()
    &&& r == (if sbrk_plan(k0, size) {
        k0.cur_proc().program_brk as int
    } else {
        FAILURE as int
    })
    &&& !sbrk_plan(k0, size) ==> k1.counted_from(k0, SYSCALL_SBRK)
    &&& sbrk_plan(k0, size) ==> {
        let pid = k0.current.unwrap().pid as int;
        let p = k1.proc(pid);
        let q = k0.cur_proc();
        let low = va_ceil(q.program_brk);
        let high = va_ceil((q.program_brk + size) as usize);
        &&& k1.same_but_memory(k0, pid)
        &&& p.tasks_same_but(q, k0.current.unwrap().tid as int)
        &&& k1.task(k0.current.unwrap()).same_but_counters(
            k0.task(k0.current.unwrap()),
        )
        &&& k1.task(k0.current.unwrap()).counted_from(
            k0.task(k0.current.unwrap()),
            SYSCALL_SBRK,
        )
        &&& p.heap_bottom == q.heap_bottom
        &&& p.program_brk == q.program_brk + size
        &&& p.memory_set.conserves(q.memory_set, k1.frames, k0.frames)
        &&& high > low ==> {
            let n0 = q.memory_set.areas().len() as int;
            &&& p.memory_set.areas().len() == n0 + (high - low)
            &&& p.memory_set.areas().take(n0) == q.memory_set.areas()
            &&& forall|i: int|
                0 <= i < high - low ==> {
                    &&& (#[trigger] p.memory_set.areas()[n0 + i]).start() == low + i
                    &&& p.memory_set.areas()[n0 + i].end() == low + i + 1
                    &&& p.memory_set.areas()[n0 + i].map_type() is Framed
                    &&& p.memory_set.areas()[n0 + i].perm() == (MapPermission {
                        r: true,
                        w: true,
                        x: false,
                        u: true,
                    })
                }
            &&& p.memory_set.sees_as(q.memory_set, k1.frames, k0.frames)
            &&& p.memory_set.zero_where_new(q.memory_set, k1.frames)
        }
        &&& high <= low ==> p.memory_set.areas() == areas_shrunk(q.memory_set.areas(), high, low)
    }
}

/// Moves the end of the heap of the process of the running task by `size`
/// bytes, and returns where it was. Every page that the heap grows into
/// is mapped as an area of its own, readable and writable, with a fresh
/// zeroed frame; every page that it shrinks out of is unmapped, the
/// highest first, and its frame handed back. Fails with -1, and changes
/// nothing but the counter, exactly when `sbrk_plan` does not hold.
pub fn sys_sbrk(k: &mut Kernel, size: i32) -> (r: isize)
    requires
        old(k).running(),
    ensures
        sys_sbrk_post(*old(k), *final(k), size, r),
{
    let ghost before = *k;
    k.count_syscall(SYSCALL_SBRK);
    let ghost counted = *k;
    let cur = k.current_id();
    let p = k.current_process();
    let brk: usize = p.program_brk;
    let bottom: usize = p.heap_bottom;
    proof {
        assert(counted.cur_proc().program_brk == before.cur_proc().program_brk);
        assert(counted.cur_proc().heap_bottom == before.cur_proc().heap_bottom);
        assert(counted.cur_ms() == before.cur_ms());
        counted.lemma_wf_memory(cur.pid as int);
    }
    if brk > isize::MAX as usize {
        return FAILURE;
    }
    let moved: usize = if size >= 0 {
        if size as usize > usize::MAX - brk {
            return FAILURE;
        }
        brk + size as usize
    } else {
        let back: usize = (-(size as i64)) as usize;
        if back > brk {
            return FAILURE;
        }
        brk - back
    };
    if moved < bottom {
        return FAILURE;
    }
    let low: usize = ceil_page(brk);
    let high: usize = ceil_page(moved);
    let ok: bool = match &mut k.procs[cur.pid] {
        Some(p) => {
            let ok = if high > low {
                p.memory_set.grow_pages(
                    low,
                    high,
                    MapPermission { r: true, w: true, x: false, u: true },
                    &mut k.frames,
                )
            } else {
                p.memory_set.shrink_pages(high, low, &mut k.frames);
                true
            };
            if ok {
                p.program_brk = moved;
            }
            ok
        },
        None => false,
    };
    if !ok {
        proof {
            assert(k.procs@ =~= counted.procs@);
            k.lemma_wf_parts_keep(counted);
        }
        return FAILURE;
    }
    proof {
        k.lemma_memory_update(counted, cur.pid as int);
    }
    brk as isize
}

} // verus!

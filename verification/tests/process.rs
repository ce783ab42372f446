use kernel_core::kernel::Kernel;
use kernel_core::loader::{AppImage, Segment};
use kernel_core::mm::memory_set::MapPermission;
use kernel_core::syscall::fs::{sys_close, sys_fstat, sys_linkat, sys_open, sys_read, sys_unlinkat, sys_write};
use kernel_core::syscall::process::{
    sys_exec, sys_exit, sys_fork, sys_get_time, sys_getpid, sys_mmap, sys_munmap, sys_sbrk, sys_set_priority,
    sys_spawn, sys_task_info, sys_waitpid, sys_yield,
};
use kernel_core::task::task::{TaskId, TaskStatus};

const BASE: usize = 0x80000;
const SCRATCH: usize = 0x13000;

fn image(name: &str, fill: u8) -> AppImage {
    AppImage {
        name: name.as_bytes().to_vec(),
        entry: 0x10000,
        segments: vec![Segment {
            start_va: 0x10000,
            end_va: 0x12000,
            perm: MapPermission { r: true, w: true, x: true, u: false },
            data: vec![fill; 8],
        }],
    }
}

fn boot(frames: usize) -> Kernel {
    let apps = vec![image("init", 1), image("child", 2)];
    let mut k = Kernel::new(BASE, BASE + frames, 16, apps, 0).unwrap();
    k.run_next();
    k
}

fn put_str(k: &mut Kernel, ptr: usize, s: &str) {
    let mut bytes = s.as_bytes().to_vec();
    bytes.push(0);
    assert!(k.user_write(ptr, &bytes));
}

fn status(k: &Kernel, pid: usize, tid: usize) -> TaskStatus {
    k.procs[pid].as_ref().unwrap().tasks[tid].task_status
}

#[test]
fn boot_lays_out_the_first_process() {
    let apps = vec![image("init", 1)];
    // root, two second-level and two leaf nodes, two pages of segment, two of
    // stack and the trap context: ten frames
    assert!(Kernel::new(BASE, BASE + 9, 16, vec![image("init", 1)], 0).is_none());
    let mut k = Kernel::new(BASE, BASE + 64, 16, apps, 0).unwrap();
    assert_eq!(k.frames.free_count(), 64 - 10);
    assert!(k.current.is_none());
    assert_eq!(k.ready_queue.len(), 1);
    k.run_next();
    assert_eq!(k.current, Some(TaskId { pid: 0, tid: 0 }));
    assert!(k.ready_queue.is_empty());
    let p = k.procs[0].as_ref().unwrap();
    assert_eq!(p.tasks[0].task_status, TaskStatus::Running);
    assert_eq!(p.tasks[0].task_cx.sepc, 0x10000);
    assert_eq!(p.tasks[0].task_cx.sp, 0x15000);
    assert_eq!(p.heap_bottom, 0x15000);
    assert_eq!(p.memory_set.area_count(), 3);
    assert_eq!(p.memory_set.area(1).start_vpn(), 0x13);
    assert_eq!(p.memory_set.area(2).start_vpn(), 0x7ff_fffe);
    assert!(!p.memory_set.area(2).map_perm().u);
    assert_eq!(k.user_read(0x10000, 9), Some(vec![1, 1, 1, 1, 1, 1, 1, 1, 0]));
    // past the data the segment is zero, and so is the stack
    assert_eq!(k.user_read(0x10008, 0x2000 - 8), Some(vec![0; 0x2000 - 8]));
    assert_eq!(k.user_read(0x13000, 0x2000), Some(vec![0; 0x2000]));
    // the guard page under the stack and the trap context are out of reach
    assert_eq!(k.user_read(0x12000, 1), None);
    assert_eq!(k.user_read(0x7ff_fffe << 12, 1), None);
}

#[test]
fn getpid_and_counters() {
    let mut k = boot(64);
    assert_eq!(sys_getpid(&mut k), 0);
    assert_eq!(sys_getpid(&mut k), 0);
    let t = &k.procs[0].as_ref().unwrap().tasks[0];
    assert_eq!(t.syscall_times[172], 2);
    assert_eq!(t.syscall_times.iter().map(|c| *c as u64).sum::<u64>(), 2);
}

#[test]
fn set_priority_needs_more_than_one() {
    let mut k = boot(64);
    assert_eq!(sys_set_priority(&mut k, 1), -1);
    assert_eq!(sys_set_priority(&mut k, -5), -1);
    assert_eq!(k.procs[0].as_ref().unwrap().tasks[0].priority, 16);
    assert_eq!(sys_set_priority(&mut k, 2), 2);
    assert_eq!(k.procs[0].as_ref().unwrap().tasks[0].priority, 2);
    assert_eq!(k.procs[0].as_ref().unwrap().tasks[0].syscall_times[140], 3);
}

#[test]
fn yield_goes_to_the_end_of_the_queue() {
    let mut k = boot(128);
    assert_eq!(sys_fork(&mut k), 1);
    assert_eq!(sys_fork(&mut k), 2);
    assert_eq!(sys_yield(&mut k), 0);
    assert!(k.current.is_none());
    assert_eq!(status(&k, 0, 0), TaskStatus::Ready);
    let queue: Vec<TaskId> = k.ready_queue.iter().copied().collect();
    assert_eq!(
        queue,
        vec![TaskId { pid: 1, tid: 0 }, TaskId { pid: 2, tid: 0 }, TaskId { pid: 0, tid: 0 }]
    );
    k.run_next();
    assert_eq!(k.current, Some(TaskId { pid: 1, tid: 0 }));
    assert_eq!(status(&k, 1, 0), TaskStatus::Running);
    assert_eq!(status(&k, 2, 0), TaskStatus::Ready);
    // a task alone yields to itself
    let mut alone = boot(64);
    sys_yield(&mut alone);
    alone.run_next();
    assert_eq!(alone.current, Some(TaskId { pid: 0, tid: 0 }));
}

#[test]
fn suspend_runs_the_head_of_the_queue() {
    let mut k = boot(128);
    assert_eq!(sys_fork(&mut k), 1);
    assert_eq!(sys_fork(&mut k), 2);
    k.suspend_current_and_run_next();
    assert_eq!(k.current, Some(TaskId { pid: 1, tid: 0 }));
    assert_eq!(status(&k, 0, 0), TaskStatus::Ready);
    assert_eq!(status(&k, 1, 0), TaskStatus::Running);
    let queue: Vec<TaskId> = k.ready_queue.iter().copied().collect();
    assert_eq!(queue, vec![TaskId { pid: 2, tid: 0 }, TaskId { pid: 0, tid: 0 }]);
    // a task alone goes on
    let mut alone = boot(64);
    alone.suspend_current_and_run_next();
    assert_eq!(alone.current, Some(TaskId { pid: 0, tid: 0 }));
    assert_eq!(status(&alone, 0, 0), TaskStatus::Running);
    assert!(alone.ready_queue.is_empty());
}

#[test]
fn fork_exit_waitpid() {
    let mut k = boot(128);
    let code_ptr = SCRATCH + 0x100;
    // no child yet
    assert_eq!(sys_waitpid(&mut k, -1, code_ptr), -1);
    let free = k.frames.free_count();
    let child = sys_fork(&mut k);
    assert_eq!(child, 1);
    assert_eq!(k.frames.free_count(), free - 10);
    assert_eq!(k.current, Some(TaskId { pid: 0, tid: 0 }));
    {
        let c = k.procs[1].as_ref().unwrap();
        assert_eq!(c.parent, Some(0));
        assert_eq!(c.tasks[0].task_cx.a0, 0);
        assert_eq!(c.tasks[0].task_status, TaskStatus::Ready);
        assert_eq!(k.procs[0].as_ref().unwrap().children, vec![1]);
    }
    // the child lives: not yet; another pid: no such child
    assert_eq!(sys_waitpid(&mut k, 1, code_ptr), -2);
    assert_eq!(sys_waitpid(&mut k, -1, code_ptr), -2);
    assert_eq!(sys_waitpid(&mut k, 5, code_ptr), -1);
    sys_yield(&mut k);
    k.run_next();
    assert_eq!(k.current, Some(TaskId { pid: 1, tid: 0 }));
    assert_eq!(sys_getpid(&mut k), 1);
    // the child sees the memory of its parent, but has frames of its own
    assert_eq!(k.user_read(0x10000, 2), Some(vec![1, 1]));
    assert!(k.user_write(0x10000, &vec![9]));
    sys_exit(&mut k, 42);
    assert!(k.current.is_none());
    assert_eq!(status(&k, 1, 0), TaskStatus::Zombie);
    assert!(k.procs[1].as_ref().unwrap().is_zombie);
    assert_eq!(k.procs[1].as_ref().unwrap().memory_set.area_count(), 0);
    k.run_next();
    assert_eq!(k.current, Some(TaskId { pid: 0, tid: 0 }));
    assert_eq!(k.user_read(0x10000, 2), Some(vec![1, 1]));
    // a pointer that cannot be written: nothing is collected
    assert_eq!(sys_waitpid(&mut k, 1, 0x12000), -1);
    assert!(k.procs[1].is_some());
    assert_eq!(sys_waitpid(&mut k, 1, code_ptr), 1);
    assert_eq!(k.user_read(code_ptr, 4), Some(vec![42, 0, 0, 0]));
    assert!(k.procs[1].is_none());
    assert!(k.procs[0].as_ref().unwrap().children.is_empty());
    assert_eq!(k.frames.free_count(), free);
    assert_eq!(sys_waitpid(&mut k, 1, code_ptr), -1);
}

#[test]
fn negative_exit_code_is_written_in_two_complement() {
    let mut k = boot(128);
    sys_fork(&mut k);
    sys_yield(&mut k);
    k.run_next();
    sys_exit(&mut k, -1);
    k.run_next();
    assert_eq!(sys_waitpid(&mut k, -1, SCRATCH), 1);
    assert_eq!(k.user_read(SCRATCH, 4), Some(vec![0xff, 0xff, 0xff, 0xff]));
}

#[test]
fn fork_fails_without_frames() {
    let mut k = boot(19);
    assert_eq!(k.frames.free_count(), 9);
    assert_eq!(sys_fork(&mut k), -1);
    assert_eq!(k.frames.free_count(), 9);
    assert_eq!(k.procs.len(), 1);
}

#[test]
fn children_of_an_exiting_process_go_to_the_first() {
    let mut k = boot(256);
    // 0 forks 1; 1 forks 2 and 3; 1 exits
    sys_fork(&mut k);
    sys_yield(&mut k);
    k.run_next();
    assert_eq!(sys_fork(&mut k), 2);
    assert_eq!(sys_fork(&mut k), 3);
    sys_exit(&mut k, 0);
    assert_eq!(k.procs[0].as_ref().unwrap().children, vec![1, 2, 3]);
    assert_eq!(k.procs[2].as_ref().unwrap().parent, Some(0));
    assert_eq!(k.procs[3].as_ref().unwrap().parent, Some(0));
    assert!(k.procs[1].as_ref().unwrap().children.is_empty());
    k.run_next();
    assert_eq!(k.current, Some(TaskId { pid: 0, tid: 0 }));
    assert_eq!(sys_waitpid(&mut k, -1, SCRATCH), 1);
    assert_eq!(k.procs[0].as_ref().unwrap().children, vec![2, 3]);
}

#[test]
fn spawn_starts_an_application() {
    let mut k = boot(128);
    put_str(&mut k, SCRATCH, "child");
    put_str(&mut k, SCRATCH + 16, "nobody");
    assert_eq!(sys_spawn(&mut k, SCRATCH + 16), -1);
    assert_eq!(sys_spawn(&mut k, 0x12000), -1);
    assert_eq!(sys_spawn(&mut k, SCRATCH), 1);
    let c = k.procs[1].as_ref().unwrap();
    assert_eq!(c.parent, Some(0));
    assert_eq!(c.tasks[0].task_cx.sepc, 0x10000);
    assert_eq!(c.tasks[0].task_cx.sp, 0x15000);
    assert!(c.fd_table.is_empty());
    assert_eq!(c.memory_set.read_user_bytes(&k.frames, 0x10000, 2), Some(vec![2, 2]));
    assert_eq!(k.procs[0].as_ref().unwrap().children, vec![1]);
    assert_eq!(k.ready_queue.back(), Some(&TaskId { pid: 1, tid: 0 }));
    assert_eq!(k.procs[0].as_ref().unwrap().tasks[0].syscall_times[220], 3);
}

#[test]
fn exec_replaces_the_address_space() {
    let mut k = boot(128);
    put_str(&mut k, SCRATCH, "child");
    put_str(&mut k, SCRATCH + 16, "nobody");
    assert_eq!(sys_open_file(&mut k, SCRATCH + 32, "f"), 0);
    let free = k.frames.free_count();
    assert_eq!(sys_exec(&mut k, SCRATCH + 16), -1);
    assert_eq!(sys_exec(&mut k, SCRATCH), 0);
    assert_eq!(k.frames.free_count(), free);
    let p = k.procs[0].as_ref().unwrap();
    assert_eq!(p.pid, 0);
    assert_eq!(p.fd_table, vec![Some(0)]);
    assert_eq!(p.tasks[0].task_cx.sp, 0x15000);
    assert_eq!(p.tasks[0].task_status, TaskStatus::Running);
    assert_eq!(k.user_read(0x10000, 2), Some(vec![2, 2]));
    // the stack is new: the name is gone
    assert_eq!(k.user_read(SCRATCH, 1), Some(vec![0]));
}

fn sys_open_file(k: &mut Kernel, ptr: usize, name: &str) -> isize {
    put_str(k, ptr, name);
    sys_open(k, ptr, 512 | 2)
}

#[test]
fn mmap_then_munmap() {
    let mut k = boot(128);
    let free = k.frames.free_count();
    assert_eq!(sys_mmap(&mut k, 0x1000_0000, 8192, 3), 0);
    // two pages and one leaf node; the second-level node is there
    assert_eq!(k.frames.free_count(), free - 3);
    assert!(k.user_write(0x1000_0000, &vec![5; 8192]));
    assert_eq!(sys_munmap(&mut k, 0x1000_0000, 4096), -1);
    assert_eq!(sys_munmap(&mut k, 0x1000_0000, 8192), 0);
    // the node stays
    assert_eq!(k.frames.free_count(), free - 1);
    // the page is gone: a write faults
    assert!(!k.user_write(0x1000_0000, &vec![5]));
    assert_eq!(sys_munmap(&mut k, 0x1000_0000, 8192), -1);
    let t = &k.procs[0].as_ref().unwrap().tasks[0];
    assert_eq!((t.syscall_times[222], t.syscall_times[215]), (1, 3));
}

#[test]
fn mmap_rejects_bad_arguments() {
    let mut k = boot(128);
    assert_eq!(sys_mmap(&mut k, 0x1000_0001, 4096, 3), -1);
    assert_eq!(sys_mmap(&mut k, 0x1000_0000, 4096, 0), -1);
    assert_eq!(sys_mmap(&mut k, 0x1000_0000, 4096, 8), -1);
    assert_eq!(sys_mmap(&mut k, usize::MAX - 4095, 8192, 1), -1);
    // a page that is mapped already
    assert_eq!(sys_mmap(&mut k, 0x10000, 4096, 1), -1);
    // more pages than frames
    assert_eq!(sys_mmap(&mut k, 0x1000_0000, 4096 * 1000, 1), -1);
    assert_eq!(sys_munmap(&mut k, 0x1000_0001, 4096), -1);
    assert_eq!(k.procs[0].as_ref().unwrap().memory_set.area_count(), 3);
    // read only: bit 0 alone
    assert_eq!(sys_mmap(&mut k, 0x1000_0000, 1, 1), 0);
    let area = k.procs[0].as_ref().unwrap().memory_set.area(3);
    let perm = area.map_perm();
    assert!(perm.r && !perm.w && !perm.x && perm.u);
    assert_eq!((area.start_vpn(), area.end_vpn()), (0x10000, 0x10001));
}

#[test]
fn get_time_across_a_page_boundary() {
    let mut k = boot(64);
    k.tick(3_000_007);
    let ts = 0x13FFC;
    assert_eq!(sys_get_time(&mut k, ts, 0), 0);
    let bytes = k.user_read(ts, 16).unwrap();
    assert_eq!(&bytes[0..8], &[3, 0, 0, 0, 0, 0, 0, 0]);
    assert_eq!(&bytes[8..16], &[7, 0, 0, 0, 0, 0, 0, 0]);
    assert_eq!(sys_get_time(&mut k, 0x14FF8, 0), -1);
    assert_eq!(k.user_read(0x14FF8, 8), Some(vec![0; 8]));
}

#[test]
fn task_info_reports_status_counters_and_time() {
    let mut k = boot(64);
    k.tick(5_000);
    sys_getpid(&mut k);
    k.tick(12_000);
    let ti = 0x13F00;
    assert_eq!(sys_task_info(&mut k, ti), 0);
    let bytes = k.user_read(ti, 2016).unwrap();
    // running
    assert_eq!(&bytes[0..4], &[1, 0, 0, 0]);
    let counter = |n: usize| u32::from_le_bytes([bytes[4 + 4 * n], bytes[5 + 4 * n], bytes[6 + 4 * n], bytes[7 + 4 * n]]);
    assert_eq!(counter(172), 1);
    assert_eq!(counter(410), 1);
    assert_eq!(counter(64), 0);
    // first ran at time 0, asked at 12 ms
    assert_eq!(&bytes[2008..2016], &[12, 0, 0, 0, 0, 0, 0, 0]);
    assert_eq!(sys_task_info(&mut k, 0x14FF0), -1);
}

#[test]
fn sbrk_moves_the_break() {
    let mut k = boot(64);
    let free = k.frames.free_count();
    assert_eq!(sys_sbrk(&mut k, 0), 0x15000);
    assert_eq!(sys_sbrk(&mut k, -1), -1);
    assert_eq!(sys_sbrk(&mut k, 1), 0x15000);
    assert_eq!(k.frames.free_count(), free - 1);
    assert!(k.user_write(0x15000, &vec![7; 4096]));
    assert!(!k.user_write(0x16000, &vec![7]));
    assert_eq!(sys_sbrk(&mut k, 8191), 0x15001);
    assert_eq!(k.frames.free_count(), free - 2);
    assert_eq!(sys_sbrk(&mut k, -4096), 0x17000);
    assert_eq!(k.frames.free_count(), free - 1);
    assert_eq!(k.user_read(0x15000, 1), Some(vec![7]));
    assert_eq!(sys_sbrk(&mut k, -0x1001), -1);
    assert_eq!(sys_sbrk(&mut k, -0x1000), 0x16000);
    assert_eq!(k.frames.free_count(), free);
    assert_eq!(k.procs[0].as_ref().unwrap().program_brk, 0x15000);
    // the heap may not grow into pages that are mapped
    assert_eq!(sys_mmap(&mut k, 0x16000, 4096, 3), 0);
    assert_eq!(sys_sbrk(&mut k, 0x2000), -1);
    assert_eq!(sys_sbrk(&mut k, 0x1000), 0x15000);
}

#[test]
fn write_then_read_after_reopening() {
    let mut k = boot(64);
    let path = SCRATCH;
    let buf = SCRATCH + 0xFF0;
    put_str(&mut k, path, "data");
    let data: Vec<u8> = (0..40u8).collect();
    assert!(k.user_write(buf, &data));
    // no such file without the create bit
    assert_eq!(sys_open(&mut k, path, 0), -1);
    assert_eq!(sys_open(&mut k, path, 4), -1);
    let fd = sys_open(&mut k, path, 512 | 1);
    assert_eq!(fd, 0);
    assert_eq!(sys_write(&mut k, 0, buf, 40), 40);
    // opened for writing only
    assert_eq!(sys_read(&mut k, 0, buf, 40), -1);
    assert_eq!(sys_close(&mut k, 0), 0);
    assert_eq!(sys_close(&mut k, 0), -1);
    assert_eq!(sys_write(&mut k, 0, buf, 40), -1);
    assert_eq!(sys_open(&mut k, path, 0), 0);
    assert!(k.user_write(buf, &vec![0; 40]));
    assert_eq!(sys_read(&mut k, 0, buf, 100), 40);
    assert_eq!(k.user_read(buf, 40), Some(data));
    assert_eq!(sys_read(&mut k, 0, buf, 100), 0);
    // opened for reading only
    assert_eq!(sys_write(&mut k, 0, buf, 1), -1);
    assert_eq!(sys_read(&mut k, 7, buf, 1), -1);
    assert_eq!(sys_read(&mut k, 0, 0x12000, 1), -1);
    let t = &k.procs[0].as_ref().unwrap().tasks[0];
    assert_eq!((t.syscall_times[63], t.syscall_times[64]), (5, 3));
}

#[test]
fn descriptors_are_the_lowest_free() {
    let mut k = boot(64);
    put_str(&mut k, SCRATCH, "a");
    put_str(&mut k, SCRATCH + 8, "b");
    assert_eq!(sys_open(&mut k, SCRATCH, 512), 0);
    assert_eq!(sys_open(&mut k, SCRATCH + 8, 512), 1);
    assert_eq!(sys_open(&mut k, SCRATCH, 0), 2);
    assert_eq!(sys_close(&mut k, 1), 0);
    assert_eq!(sys_open(&mut k, SCRATCH + 8, 0), 1);
    assert_eq!(k.procs[0].as_ref().unwrap().fd_table, vec![Some(0), Some(3), Some(2)]);
}

#[test]
fn forked_child_shares_the_open_file() {
    let mut k = boot(128);
    put_str(&mut k, SCRATCH, "f");
    assert!(k.user_write(SCRATCH + 16, &vec![1, 2, 3, 4]));
    assert_eq!(sys_open(&mut k, SCRATCH, 512 | 2), 0);
    assert_eq!(sys_write(&mut k, 0, SCRATCH + 16, 2), 2);
    sys_fork(&mut k);
    sys_yield(&mut k);
    k.run_next();
    // the child goes on where the parent stopped
    assert_eq!(sys_write(&mut k, 0, SCRATCH + 18, 2), 2);
    assert_eq!(k.files[0].offset, 4);
    assert_eq!(k.fs.read_at(1, 0, 10), vec![1, 2, 3, 4]);
}

#[test]
fn linkat_fstat_unlinkat() {
    let mut k = boot(64);
    let a = SCRATCH;
    let b = SCRATCH + 8;
    let st = 0x13FE0;
    put_str(&mut k, a, "a");
    put_str(&mut k, b, "b");
    assert_eq!(sys_open(&mut k, a, 512), 0);
    assert_eq!(sys_linkat(&mut k, a, a), -1);
    assert_eq!(sys_linkat(&mut k, b, a), -1);
    assert_eq!(sys_linkat(&mut k, a, b), 0);
    assert_eq!(sys_open(&mut k, b, 0), 1);
    assert_eq!(sys_fstat(&mut k, 1, st), 0);
    let of_b = k.user_read(st, 80).unwrap();
    assert_eq!(sys_fstat(&mut k, 0, st), 0);
    let of_a = k.user_read(st, 80).unwrap();
    assert_eq!(of_a, of_b);
    // inode 1, an ordinary file, two links
    assert_eq!(&of_b[8..16], &[1, 0, 0, 0, 0, 0, 0, 0]);
    assert_eq!(&of_b[16..20], &[0, 0x80, 0, 0]);
    assert_eq!(&of_b[20..24], &[2, 0, 0, 0]);
    assert_eq!(sys_unlinkat(&mut k, a), 0);
    assert_eq!(sys_unlinkat(&mut k, a), -1);
    assert_eq!(sys_fstat(&mut k, 1, st), 0);
    let after = k.user_read(st, 80).unwrap();
    assert_eq!(&after[8..16], &[1, 0, 0, 0, 0, 0, 0, 0]);
    assert_eq!(&after[20..24], &[1, 0, 0, 0]);
    assert_eq!(sys_open(&mut k, a, 0), -1);
    assert_eq!(sys_fstat(&mut k, 9, st), -1);
    assert_eq!(sys_fstat(&mut k, 1, 0x14FF0), -1);
    assert_eq!(k.procs[0].as_ref().unwrap().tasks[0].syscall_times[400], 5);
}

#[test]
fn linkat_compares_the_addresses() {
    let mut k = boot(64);
    let a = SCRATCH;
    let again = SCRATCH + 8;
    put_str(&mut k, a, "a");
    put_str(&mut k, again, "a");
    assert_eq!(sys_open(&mut k, a, 512), 0);
    // one address twice is refused, one name at two addresses is not
    assert_eq!(sys_linkat(&mut k, a, a), -1);
    assert_eq!(k.fs.file_count(), 1);
    assert_eq!(sys_linkat(&mut k, a, again), 0);
    assert_eq!(k.fs.file_count(), 2);
    assert_eq!(k.fs.link_count(1), 2);
    assert_eq!(k.fs.read_dirent(1).inode_id(), 1);
    // both entries go with the name, and both links with them
    assert_eq!(sys_unlinkat(&mut k, again), 0);
    assert_eq!(k.fs.file_count(), 0);
    assert_eq!(k.fs.link_count(1), 0);
}

#[test]
fn boot_takes_exactly_what_the_image_needs() {
    // ten frames hold the first process, with every node counted once
    let k = Kernel::new(BASE, BASE + 10, 16, vec![image("init", 1)], 0).unwrap();
    assert_eq!(k.frames.free_count(), 0);
    assert_eq!(image("init", 1).check(), Some(10));
}

#[test]
fn fork_takes_exactly_what_the_copy_needs() {
    // a heap of a hundred pages, each an area of its own
    let mut k = boot(400);
    assert_eq!(sys_sbrk(&mut k, 100 * 4096), 0x15000);
    let used = 400 - k.frames.free_count();
    assert_eq!(used, 10 + 100);
    assert_eq!(k.procs[0].as_ref().unwrap().memory_set.count_clone_cost(), Some(used));
    assert_eq!(sys_fork(&mut k), 1);
    assert_eq!(k.frames.free_count(), 400 - 2 * used);
    // with exactly that many frames left the copy is made
    let mut tight = boot(2 * used);
    assert_eq!(sys_sbrk(&mut tight, 100 * 4096), 0x15000);
    assert_eq!(sys_fork(&mut tight), 1);
    assert_eq!(tight.frames.free_count(), 0);
    // and with one less it is not
    let mut short = boot(2 * used - 1);
    assert_eq!(sys_sbrk(&mut short, 100 * 4096), 0x15000);
    assert_eq!(sys_fork(&mut short), -1);
    assert_eq!(short.frames.free_count(), used - 1);
}

use kernel_core::codec::{to_low32, to_signed, to_signed32};
use kernel_core::kernel::Kernel;
use kernel_core::loader::{AppImage, Segment};
use kernel_core::mm::memory_set::MapPermission;
use kernel_core::syscall::{schedule, syscall};
use kernel_core::task::task::{Pending, TaskId, TaskStatus};

fn started() -> Kernel {
    let init = AppImage {
        name: b"init".to_vec(),
        entry: 0x10000,
        segments: vec![Segment {
            start_va: 0x10000,
            end_va: 0x12000,
            perm: MapPermission { r: true, w: true, x: true, u: false },
            data: vec![7; 4],
        }],
    };
    let mut k = Kernel::new(0x80000, 0x80000 + 256, 16, vec![init], 0).unwrap();
    schedule(&mut k);
    k
}

fn a0_of(k: &Kernel, pid: usize, tid: usize) -> isize {
    k.procs[pid].as_ref().unwrap().tasks[tid].task_cx.a0
}

#[test]
fn call_numbers_reach_their_handlers() {
    let mut k = started();
    assert_eq!(k.current, Some(TaskId { pid: 0, tid: 0 }));
    // getpid
    assert_eq!(syscall(&mut k, 172, 0, 0, 0), Some(0));
    // set_priority reads its argument as a signed number
    assert_eq!(syscall(&mut k, 140, 5, 0, 0), Some(5));
    assert_eq!(a0_of(&k, 0, 0), 5);
    assert_eq!(syscall(&mut k, 140, usize::MAX, 0, 0), Some(-1));
    assert_eq!(a0_of(&k, 0, 0), -1);
    // mmap, a write into the new page through a file read of nothing, munmap
    assert_eq!(syscall(&mut k, 222, 0x1000_0000, 8192, 3), Some(0));
    assert_eq!(syscall(&mut k, 215, 0x1000_0000, 4096, 0), Some(-1));
    assert_eq!(syscall(&mut k, 215, 0x1000_0000, 8192, 0), Some(0));
    // fork leaves the number of the child with the parent and 0 with the child
    assert_eq!(syscall(&mut k, 1220, 0, 0, 0), Some(1));
    assert_eq!(a0_of(&k, 0, 0), 1);
    assert_eq!(a0_of(&k, 1, 0), 0);
    // waitpid takes -1 for any child
    assert_eq!(syscall(&mut k, 260, usize::MAX, 0x13000, 0), Some(-2));
    let counters = &k.procs[0].as_ref().unwrap().tasks[0].syscall_times;
    assert_eq!(counters[172], 1);
    assert_eq!(counters[140], 2);
    assert_eq!(counters[222], 1);
    assert_eq!(counters[215], 2);
    assert_eq!(counters[260], 1);
}

#[test]
fn unknown_numbers_and_exit_return_nothing() {
    let mut k = started();
    let free = k.frames.free_count();
    assert_eq!(syscall(&mut k, 7, 1, 2, 3), None);
    assert_eq!(k.current, Some(TaskId { pid: 0, tid: 0 }));
    assert_eq!(k.frames.free_count(), free);
    assert_eq!(a0_of(&k, 0, 0), 0);
    assert_eq!(syscall(&mut k, 1220, 0, 0, 0), Some(1));
    // exit with code 42: nobody runs, and the child is next
    assert_eq!(syscall(&mut k, 93, 42, 0, 0), None);
    assert!(k.current.is_none());
    assert_eq!(k.procs[0].as_ref().unwrap().exit_code, 42);
    assert_eq!(k.procs[0].as_ref().unwrap().tasks[0].task_status, TaskStatus::Zombie);
    schedule(&mut k);
    assert_eq!(k.current, Some(TaskId { pid: 1, tid: 0 }));
}

#[test]
fn schedule_passes_over_tasks_that_still_sleep() {
    let mut k = started();
    assert_eq!(syscall(&mut k, 1220, 0, 0, 0), Some(1));
    // the parent yields, the child runs
    assert_eq!(syscall(&mut k, 124, 0, 0, 0), Some(0));
    assert!(k.current.is_none());
    schedule(&mut k);
    assert_eq!(k.current, Some(TaskId { pid: 1, tid: 0 }));
    // a task that runs with nothing pending stays
    schedule(&mut k);
    assert_eq!(k.current, Some(TaskId { pid: 1, tid: 0 }));
    assert!(matches!(k.procs[1].as_ref().unwrap().tasks[0].pending, Pending::Nothing));
    // with everybody gone from the queue nobody runs
    assert_eq!(syscall(&mut k, 93, 0, 0, 0), None);
    schedule(&mut k);
    assert_eq!(k.current, Some(TaskId { pid: 0, tid: 0 }));
    assert_eq!(syscall(&mut k, 93, 0, 0, 0), None);
    schedule(&mut k);
    assert!(k.current.is_none());
}

#[test]
fn every_numbered_call_counts_itself() {
    let mut k = started();
    // open with create, link, unlink, close, through their numbers
    assert!(k.user_write(0x13000, &b"a\0".to_vec()));
    assert!(k.user_write(0x13008, &b"b\0".to_vec()));
    assert_eq!(syscall(&mut k, 56, 0x13000, 512, 0), Some(0));
    assert_eq!(syscall(&mut k, 56, 0x13008, 0, 0), Some(-1));
    assert_eq!(syscall(&mut k, 37, 0x13000, 0x13008, 0), Some(0));
    assert_eq!(syscall(&mut k, 37, 0x13000, 0x13000, 0), Some(-1));
    assert_eq!(syscall(&mut k, 35, 0x13000, 0, 0), Some(0));
    assert_eq!(syscall(&mut k, 57, 0, 0, 0), Some(0));
    assert_eq!(syscall(&mut k, 57, 0, 0, 0), Some(-1));
    assert_eq!(syscall(&mut k, 469, 1, 0, 0), Some(0));
    assert!(k.procs[0].as_ref().unwrap().enable_deadlock_detect);
    assert_eq!(syscall(&mut k, 101, 5, 0, 0), Some(0));
    assert!(k.current.is_none());
    let counters = &k.procs[0].as_ref().unwrap().tasks[0].syscall_times;
    assert_eq!(counters[56], 2);
    assert_eq!(counters[37], 2);
    assert_eq!(counters[35], 1);
    assert_eq!(counters[57], 2);
    assert_eq!(counters[469], 1);
    assert_eq!(counters[101], 1);
    assert_eq!(counters.iter().map(|&n| n as usize).sum::<usize>(), 9);
}

#[test]
fn registers_are_read_in_two_complement() {
    assert_eq!(to_signed(0), 0);
    assert_eq!(to_signed(isize::MAX as usize), isize::MAX);
    assert_eq!(to_signed(isize::MAX as usize + 1), isize::MIN);
    assert_eq!(to_signed(usize::MAX), -1);
    assert_eq!(to_low32(0x200), 0x200);
    assert_eq!(to_low32(usize::MAX), u32::MAX);
    assert_eq!(to_low32(usize::MAX - 0xffff_ffff), 0);
    assert_eq!(to_signed32(42), 42);
    assert_eq!(to_signed32(0x7fff_ffff), i32::MAX);
    assert_eq!(to_signed32(0x8000_0000), i32::MIN);
    assert_eq!(to_signed32(usize::MAX - 41), -42);
    // exit takes its code from the low bits
    let mut k = started();
    assert_eq!(syscall(&mut k, 93, usize::MAX - 41, 0, 0), None);
    assert_eq!(k.procs[0].as_ref().unwrap().exit_code, -42);
}

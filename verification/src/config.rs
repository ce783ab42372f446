//! Constants of the machine and of the kernel's tables.

use vstd::prelude::*;

verus! {

/// Bytes in one page.
pub const PAGE_SIZE: usize = 4096;

/// Entries in one page-table node.
pub const PT_ENTRIES: usize = 512;

/// Virtual page numbers are 27 bits wide: three 9-bit indices.
pub const VPN_LIMIT: usize = 0x800_0000;

/// Pages in the user stack of a new process.
pub const USER_STACK_PAGES: usize = 2;

/// The page that holds the trap context of a process: the last but one of
/// the address space, closed to user mode.
pub const TRAP_CONTEXT_VPN: usize = 0x7ff_fffe;

/// The number of system-call counters a task carries: one per call number
/// below this.
pub const MAX_SYSCALL_NUM: usize = 500;

/// The pid of the first process, which adopts the children of processes
/// that exit.
pub const INIT_PID: usize = 0;

/// What a system call returns when it fails.
pub const FAILURE: isize = -1;

/// What `waitpid` returns when a child matches but none has exited.
pub const STILL_RUNNING: isize = -2;

/// What a lock attempt returns when it is given up to avoid a deadlock.
pub const DEADLOCK: isize = -0xDEAD;

/// Call number of `read`.
pub const SYSCALL_READ: usize = 63;

/// Call number of `write`.
pub const SYSCALL_WRITE: usize = 64;

/// Call number of `exit`.
pub const SYSCALL_EXIT: usize = 93;

/// Call number of `yield`.
pub const SYSCALL_YIELD: usize = 124;

/// Call number of `set_priority`.
pub const SYSCALL_SET_PRIORITY: usize = 140;

/// Call number of `get_time`.
pub const SYSCALL_GET_TIME: usize = 169;

/// Call number of `getpid`.
pub const SYSCALL_GETPID: usize = 172;

/// Call number of `sbrk`.
pub const SYSCALL_SBRK: usize = 214;

/// Call number of `munmap`.
pub const SYSCALL_MUNMAP: usize = 215;

/// Call number of `spawn`.
pub const SYSCALL_SPAWN: usize = 220;

/// Call number of `exec`.
pub const SYSCALL_EXEC: usize = 221;

/// Call number of `mmap`.
pub const SYSCALL_MMAP: usize = 222;

/// Call number of `waitpid`.
pub const SYSCALL_WAITPID: usize = 260;

/// Call number of `fstat`.
pub const SYSCALL_FSTAT: usize = 400;

/// Call number of `task_info`.
pub const SYSCALL_TASK_INFO: usize = 410;

/// Call number of `unlinkat`.
pub const SYSCALL_UNLINKAT: usize = 35;

/// Call number of `linkat`.
pub const SYSCALL_LINKAT: usize = 37;

/// Call number of `open`.
pub const SYSCALL_OPEN: usize = 56;

/// Call number of `close`.
pub const SYSCALL_CLOSE: usize = 57;

/// Call number of `sleep`.
pub const SYSCALL_SLEEP: usize = 101;

/// Call number of `enable_deadlock_detect`.
pub const SYSCALL_ENABLE_DEADLOCK_DETECT: usize = 469;

/// Call number of `thread_create`.
pub const SYSCALL_THREAD_CREATE: usize = 1000;

/// Call number of `mutex_create`.
pub const SYSCALL_MUTEX_CREATE: usize = 1010;

/// Call number of `mutex_lock`.
pub const SYSCALL_MUTEX_LOCK: usize = 1011;

/// Call number of `mutex_unlock`.
pub const SYSCALL_MUTEX_UNLOCK: usize = 1012;

/// Call number of `semaphore_create`.
pub const SYSCALL_SEMAPHORE_CREATE: usize = 1020;

/// Call number of `semaphore_up`.
pub const SYSCALL_SEMAPHORE_UP: usize = 1021;

/// Call number of `semaphore_down`.
pub const SYSCALL_SEMAPHORE_DOWN: usize = 1022;

/// Call number of `condvar_create`.
pub const SYSCALL_CONDVAR_CREATE: usize = 1030;

/// Call number of `condvar_signal`.
pub const SYSCALL_CONDVAR_SIGNAL: usize = 1031;

/// Call number of `condvar_wait`.
pub const SYSCALL_CONDVAR_WAIT: usize = 1032;

/// Call number of `fork`.
pub const SYSCALL_FORK: usize = 1220;

} // verus!

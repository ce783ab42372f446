//! File and filesystem-related system calls.

use vstd::prelude::*;
use crate::config::{FAILURE, SYSCALL_CLOSE, SYSCALL_FSTAT, SYSCALL_LINKAT, SYSCALL_OPEN, SYSCALL_READ, SYSCALL_UNLINKAT, SYSCALL_WRITE};
use crate::fs::file::{can_open, open_file, opened_from, stat_of, stat_spec, wrote_from, OSInode, OpenFlags, STAT_SIZE};
use crate::fs::inode::{lookup, read_spec};
use crate::kernel::{lemma_files_fs, lemma_files_table, Kernel};
use crate::task::process::{find_free_slot, free_slot};

verus! {

/// Whether `write` goes through: the descriptor names an open file that
/// may be written, the length fits in what is returned, and the task may
/// touch the whole buffer.
pub open spec fn write_plan(k: Kernel, fd: usize, buf: usize, len: usize) -> bool {
    &&& k.fd_handle(fd).is_some()
    &&& k.files@[k.fd_handle(fd).unwrap() as int].writable
    &&& len <= isize::MAX
    &&& k.cur_ms().user_range_ok(buf, len)
}

/// What `sys_write` makes of the kernel: whether the call, made in the state
/// `k0`, leaves the state `k1` and returns `r`.
pub open spec fn sys_write_post(k0: Kernel, k1: Kernel, fd: usize, buf: usize, len: usize, r: isize) -> bool {
    &&& k1.running()
    &&& k1.same_but_frames(k0)
    &&& k1.frames == k0.frames
    &&& k1.tasks_counted(k0, SYSCALL_WRITE)
    &&& !write_plan(k0, fd, buf, len) ==> r == FAILURE && k1.fs == k0.fs && k1.files == k0.files
    &&& write_plan(k0, fd, buf, len) ==> {
        let h = k0.fd_handle(fd).unwrap() as int;
        &&& r >= 0
        &&& k1.files@ == k0.files@.update(h, k1.files@[h])
        &&& wrote_from(
            k1.fs,
            k0.fs,
            k1.files@[h],
            k0.files@[h],
            k0.cur_ms().user_bytes(k0.frames, buf, len as nat),
            r as usize,
        )
    }
}

/// Writes the `len` bytes at `buf` in the memory of the running task to
/// the file that descriptor `fd` names, at the position of the handle,
/// which moves behind them. Returns the number of bytes written; fails
/// with -1, and writes nothing, exactly when `write_plan` does not hold.
pub fn sys_write(k: &mut Kernel, fd: usize, buf: usize, len: usize) -> (r: isize)
    requires
        old(k).running(),
    ensures
        sys_write_post(*old(k), *final(k), fd, buf, len, r),
{
    let ghost before = *k;
    k.count_syscall(SYSCALL_WRITE);
    let ghost counted = *k;
    proof {
        assert(counted.cur_proc().fd_table == before.cur_proc().fd_table);
        assert(counted.cur_ms() == before.cur_ms());
    }
    let h: usize = match k.lookup_fd(fd) {
        None => {
            return FAILURE;
        },
        Some(h) => h,
    };
    let mut file: OSInode = k.files[h];
    if !file.writable || len > isize::MAX as usize {
        return FAILURE;
    }
    let bytes: Vec<u8> = match k.user_read(buf, len) {
        None => {
            return FAILURE;
        },
        Some(bytes) => bytes,
    };
    let cur = k.current_id();
    let n: usize = file.write(&mut k.fs, &bytes);
    k.files[h] = file;
    proof {
        lemma_files_fs(counted.fd_tables(), counted.files@, counted.fs, k.fs);
        assert(k.fd_tables() =~= counted.fd_tables());
        lemma_files_table(
            counted.fd_tables(),
            k.fd_tables(),
            counted.files@,
            k.files@,
            k.fs,
            cur.pid as int,
        );
        k.lemma_files_update(counted, cur.pid as int);
    }
    n as isize
}

/// Whether `read` goes through: the descriptor names an open file that
/// may be read, the length fits in what is returned, and the task may
/// touch the whole buffer.
pub open spec fn read_plan(k: Kernel, fd: usize, buf: usize, len: usize) -> bool {
    &&& k.fd_handle(fd).is_some()
    &&& k.files@[k.fd_handle(fd).unwrap() as int].readable
    &&& len <= isize::MAX
    &&& k.cur_ms().user_range_ok(buf, len)
}

/// What `sys_read` makes of the kernel: whether the call, made in the state
/// `k0`, leaves the state `k1` and returns `r`.
pub open spec fn sys_read_post(k0: Kernel, k1: Kernel, fd: usize, buf: usize, len: usize, r: isize) -> bool {
    &&& k1.running()
    &&& k1.same_but_frames(k0)
    &&& k1.frames.same_frames(k0.frames)
    &&& k1.fs == k0.fs
    &&& k1.tasks_counted(k0, SYSCALL_READ)
    &&& !read_plan(k0, fd, buf, len) ==> r == FAILURE && k1.frames == k0.frames
        && k1.files == k0.files
    &&& read_plan(k0, fd, buf, len) ==> {
        let h = k0.fd_handle(fd).unwrap() as int;
        let f = k0.files@[h];
        let bytes = read_spec(k0.fs.data(f.inode_id as int), f.offset as int, len as int);
        &&& r == bytes.len()
        &&& k1.files@ == k0.files@.update(
            h,
            OSInode { offset: (f.offset + bytes.len()) as usize, ..f },
        )
        &&& k1.wrote_user(k0, buf, bytes)
    }
}

/// Reads up to `len` bytes of the file that descriptor `fd` names, from
/// the position of the handle, which moves behind them, into the memory of
/// the running task at `buf`. Returns the number of bytes read; fails with
/// -1, and reads nothing, exactly when `read_plan` does not hold.
pub fn sys_read(k: &mut Kernel, fd: usize, buf: usize, len: usize) -> (r: isize)
    requires
        old(k).running(),
    ensures
        sys_read_post(*old(k), *final(k), fd, buf, len, r),
{
    let ghost before = *k;
    k.count_syscall(SYSCALL_READ);
    let ghost counted = *k;
    proof {
        assert(counted.cur_proc().fd_table == before.cur_proc().fd_table);
        assert(counted.cur_ms() == before.cur_ms());
    }
    let h: usize = match k.lookup_fd(fd) {
        None => {
            return FAILURE;
        },
        Some(h) => h,
    };
    let mut file: OSInode = k.files[h];
    if !file.readable || len > isize::MAX as usize {
        return FAILURE;
    }
    if !k.user_check(buf, len) {
        return FAILURE;
    }
    let cur = k.current_id();
    let bytes: Vec<u8> = file.read(&k.fs, len);
    k.files[h] = file;
    let ghost moved = *k;
    proof {
        assert(k.fd_tables() =~= counted.fd_tables());
        lemma_files_table(
            counted.fd_tables(),
            k.fd_tables(),
            counted.files@,
            k.files@,
            k.fs,
            cur.pid as int,
        );
        k.lemma_files_update(counted, cur.pid as int);
        assert(k.cur_ms() == before.cur_ms());
        assert(k.cur_ms().user_range_ok(buf, bytes@.len() as usize)) by {
            assert forall|va: usize| buf <= va < buf + bytes@.len() implies #[trigger] k.cur_ms().user_ok(
                va,
            ) by {}
        }
    }
    let ok: bool = k.user_write(buf, &bytes);
    proof {
        assert(k.cur_ms() == before.cur_ms());
    }
    bytes.len() as isize
}

/// The name that `open` is given: the string at `path` in the memory of
/// the running task.
pub open spec fn path_at(k: Kernel, path: usize) -> Option<Seq<u8>> {
    k.cur_ms().user_str(k.frames, path)
}

/// Whether `open` goes through: a string ends at `path`, the flags hold no
/// bit that is not defined, the first free descriptor fits in what is
/// returned, and the filesystem opens the file.
pub open spec fn open_plan(k: Kernel, path: usize, flags: u32) -> bool {
    &&& path_at(k, path).is_some()
    &&& OpenFlags::valid_bits(flags)
    &&& free_slot(k.cur_proc().fd_table@, 0) < isize::MAX
    &&& can_open(k.fs, path_at(k, path).unwrap(), OpenFlags { bits: flags })
}

/// What `sys_open` does once the call is counted: whether the step, made in
/// the state `k0`, leaves the state `k1` and returns `r`.
pub open spec fn open_step(k0: Kernel, k1: Kernel, path: usize, flags: u32, r: isize) -> bool {
    &&& k1.running()
    &&& !open_plan(k0, path, flags) ==> r == FAILURE && k1 == k0
    &&& open_plan(k0, path, flags) ==> {
        let pid = k0.current.unwrap().pid as int;
        let fd = free_slot(k0.cur_proc().fd_table@, 0);
        let table = k0.cur_proc().fd_table@;
        let h = k0.files@.len() as usize;
        &&& r == fd
        &&& k1.same_but_files(k0, pid)
        &&& k1.files@.len() == k0.files@.len() + 1
        &&& k1.files@.drop_last() == k0.files@
        &&& opened_from(
            k1.fs,
            k0.fs,
            path_at(k0, path).unwrap(),
            OpenFlags { bits: flags },
            k1.files@.last(),
        )
        &&& k1.cur_proc().fd_table@ == (if fd < table.len() {
            table.update(fd, Some(h))
        } else {
            table.push(Some(h))
        })
    }
}

/// `sys_open` once the call is counted.
fn open_counted(k: &mut Kernel, path: usize, flags: u32) -> (r: isize)
    requires
        old(k).running(),
    ensures
        open_step(*old(k), *final(k), path, flags, r),
{
    let ghost before = *k;
    let name: Vec<u8> = match k.user_str(path) {
        None => {
            return FAILURE;
        },
        Some(name) => name,
    };
    let fl: OpenFlags = match OpenFlags::from_bits(flags) {
        None => {
            return FAILURE;
        },
        Some(fl) => fl,
    };
    let cur = k.current_id();
    let fd: usize = find_free_slot(&k.current_process().fd_table);
    if fd >= isize::MAX as usize {
        return FAILURE;
    }
    proof {
        assert(k.fs.wf());
    }
    let file: OSInode = match open_file(&mut k.fs, &name, fl) {
        None => {
            return FAILURE;
        },
        Some(file) => file,
    };
    let h: usize = k.files.len();
    k.files.push(file);
    match &mut k.procs[cur.pid] {
        Some(p) => {
            if fd < p.fd_table.len() {
                p.fd_table[fd] = Some(h);
            } else {
                p.fd_table.push(Some(h));
            }
        },
        None => {},
    }
    proof {
        lemma_files_fs(before.fd_tables(), before.files@, before.fs, k.fs);
        assert(before.fd_tables()[cur.pid as int].unwrap() == before.cur_proc().fd_table@);
        assert forall|d: int|
            0 <= d < k.fd_tables()[cur.pid as int].unwrap().len() && (
            #[trigger] k.fd_tables()[cur.pid as int].unwrap()[d]).is_some() implies k.fd_tables()[cur.pid as int].unwrap()[d].unwrap()
            < k.files@.len() by {
            if d != fd {
                assert(before.fd_tables()[cur.pid as int].unwrap()[d].is_some());
            }
        }
        lemma_files_table(
            before.fd_tables(),
            k.fd_tables(),
            before.files@,
            k.files@,
            k.fs,
            cur.pid as int,
        );
        k.lemma_files_update(before, cur.pid as int);
        assert(k.files@.drop_last() =~= before.files@);
    }
    fd as isize
}

/// What `sys_open` makes of the kernel: whether the call, made in the state
/// `k0`, leaves the state `k1` and returns `r`. The call is counted
/// first, whatever comes of it.
pub open spec fn sys_open_post(k0: Kernel, k1: Kernel, path: usize, flags: u32, r: isize) -> bool {
    &&& k1.running()
    &&& r == (if open_plan(k0, path, flags) {
        free_slot(k0.cur_proc().fd_table@, 0) as int
    } else {
        FAILURE as int
    })
    &&& !open_plan(k0, path, flags) ==> k1.counted_from(k0, SYSCALL_OPEN)
    &&& exists|c: Kernel| #[trigger] c.counted_from(k0, SYSCALL_OPEN) && open_step(c, k1, path, flags, r)
}

/// Opens the file whose name is the string at `path`, and gives it the
/// lowest descriptor that is not in use, which is returned. The handle is
/// new, and put behind the open files there are. Fails with -1, and
/// changes nothing but the counter of the call, exactly when `open_plan`
/// does not hold.
pub fn sys_open(k: &mut Kernel, path: usize, flags: u32) -> (r: isize)
    requires
        old(k).running(),
    ensures
        sys_open_post(*old(k), *final(k), path, flags, r),
{
    let ghost k0 = *k;
    k.count_syscall(SYSCALL_OPEN);
    let ghost c = *k;
    proof {
        assert(c.cur_proc().fd_table == k0.cur_proc().fd_table);
        assert(c.cur_ms() == k0.cur_ms());
    }
    let r = open_counted(k, path, flags);
    proof {
        assert(c.counted_from(k0, SYSCALL_OPEN) && open_step(c, *k, path, flags, r));
    }
    r
}

/// What `sys_close` does once the call is counted: whether the step, made in
/// the state `k0`, leaves the state `k1` and returns `r`.
pub open spec fn close_step(k0: Kernel, k1: Kernel, fd: usize, r: isize) -> bool {
    &&& k1.running()
    &&& r == (if k0.fd_handle(fd).is_some() {
        0
    } else {
        FAILURE
    })
    &&& r != 0 ==> k1 == k0
    &&& r == 0 ==> {
        &&& k1.same_but_files(k0, k0.current.unwrap().pid as int)
        &&& k1.fs == k0.fs
        &&& k1.files == k0.files
        &&& k1.cur_proc().fd_table@ == k0.cur_proc().fd_table@.update(
            fd as int,
            None,
        )
    }
}

/// `sys_close` once the call is counted.
fn close_counted(k: &mut Kernel, fd: usize) -> (r: isize)
    requires
        old(k).running(),
    ensures
        close_step(*old(k), *final(k), fd, r),
{
    let ghost before = *k;
    if k.lookup_fd(fd).is_none() {
        return FAILURE;
    }
    let cur = k.current_id();
    match &mut k.procs[cur.pid] {
        Some(p) => {
            p.fd_table[fd] = None;
        },
        None => {},
    }
    proof {
        assert(before.fd_tables()[cur.pid as int].unwrap() == before.cur_proc().fd_table@);
        assert forall|d: int|
            0 <= d < k.fd_tables()[cur.pid as int].unwrap().len() && (
            #[trigger] k.fd_tables()[cur.pid as int].unwrap()[d]).is_some() implies k.fd_tables()[cur.pid as int].unwrap()[d].unwrap()
            < k.files@.len() by {
            assert(before.fd_tables()[cur.pid as int].unwrap()[d].is_some());
        }
        lemma_files_table(
            before.fd_tables(),
            k.fd_tables(),
            before.files@,
            k.files@,
            k.fs,
            cur.pid as int,
        );
        k.lemma_files_update(before, cur.pid as int);
    }
    0
}

/// What `sys_close` makes of the kernel: whether the call, made in the state
/// `k0`, leaves the state `k1` and returns `r`. The call is counted
/// first, whatever comes of it.
pub open spec fn sys_close_post(k0: Kernel, k1: Kernel, fd: usize, r: isize) -> bool {
    &&& k1.running()
    &&& r == (if k0.fd_handle(fd).is_some() {
        0
    } else {
        FAILURE
    })
    &&& r == FAILURE ==> k1.counted_from(k0, SYSCALL_CLOSE)
    &&& exists|c: Kernel| #[trigger] c.counted_from(k0, SYSCALL_CLOSE) && close_step(c, k1, fd, r)
}

/// Closes descriptor `fd` of the running task: the slot is empty
/// afterwards. Returns 0; fails with -1, and changes nothing but the
/// counter of the call, exactly when the descriptor is not in use.
pub fn sys_close(k: &mut Kernel, fd: usize) -> (r: isize)
    requires
        old(k).running(),
    ensures
        sys_close_post(*old(k), *final(k), fd, r),
{
    let ghost k0 = *k;
    k.count_syscall(SYSCALL_CLOSE);
    let ghost c = *k;
    proof {
        assert(c.cur_proc().fd_table == k0.cur_proc().fd_table);
        assert(c.cur_ms() == k0.cur_ms());
    }
    let r = close_counted(k, fd);
    proof {
        assert(c.counted_from(k0, SYSCALL_CLOSE) && close_step(c, *k, fd, r));
    }
    r
}

/// Whether `fstat` goes through: the descriptor names an open file, and
/// the task may touch the 80 bytes of the record.
pub open spec fn fstat_plan(k: Kernel, fd: usize, st: usize) -> bool {
    &&& k.fd_handle(fd).is_some()
    &&& k.cur_ms().user_range_ok(st, STAT_SIZE)
}

/// What `sys_fstat` makes of the kernel: whether the call, made in the state
/// `k0`, leaves the state `k1` and returns `r`.
pub open spec fn sys_fstat_post(k0: Kernel, k1: Kernel, fd: usize, st: usize, r: isize) -> bool {
    &&& k1.running()
    &&& k1.same_but_frames(k0)
    &&& k1.frames.same_frames(k0.frames)
    &&& k1.fs == k0.fs
    &&& k1.files == k0.files
    &&& k1.tasks_counted(k0, SYSCALL_FSTAT)
    &&& r == (if fstat_plan(k0, fd, st) {
        0
    } else {
        FAILURE
    })
    &&& r != 0 ==> k1.frames == k0.frames
    &&& r == 0 ==> k1.wrote_user(
        k0,
        st,
        stat_spec(
            k0.fs,
            k0.files@[k0.fd_handle(fd).unwrap() as int].inode_id,
        ).bytes_spec(),
    )
}

/// Writes the record of the file that descriptor `fd` names into the
/// memory of the running task at `st`, byte by byte, so that the record
/// may lie across pages. Returns 0; fails with -1, and writes nothing,
/// exactly when `fstat_plan` does not hold.
pub fn sys_fstat(k: &mut Kernel, fd: usize, st: usize) -> (r: isize)
    requires
        old(k).running(),
    ensures
        sys_fstat_post(*old(k), *final(k), fd, st, r),
{
    let ghost before = *k;
    k.count_syscall(SYSCALL_FSTAT);
    let ghost counted = *k;
    proof {
        assert(counted.cur_proc().fd_table == before.cur_proc().fd_table);
        assert(counted.cur_ms() == before.cur_ms());
    }
    let h: usize = match k.lookup_fd(fd) {
        None => {
            return FAILURE;
        },
        Some(h) => h,
    };
    let stat = stat_of(&k.fs, k.files[h].inode_id);
    let bytes: Vec<u8> = stat.to_bytes();
    let ok: bool = k.user_write(st, &bytes);
    proof {
        assert(k.cur_ms() == before.cur_ms());
    }
    if ok {
        0
    } else {
        FAILURE
    }
}

/// Whether `linkat` goes through: the two addresses differ, strings end
/// at both, and the filesystem makes the link.
pub open spec fn link_plan(k: Kernel, old_name: usize, new_name: usize) -> bool {
    &&& old_name != new_name
    &&& path_at(k, old_name).is_some()
    &&& path_at(k, new_name).is_some()
    &&& k.fs.can_link(path_at(k, old_name).unwrap(), path_at(k, new_name).unwrap())
}

/// What `sys_linkat` does once the call is counted: whether the step, made in
/// the state `k0`, leaves the state `k1` and returns `r`.
pub open spec fn linkat_step(k0: Kernel, k1: Kernel, old_name: usize, new_name: usize, r: isize) -> bool {
    &&& k1.running()
    &&& r == (if link_plan(k0, old_name, new_name) {
        0
    } else {
        FAILURE
    })
    &&& r != 0 ==> k1 == k0
    &&& r == 0 ==> {
        &&& k1.same_but_pages(Kernel { fs: k1.fs, ..k0 })
        &&& k1.frames == k0.frames
        &&& k1.fs.linked_from(
            k0.fs,
            path_at(k0, old_name).unwrap(),
            path_at(k0, new_name).unwrap(),
        )
    }
}

/// `sys_linkat` once the call is counted.
fn linkat_counted(k: &mut Kernel, old_name: usize, new_name: usize) -> (r: isize)
    requires
        old(k).running(),
    ensures
        linkat_step(*old(k), *final(k), old_name, new_name, r),
{
    let ghost before = *k;
    if old_name == new_name {
        return FAILURE;
    }
    let from: Vec<u8> = match k.user_str(old_name) {
        None => {
            return FAILURE;
        },
        Some(name) => name,
    };
    let to: Vec<u8> = match k.user_str(new_name) {
        None => {
            return FAILURE;
        },
        Some(name) => name,
    };
    let cur = k.current_id();
    proof {
        assert(k.fs.wf());
    }
    if !k.fs.link(&from, &to) {
        return FAILURE;
    }
    proof {
        lemma_files_fs(before.fd_tables(), before.files@, before.fs, k.fs);
        k.lemma_files_update(before, cur.pid as int);
    }
    0
}

/// What `sys_linkat` makes of the kernel: whether the call, made in the state
/// `k0`, leaves the state `k1` and returns `r`. The call is counted
/// first, whatever comes of it.
pub open spec fn sys_linkat_post(k0: Kernel, k1: Kernel, old_name: usize, new_name: usize, r: isize) -> bool {
    &&& k1.running()
    &&& r == (if link_plan(k0, old_name, new_name) {
        0
    } else {
        FAILURE
    })
    &&& r == FAILURE ==> k1.counted_from(k0, SYSCALL_LINKAT)
    &&& exists|c: Kernel| #[trigger] c.counted_from(k0, SYSCALL_LINKAT) && linkat_step(c, k1, old_name, new_name, r)
}

/// Gives the file whose name is the string at `old_name` the string at
/// `new_name` as one more name, whether or not the file has that name
/// already. Returns 0; fails with -1, and changes nothing but the counter
/// of the call, exactly when `link_plan` does not hold.
pub fn sys_linkat(k: &mut Kernel, old_name: usize, new_name: usize) -> (r: isize)
    requires
        old(k).running(),
    ensures
        sys_linkat_post(*old(k), *final(k), old_name, new_name, r),
{
    let ghost k0 = *k;
    k.count_syscall(SYSCALL_LINKAT);
    let ghost c = *k;
    proof {
        assert(c.cur_proc().fd_table == k0.cur_proc().fd_table);
        assert(c.cur_ms() == k0.cur_ms());
    }
    let r = linkat_counted(k, old_name, new_name);
    proof {
        assert(c.counted_from(k0, SYSCALL_LINKAT) && linkat_step(c, *k, old_name, new_name, r));
    }
    r
}

/// Whether `unlinkat` goes through: a string ends at the address, and the
/// name resolves.
pub open spec fn unlink_plan(k: Kernel, name: usize) -> bool {
    &&& path_at(k, name).is_some()
    &&& lookup(k.fs.dir(), path_at(k, name).unwrap()).is_some()
}

/// What `sys_unlinkat` does once the call is counted: whether the step, made in
/// the state `k0`, leaves the state `k1` and returns `r`.
pub open spec fn unlinkat_step(k0: Kernel, k1: Kernel, name: usize, r: isize) -> bool {
    &&& k1.running()
    &&& r == (if unlink_plan(k0, name) {
        0
    } else {
        FAILURE
    })
    &&& r != 0 ==> k1 == k0
    &&& r == 0 ==> {
        &&& k1.same_but_pages(Kernel { fs: k1.fs, ..k0 })
        &&& k1.frames == k0.frames
        &&& k1.fs.unlinked_from(k0.fs, path_at(k0, name).unwrap())
    }
}

/// `sys_unlinkat` once the call is counted.
fn unlinkat_counted(k: &mut Kernel, name: usize) -> (r: isize)
    requires
        old(k).running(),
    ensures
        unlinkat_step(*old(k), *final(k), name, r),
{
    let ghost before = *k;
    let gone: Vec<u8> = match k.user_str(name) {
        None => {
            return FAILURE;
        },
        Some(name) => name,
    };
    let cur = k.current_id();
    proof {
        assert(k.fs.wf());
    }
    if !k.fs.unlink(&gone) {
        return FAILURE;
    }
    proof {
        lemma_files_fs(before.fd_tables(), before.files@, before.fs, k.fs);
        k.lemma_files_update(before, cur.pid as int);
    }
    0
}

/// What `sys_unlinkat` makes of the kernel: whether the call, made in the state
/// `k0`, leaves the state `k1` and returns `r`. The call is counted
/// first, whatever comes of it.
pub open spec fn sys_unlinkat_post(k0: Kernel, k1: Kernel, name: usize, r: isize) -> bool {
    &&& k1.running()
    &&& r == (if unlink_plan(k0, name) {
        0
    } else {
        FAILURE
    })
    &&& r == FAILURE ==> k1.counted_from(k0, SYSCALL_UNLINKAT)
    &&& exists|c: Kernel| #[trigger] c.counted_from(k0, SYSCALL_UNLINKAT) && unlinkat_step(c, k1, name, r)
}

/// Takes the name that is the string at `name` out of the root directory.
/// The directory is written anew without the entries of that name; for
/// each of them its file loses a link, and its data when no link is
/// left. Returns 0; fails with -1, and changes nothing but the counter of
/// the call, exactly when `unlink_plan` does not hold.
pub fn sys_unlinkat(k: &mut Kernel, name: usize) -> (r: isize)
    requires
        old(k).running(),
    ensures
        sys_unlinkat_post(*old(k), *final(k), name, r),
{
    let ghost k0 = *k;
    k.count_syscall(SYSCALL_UNLINKAT);
    let ghost c = *k;
    proof {
        assert(c.cur_proc().fd_table == k0.cur_proc().fd_table);
        assert(c.cur_ms() == k0.cur_ms());
    }
    let r = unlinkat_counted(k, name);
    proof {
        assert(c.counted_from(k0, SYSCALL_UNLINKAT) && unlinkat_step(c, *k, name, r));
    }
    r
}

} // verus!

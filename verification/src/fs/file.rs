//! Open files: the flags of `open`, the handle that a descriptor refers
//! to, and the record that `fstat` fills.

use vstd::prelude::*;
use crate::codec::{le_bytes, lemma_le_bytes_len, to_le_bytes};
use crate::fs::inode::{lookup, read_spec, write_spec, FileSystem};
use crate::fs::layout::valid_name;

verus! {

/// Flag bit: open for writing only.
pub const WRONLY: u32 = 1;

/// Flag bit: open for reading and writing.
pub const RDWR: u32 = 2;

/// Flag bit: create the file, or empty it where it exists.
pub const CREATE: u32 = 512;

/// Flag bit: empty the file.
pub const TRUNC: u32 = 1024;

/// The flags of `open`.
#[derive(Clone, Copy, Debug)]
pub struct OpenFlags {
    /// The flag bits.
    pub bits: u32,
}

impl OpenFlags {
    /// Whether `bits` holds no bit but the four that are defined.
    pub open spec fn valid_bits(bits: u32) -> bool {
        (bits / 4) % 128 == 0 && bits / 2048 == 0
    }

    /// Whether the file is opened for reading.
    pub open spec fn readable(self) -> bool {
        self.bits % 2 == 0
    }

    /// Whether the file is opened for writing.
    pub open spec fn writable(self) -> bool {
        self.bits % 4 != 0
    }

    /// Whether the create bit is set.
    pub open spec fn create(self) -> bool {
        (self.bits / 512) % 2 == 1
    }

    /// Whether the truncate bit is set.
    pub open spec fn trunc(self) -> bool {
        (self.bits / 1024) % 2 == 1
    }

    /// The flags with the given bits; `None` exactly when a bit is set that
    /// is not defined.
    pub fn from_bits(bits: u32) -> (r: Option<Self>)
        ensures
            r.is_some() == Self::valid_bits(bits),
            r.is_some() ==> r.unwrap().bits == bits,
    {
        if (bits / 4) % 128 == 0 && bits / 2048 == 0 {
            Some(OpenFlags { bits })
        } else {
            None
        }
    }

    /// Whether the file is opened for reading, and for writing: for
    /// reading only where neither of the two low bits is set, for writing
    /// only where the lowest is, and for both otherwise.
    pub fn read_write(&self) -> (rw: (bool, bool))
        ensures
            rw.0 == self.readable(),
            rw.1 == self.writable(),
    {
        if self.bits % 4 == 0 {
            (true, false)
        } else if self.bits % 2 == 1 {
            (false, true)
        } else {
            (true, true)
        }
    }

    /// Whether the create bit is set.
    pub fn has_create(&self) -> (b: bool)
        ensures
            b == self.create(),
    {
        (self.bits / 512) % 2 == 1
    }

    /// Whether the truncate bit is set.
    pub fn has_trunc(&self) -> (b: bool)
        ensures
            b == self.trunc(),
    {
        (self.bits / 1024) % 2 == 1
    }
}

/// An open file: an inode with a position, open for reading, writing or
/// both.
#[derive(Clone, Copy, Debug)]
pub struct OSInode {
    /// Whether the file may be read through this handle.
    pub readable: bool,
    /// Whether the file may be written through this handle.
    pub writable: bool,
    /// The position of the next read or write.
    pub offset: usize,
    /// The inode of the file.
    pub inode_id: u32,
}

impl OSInode {
    /// A handle at the start of file `inode_id`.
    pub fn new(readable: bool, writable: bool, inode_id: u32) -> (f: Self)
        ensures
            f == (OSInode { readable, writable, offset: 0, inode_id }),
    {
        OSInode { readable, writable, offset: 0, inode_id }
    }

    /// Reads up to `len` bytes at the position of the handle, and moves the
    /// position behind what was read.
    pub fn read(&mut self, fs: &FileSystem, len: usize) -> (bytes: Vec<u8>)
        requires
            old(self).inode_id < fs.inode_count(),
        ensures
            bytes@ == read_spec(fs.data(old(self).inode_id as int), old(self).offset as int, len as int),
            bytes@.len() <= len,
            final(self).offset == old(self).offset + bytes@.len(),
            final(self).readable == old(self).readable,
            final(self).writable == old(self).writable,
            final(self).inode_id == old(self).inode_id,
    {
        let bytes = fs.read_at(self.inode_id, self.offset, len);
        let size: usize = fs.size(self.inode_id);
        self.offset = self.offset + bytes.len();
        bytes
    }

    /// Writes `buf` at the position of the handle, and moves the position
    /// behind what was written. Returns the number of bytes written: all
    /// of `buf`, or none where the filesystem does not carry the write out.
    pub fn write(&mut self, fs: &mut FileSystem, buf: &Vec<u8>) -> (n: usize)
        requires
            old(fs).wf(),
            old(self).inode_id < old(fs).inode_count(),
        ensures
            final(fs).wf(),
            wrote_from(*final(fs), *old(fs), *final(self), *old(self), buf@, n),
    {
        let n = fs.write_at(self.inode_id, self.offset, buf);
        self.offset = self.offset + n;
        n
    }
}

/// Whether `open_file` gives a handle: the name resolves, or the create
/// bit is set, the name is valid and an inode is free.
pub open spec fn can_open(fs: FileSystem, name: Seq<u8>, flags: OpenFlags) -> bool {
    lookup(fs.dir(), name).is_some() || (flags.create() && valid_name(name) && fs.inode_count()
        < fs.capacity())
}

/// How many bytes a write of `len` bytes through the handle `f` writes:
/// all of them, or none where the filesystem does not carry the write out.
pub open spec fn write_count(fs: FileSystem, f: OSInode, len: int) -> int {
    if fs.can_write(f.inode_id as int, f.offset as int, len) {
        len
    } else {
        0
    }
}

/// Whether `fs1` and `f1` are `fs0` and `f0` after `buf` was written
/// through the handle and `n` bytes were reported written: the file holds
/// `buf` at the position of the handle, which moved behind it; no other
/// file changed.
pub open spec fn wrote_from(
    fs1: FileSystem,
    fs0: FileSystem,
    f1: OSInode,
    f0: OSInode,
    buf: Seq<u8>,
    n: usize,
) -> bool {
    let id = f0.inode_id as int;
    &&& fs1.same_but(fs0, id)
    &&& fs1.nlink(id) == fs0.nlink(id)
    &&& n == write_count(fs0, f0, buf.len() as int)
    &&& fs1.data(id) == (if fs0.can_write(id, f0.offset as int, buf.len() as int) {
        write_spec(fs0.data(id), f0.offset as int, buf)
    } else {
        fs0.data(id)
    })
    &&& f1 == (OSInode { offset: (f0.offset + n) as usize, ..f0 })
}

/// The record of file `id`.
pub open spec fn stat_spec(fs: FileSystem, id: u32) -> Stat {
    Stat {
        dev: 0,
        ino: id as u64,
        mode: if fs.is_dir(id as int) {
            StatMode::Dir
        } else {
            StatMode::File
        },
        nlink: fs.nlink(id as int) as u32,
    }
}

/// Whether `after` is `before` once `name` was opened with `flags` and the
/// handle `f` came back: the handle is at the start of the file and allows
/// what the flags ask for. A file that existed is the one that the name
/// resolved to, emptied where the create or the truncate bit is set; one
/// that did not is new, empty, with one link and an entry at the end of
/// the directory.
pub open spec fn opened_from(
    after: FileSystem,
    before: FileSystem,
    name: Seq<u8>,
    flags: OpenFlags,
    f: OSInode,
) -> bool {
    let id = f.inode_id as int;
    &&& f.offset == 0
    &&& f.readable == flags.readable()
    &&& f.writable == flags.writable()
    &&& 1 <= id < after.inode_count()
    &&& after.inode_count() >= before.inode_count()
    &&& after.capacity() == before.capacity()
    &&& match lookup(before.dir(), name) {
        Some(found) => {
            &&& id == found
            &&& after.same_but(before, id)
            &&& after.dir() == before.dir()
            &&& after.nlink(id) == before.nlink(id)
            &&& after.data(id) == (if flags.create() || flags.trunc() {
                Seq::<u8>::empty()
            } else {
                before.data(id)
            })
        },
        None => {
            &&& id == before.inode_count()
            &&& after.inode_count() == before.inode_count() + 1
            &&& after.dir() == before.dir().push((name, f.inode_id))
            &&& after.nlink(id) == 1
            &&& after.data(id) == Seq::<u8>::empty()
            &&& forall|k: int| 1 <= k < before.inode_count() ==> #[trigger] after.data(k) == before.data(k)
            &&& forall|k: int|
                0 <= k < before.inode_count() ==> #[trigger] after.nlink(k) == before.nlink(k)
        },
    }
}

/// Opens the file `name`. With the create bit, a file that exists is
/// emptied and one that does not is created with one link. Without it, the
/// file must exist, and is emptied where the truncate bit is set. The
/// handle starts at position 0. `None`, and no change, exactly when
/// `can_open` does not hold.
pub fn open_file(fs: &mut FileSystem, name: &Vec<u8>, flags: OpenFlags) -> (r: Option<OSInode>)
    requires
        old(fs).wf(),
    ensures
        final(fs).wf(),
        r.is_some() == can_open(*old(fs), name@, flags),
        r.is_none() ==> *final(fs) == *old(fs),
        r.is_some() ==> opened_from(*final(fs), *old(fs), name@, flags, r.unwrap()),
{
    let (readable, writable) = flags.read_write();
    match fs.find(name) {
        Some(id) => {
            if flags.has_create() || flags.has_trunc() {
                fs.clear(id);
                proof {
                    final(fs).lemma_same_but_wf(*old(fs), id as int);
                }
            } else {
                proof {
                    fs.lemma_same_but_wf(*old(fs), id as int);
                }
            }
            Some(OSInode::new(readable, writable, id))
        },
        None => {
            if flags.has_create() {
                match fs.create(name) {
                    Some(id) => Some(OSInode::new(readable, writable, id)),
                    None => None,
                }
            } else {
                None
            }
        },
    }
}

/// What kind of file an inode is, as `fstat` reports it.
#[derive(Clone, Copy, Debug)]
pub enum StatMode {
    /// A directory.
    Dir,
    /// An ordinary file.
    File,
}

impl StatMode {
    /// The number that stands for the kind.
    pub open spec fn code(self) -> int {
        match self {
            StatMode::Dir => 0o040000,
            StatMode::File => 0o100000,
        }
    }

    /// The number that stands for the kind.
    pub fn bits(&self) -> (b: u32)
        ensures
            b == self.code(),
    {
        match self {
            StatMode::Dir => 0o040000,
            StatMode::File => 0o100000,
        }
    }
}

/// What `fstat` reports of an open file.
#[derive(Clone, Copy, Debug)]
pub struct Stat {
    /// The device that holds the file.
    pub dev: u64,
    /// The inode number.
    pub ino: u64,
    /// The kind of file.
    pub mode: StatMode,
    /// The number of names the file has.
    pub nlink: u32,
}

/// The size of a `Stat` record in user memory, in bytes.
pub const STAT_SIZE: usize = 80;

impl Stat {
    /// The 80 bytes of the record in user memory: device and inode number
    /// in eight bytes each, kind and link count in four each, all lowest
    /// byte first, and 56 zero bytes.
    pub open spec fn bytes_spec(self) -> Seq<u8> {
        le_bytes(self.dev as int, 8) + le_bytes(self.ino as int, 8) + le_bytes(self.mode.code(), 4)
            + le_bytes(self.nlink as int, 4) + Seq::new(56, |i: int| 0u8)
    }

    /// The record in user memory.
    pub fn to_bytes(&self) -> (bytes: Vec<u8>)
        ensures
            bytes@ == self.bytes_spec(),
            bytes@.len() == STAT_SIZE,
    {
        let mut out: Vec<u8> = to_le_bytes(self.dev, 8);
        let mut ino: Vec<u8> = to_le_bytes(self.ino, 8);
        let mut mode: Vec<u8> = to_le_bytes(self.mode.bits() as u64, 4);
        let mut nlink: Vec<u8> = to_le_bytes(self.nlink as u64, 4);
        out.append(&mut ino);
        out.append(&mut mode);
        out.append(&mut nlink);
        let ghost head = out@;
        let mut k: usize = 0;
        while k < 56
            invariant
                k <= 56,
                head.len() == 24,
                out@ == head + Seq::new(k as nat, |i: int| 0u8),
            decreases 56 - k,
        {
            out.push(0u8);
            assert(out@ =~= head + Seq::new((k + 1) as nat, |i: int| 0u8));
            k = k + 1;
        }
        out
    }
}

/// The record of file `id`.
pub fn stat_of(fs: &FileSystem, id: u32) -> (st: Stat)
    requires
        id < fs.inode_count(),
    ensures
        st == stat_spec(*fs, id),
{
    let mode = if fs.is_directory(id) {
        StatMode::Dir
    } else {
        StatMode::File
    };
    Stat { dev: 0, ino: id as u64, mode, nlink: fs.link_count(id) }
}

/// What is written through a handle is read back through a handle at the
/// same position: after a write that was carried out, a read of as many
/// bytes at the position where the write began, as a newly opened handle
/// does for a write that began at the start of the file, gives the bytes
/// written.
pub proof fn lemma_wrote_then_read(
    fs1: FileSystem,
    fs0: FileSystem,
    f1: OSInode,
    f0: OSInode,
    buf: Seq<u8>,
    n: usize,
)
    requires
        wrote_from(fs1, fs0, f1, f0, buf, n),
        fs0.can_write(f0.inode_id as int, f0.offset as int, buf.len() as int),
    ensures
        n == buf.len(),
        read_spec(fs1.data(f0.inode_id as int), f0.offset as int, buf.len() as int) == buf,
{
    crate::fs::inode::lemma_write_then_read(fs0.data(f0.inode_id as int), f0.offset as int, buf);
}

} // verus!

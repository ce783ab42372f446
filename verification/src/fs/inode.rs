//! Inodes and the root directory.
//!
//! The filesystem has one directory, the root, which is inode 0. Its data
//! is a row of 32-byte entries, read from first to last. Every other inode
//! is a file with a link count; a file whose link count falls to zero loses
//! its data.

use vstd::prelude::*;
use crate::fs::layout::{dirent_bytes, dirent_inode, dirent_name, is_valid_name, lemma_dirent_round_trip, valid_name, DirEntry, DIRENT_SZ};

verus! {

/// A directory as a list of names with their inode numbers.
pub type Directory = Seq<(Seq<u8>, u32)>;

/// The entry number `i` of a directory stored in `data`.
pub open spec fn entry_at(data: Seq<u8>, i: int) -> (Seq<u8>, u32) {
    let bytes = data.subrange(32 * i, 32 * i + 32);
    (dirent_name(bytes), dirent_inode(bytes))
}

/// The directory stored in `data`.
pub open spec fn dir_entries(data: Seq<u8>) -> Directory {
    Seq::new((data.len() / 32) as nat, |i: int| entry_at(data, i))
}

/// The inode of the first entry at or after `from` with the given name.
pub open spec fn lookup_from(dir: Directory, name: Seq<u8>, from: int) -> Option<u32>
    decreases dir.len() - from,
{
    if from < 0 || from >= dir.len() {
        None
    } else if dir[from].0 == name {
        Some(dir[from].1)
    } else {
        lookup_from(dir, name, from + 1)
    }
}

/// The inode that a name resolves to: that of the first entry with the name.
pub open spec fn lookup(dir: Directory, name: Seq<u8>) -> Option<u32> {
    lookup_from(dir, name, 0)
}

/// The inodes of the entries with the given name, in the order of the
/// directory.
pub open spec fn targets(dir: Directory, name: Seq<u8>) -> Seq<u32>
    decreases dir.len(),
{
    if dir.len() == 0 {
        Seq::empty()
    } else if dir.last().0 == name {
        targets(dir.drop_last(), name).push(dir.last().1)
    } else {
        targets(dir.drop_last(), name)
    }
}

/// How often the inode `id` stands in a list of inodes.
pub open spec fn occurrences(ids: Seq<u32>, id: int) -> nat
    decreases ids.len(),
{
    if ids.len() == 0 {
        0
    } else if ids.last() == id {
        occurrences(ids.drop_last(), id) + 1
    } else {
        occurrences(ids.drop_last(), id)
    }
}

/// The links that a file with `links` links has left after `lost` of its
/// entries are gone.
pub open spec fn links_left(links: nat, lost: nat) -> nat {
    if links > lost {
        (links - lost) as nat
    } else {
        0
    }
}

/// The directory without the entries of the given name, the others in
/// their order.
pub open spec fn without(dir: Directory, name: Seq<u8>) -> Directory
    decreases dir.len(),
{
    if dir.len() == 0 {
        Seq::empty()
    } else if dir.last().0 == name {
        without(dir.drop_last(), name)
    } else {
        without(dir.drop_last(), name).push(dir.last())
    }
}

/// What a file holds after `buf` was written at `offset`: the file grows
/// with zero bytes up to the end of what is written.
pub open spec fn write_spec(data: Seq<u8>, offset: int, buf: Seq<u8>) -> Seq<u8> {
    let size = if data.len() < offset + buf.len() {
        offset + buf.len()
    } else {
        data.len() as int
    };
    Seq::new(
        size as nat,
        |i: int|
            if offset <= i < offset + buf.len() {
                buf[i - offset]
            } else if i < data.len() {
                data[i]
            } else {
                0u8
            },
    )
}

/// What a read of up to `len` bytes at `offset` gives: the bytes of the
/// file from `offset` on, as far as the file goes.
pub open spec fn read_spec(data: Seq<u8>, offset: int, len: int) -> Seq<u8> {
    if offset >= data.len() {
        Seq::empty()
    } else if offset + len >= data.len() {
        data.subrange(offset, data.len() as int)
    } else {
        data.subrange(offset, offset + len)
    }
}

/// What was written is read back: a read at the place of a write, of the
/// length written, gives the bytes written.
pub proof fn lemma_write_then_read(data: Seq<u8>, offset: int, buf: Seq<u8>)
    requires
        0 <= offset,
    ensures
        read_spec(write_spec(data, offset, buf), offset, buf.len() as int) == buf,
{
    assert(read_spec(write_spec(data, offset, buf), offset, buf.len() as int) =~= buf);
}

/// A name that is absent up to `from` resolves as it does from `from` on.
pub proof fn lemma_lookup_from(dir: Directory, name: Seq<u8>, from: int)
    requires
        0 <= from,
    ensures
        lookup_from(dir, name, from).is_none() <==> forall|i: int|
            from <= i < dir.len() ==> (#[trigger] dir[i]).0 != name,
        lookup_from(dir, name, from).is_some() ==> exists|i: int|
            from <= i < dir.len() && (#[trigger] dir[i]).0 == name && dir[i].1 == lookup_from(
                dir,
                name,
                from,
            ).unwrap() && forall|j: int| from <= j < i ==> (#[trigger] dir[j]).0 != name,
    decreases dir.len() - from,
{
    if from < dir.len() && dir[from].0 != name {
        lemma_lookup_from(dir, name, from + 1);
        if lookup_from(dir, name, from).is_some() {
            let i = choose|i: int|
                from + 1 <= i < dir.len() && (#[trigger] dir[i]).0 == name && dir[i].1
                    == lookup_from(dir, name, from + 1).unwrap() && forall|j: int|
                    from + 1 <= j < i ==> (#[trigger] dir[j]).0 != name;
            assert(forall|j: int| from <= j < i ==> (#[trigger] dir[j]).0 != name);
        }
    } else if from < dir.len() {
        assert(dir[from].0 == name);
    }
}

/// One more entry at the end answers for its name only where the name was
/// absent.
pub proof fn lemma_lookup_push(dir: Directory, entry: (Seq<u8>, u32), name: Seq<u8>, from: int)
    requires
        0 <= from <= dir.len(),
    ensures
        lookup_from(dir.push(entry), name, from) == (if lookup_from(dir, name, from).is_some() {
            lookup_from(dir, name, from)
        } else if entry.0 == name {
            Some(entry.1)
        } else {
            None
        }),
    decreases dir.len() - from,
{
    let grown = dir.push(entry);
    if from < dir.len() {
        assert(grown[from] == dir[from]);
        if dir[from].0 != name {
            lemma_lookup_push(dir, entry, name, from + 1);
        }
    } else {
        assert(grown[from] == entry);
        assert(lookup_from(grown, name, from + 1).is_none());
    }
}

/// Taking a name out leaves every other name resolving as before, and the
/// name itself absent.
pub proof fn lemma_lookup_without(dir: Directory, gone: Seq<u8>, name: Seq<u8>)
    ensures
        name != gone ==> lookup(without(dir, gone), name) == lookup(dir, name),
        lookup(without(dir, gone), gone).is_none(),
        without(dir, gone).len() <= dir.len(),
    decreases dir.len(),
{
    if dir.len() > 0 {
        let front = dir.drop_last();
        lemma_lookup_without(front, gone, name);
        assert(dir =~= front.push(dir.last()));
        lemma_lookup_push(front, dir.last(), name, 0);
        lemma_lookup_push(front, dir.last(), gone, 0);
        if dir.last().0 != gone {
            lemma_lookup_push(without(front, gone), dir.last(), name, 0);
            lemma_lookup_push(without(front, gone), dir.last(), gone, 0);
        }
    }
}

/// A link to a name and the removal of that name leave the new name
/// resolving to the inode that the old name had, where the two names
/// differ and the new name was absent or already resolved to that inode.
pub proof fn lemma_link_then_unlink(dir: Directory, old_name: Seq<u8>, new_name: Seq<u8>)
    requires
        lookup(dir, old_name).is_some(),
        old_name != new_name,
        lookup(dir, new_name).is_none() || lookup(dir, new_name) == lookup(dir, old_name),
    ensures
        lookup(
            without(dir.push((new_name, lookup(dir, old_name).unwrap())), old_name),
            new_name,
        ) == lookup(dir, old_name),
{
    let linked = dir.push((new_name, lookup(dir, old_name).unwrap()));
    lemma_lookup_push(dir, (new_name, lookup(dir, old_name).unwrap()), new_name, 0);
    lemma_lookup_without(linked, old_name, new_name);
}

/// A directory stored in whole entries grows by one entry when the bytes
/// of an entry are put behind it.
pub proof fn lemma_dir_append(data: Seq<u8>, name: Seq<u8>, inode: u32)
    requires
        data.len() % 32 == 0,
        valid_name(name),
    ensures
        dir_entries(data + dirent_bytes(name, inode)) == dir_entries(data).push((name, inode)),
        (data + dirent_bytes(name, inode)).len() == data.len() + 32,
{
    lemma_dirent_round_trip(name, inode);
    let bytes = dirent_bytes(name, inode);
    let grown = data + bytes;
    let n = data.len() as int / 32;
    assert(grown.len() / 32 == n + 1);
    assert forall|i: int| 0 <= i < n + 1 implies #[trigger] dir_entries(grown)[i] == dir_entries(
        data,
    ).push((name, inode))[i] by {
        if i < n {
            assert(grown.subrange(32 * i, 32 * i + 32) =~= data.subrange(32 * i, 32 * i + 32));
        } else {
            assert(grown.subrange(32 * i, 32 * i + 32) =~= bytes);
        }
    }
    assert(dir_entries(grown) =~= dir_entries(data).push((name, inode)));
}

/// An inode: a link count and the data of the file or directory.
pub struct DiskInode {
    nlink: u32,
    is_dir: bool,
    data: Vec<u8>,
}

/// The filesystem: a table of inodes, of which inode 0 is the root
/// directory.
pub struct FileSystem {
    inodes: Vec<DiskInode>,
    max_inodes: usize,
}

impl FileSystem {
    /// The number of inodes in use.
    pub closed spec fn inode_count(&self) -> int {
        self.inodes@.len() as int
    }

    /// The number of inodes the filesystem has room for.
    pub closed spec fn capacity(&self) -> int {
        self.max_inodes as int
    }

    /// The link count of inode `id`.
    pub closed spec fn nlink(&self, id: int) -> nat {
        self.inodes@[id].nlink as nat
    }

    /// Whether inode `id` is a directory.
    pub closed spec fn is_dir(&self, id: int) -> bool {
        self.inodes@[id].is_dir
    }

    /// The data of inode `id`.
    pub closed spec fn data(&self, id: int) -> Seq<u8> {
        self.inodes@[id].data@
    }

    /// The root directory.
    pub open spec fn dir(&self) -> Directory {
        dir_entries(self.data(0))
    }

    /// Well-formedness: the root directory holds whole entries with valid
    /// names that point to files in use, and a file without a link has no
    /// data.
    pub open spec fn wf(&self) -> bool {
        &&& 1 <= self.inode_count() <= self.capacity() <= u32::MAX
        &&& self.is_dir(0)
        &&& self.data(0).len() % 32 == 0
        &&& forall|i: int|
            0 <= i < self.dir().len() ==> valid_name((#[trigger] self.dir()[i]).0) && 1
                <= self.dir()[i].1 < self.inode_count()
        &&& forall|id: int|
            1 <= id < self.inode_count() ==> !#[trigger] self.is_dir(id)
        &&& forall|id: int|
            1 <= id < self.inode_count() && #[trigger] self.nlink(id) == 0 ==> self.data(id).len()
                == 0
    }

    /// Whether two filesystems agree on every inode but `id`.
    pub open spec fn same_but(&self, before: Self, id: int) -> bool {
        &&& self.inode_count() == before.inode_count()
        &&& self.capacity() == before.capacity()
        &&& forall|k: int|
            0 <= k < self.inode_count() && k != id ==> #[trigger] self.data(k) == before.data(k)
        &&& forall|k: int|
            0 <= k < self.inode_count() && k != id ==> #[trigger] self.nlink(k) == before.nlink(k)
        &&& forall|k: int| 0 <= k < self.inode_count() ==> #[trigger] self.is_dir(k) == before.is_dir(k)
    }

    /// A change to one file keeps the filesystem well-formed where the
    /// file keeps its data only while it has a link.
    pub proof fn lemma_same_but_wf(&self, before: Self, id: int)
        requires
            before.wf(),
            1 <= id < before.inode_count(),
            self.same_but(before, id),
            self.nlink(id) == 0 ==> self.data(id).len() == 0,
        ensures
            self.wf(),
            self.dir() == before.dir(),
    {
        assert(self.data(0) == before.data(0));
        assert(self.dir() == before.dir());
        assert(self.is_dir(0) == before.is_dir(0));
        assert forall|i: int| 0 <= i < self.dir().len() implies valid_name(
            (#[trigger] self.dir()[i]).0,
        ) && 1 <= self.dir()[i].1 < self.inode_count() by {
            assert(valid_name(before.dir()[i].0));
        }
        assert forall|k: int| 1 <= k < self.inode_count() implies !#[trigger] self.is_dir(k) by {
            assert(!before.is_dir(k));
        }
        assert forall|k: int|
            1 <= k < self.inode_count() && #[trigger] self.nlink(k) == 0 implies self.data(k).len()
            == 0 by {
            if k != id {
                assert(before.nlink(k) == 0);
            }
        }
    }

    /// A filesystem with an empty root directory and room for `max_inodes`
    /// inodes, the root among them.
    pub fn new(max_inodes: usize) -> (fs: Self)
        requires
            1 <= max_inodes <= u32::MAX,
        ensures
            fs.wf(),
            fs.inode_count() == 1,
            fs.capacity() == max_inodes,
            fs.dir() == Seq::<(Seq<u8>, u32)>::empty(),
    {
        let mut inodes: Vec<DiskInode> = Vec::new();
        inodes.push(DiskInode { nlink: 1, is_dir: true, data: Vec::new() });
        let fs = FileSystem { inodes, max_inodes };
        assert(fs.dir() =~= Seq::<(Seq<u8>, u32)>::empty());
        fs
    }

    /// How many entries the root directory has.
    pub fn file_count(&self) -> (n: usize)
        requires
            self.wf(),
        ensures
            n == self.dir().len(),
    {
        self.inodes[0].data.len() / DIRENT_SZ
    }

    /// The entry number `i` of the root directory.
    pub fn read_dirent(&self, i: usize) -> (e: DirEntry)
        requires
            self.wf(),
            i < self.dir().len(),
        ensures
            (e.name_spec(), e.inode_spec()) == self.dir()[i as int],
    {
        let mut bytes: Vec<u8> = Vec::new();
        assert(self.dir().len() == self.data(0).len() / 32);
        let total: usize = self.inodes[0].data.len();
        assert(32 * (i as int) + 32 <= total);
        let base: usize = i * 32;
        let mut k: usize = 0;
        while k < DIRENT_SZ
            invariant
                k <= DIRENT_SZ,
                base == 32 * i,
                self.inodes@.len() >= 1,
                base + 32 <= self.inodes@[0].data@.len(),
                bytes@ == self.inodes@[0].data@.subrange(base as int, base + k),
            decreases DIRENT_SZ - k,
        {
            bytes.push(self.inodes[0].data[base + k]);
            assert(bytes@ =~= self.inodes@[0].data@.subrange(base as int, base + k + 1));
            k = k + 1;
        }
        DirEntry::from_bytes(&bytes)
    }

    /// The inode that `name` resolves to: that of the first entry of the
    /// root directory with the name.
    pub fn find(&self, name: &Vec<u8>) -> (r: Option<u32>)
        requires
            self.wf(),
        ensures
            r == lookup(self.dir(), name@),
            r.is_some() ==> 1 <= r.unwrap() < self.inode_count(),
    {
        let n: usize = self.file_count();
        let mut i: usize = 0;
        while i < n
            invariant
                self.wf(),
                i <= n,
                n == self.dir().len(),
                lookup(self.dir(), name@) == lookup_from(self.dir(), name@, i as int),
            decreases n - i,
        {
            let e = self.read_dirent(i);
            if crate::codec::bytes_eq(e.name(), name) {
                return Some(e.inode_id());
            }
            i = i + 1;
        }
        None
    }

    /// The link count of inode `id`.
    pub fn link_count(&self, id: u32) -> (n: u32)
        requires
            id < self.inode_count(),
        ensures
            n == self.nlink(id as int),
    {
        self.inodes[id as usize].nlink
    }

    /// Whether inode `id` is a directory.
    pub fn is_directory(&self, id: u32) -> (b: bool)
        requires
            id < self.inode_count(),
        ensures
            b == self.is_dir(id as int),
    {
        self.inodes[id as usize].is_dir
    }

    /// The size of inode `id`, in bytes.
    pub fn size(&self, id: u32) -> (n: usize)
        requires
            id < self.inode_count(),
        ensures
            n == self.data(id as int).len(),
    {
        self.inodes[id as usize].data.len()
    }

    /// Reads up to `len` bytes of file `id` from `offset` on.
    pub fn read_at(&self, id: u32, offset: usize, len: usize) -> (bytes: Vec<u8>)
        requires
            id < self.inode_count(),
        ensures
            bytes@ == read_spec(self.data(id as int), offset as int, len as int),
    {
        let data = &self.inodes[id as usize].data;
        let mut out: Vec<u8> = Vec::new();
        if offset >= data.len() {
            return out;
        }
        let end: usize = if len >= data.len() - offset {
            data.len()
        } else {
            offset + len
        };
        let mut i: usize = offset;
        while i < end
            invariant
                offset <= i <= end <= data@.len(),
                out@ == data@.subrange(offset as int, i as int),
            decreases end - i,
        {
            out.push(data[i]);
            assert(out@ =~= data@.subrange(offset as int, i as int + 1));
            i = i + 1;
        }
        out
    }

    /// Writes `buf` to file `id` at `offset`, and returns how many bytes
    /// were written: all of them, or none where the file has no link left,
    /// where `id` is the root directory, or where the end of what is
    /// written does not fit in a file size.
    pub fn write_at(&mut self, id: u32, offset: usize, buf: &Vec<u8>) -> (n: usize)
        requires
            old(self).wf(),
            id < old(self).inode_count(),
        ensures
            final(self).wf(),
            final(self).same_but(*old(self), id as int),
            final(self).nlink(id as int) == old(self).nlink(id as int),
            n == (if old(self).can_write(id as int, offset as int, buf@.len() as int) {
                buf@.len()
            } else {
                0
            }),
            final(self).data(id as int) == (if old(self).can_write(
                id as int,
                offset as int,
                buf@.len() as int,
            ) {
                write_spec(old(self).data(id as int), offset as int, buf@)
            } else {
                old(self).data(id as int)
            }),
    {
        let ghost before = *self;
        if id == 0 || self.inodes[id as usize].nlink == 0 || buf.len() > usize::MAX - offset {
            return 0;
        }
        let end: usize = offset + buf.len();
        let idx: usize = id as usize;
        while self.inodes[idx].data.len() < end
            invariant
                idx == id,
                1 <= idx < self.inodes@.len(),
                self.inodes@.len() == before.inodes@.len(),
                self.max_inodes == before.max_inodes,
                forall|k: int|
                    0 <= k < self.inodes@.len() && k != idx ==> self.inodes@[k] == before.inodes@[k],
                self.inodes@[idx as int].nlink == before.inodes@[idx as int].nlink,
                self.inodes@[idx as int].is_dir == before.inodes@[idx as int].is_dir,
                self.inodes@[idx as int].data@.len() >= before.inodes@[idx as int].data@.len(),
                forall|i: int|
                    0 <= i < self.inodes@[idx as int].data@.len() ==> self.inodes@[idx as int].data@[i]
                        == (if i < before.inodes@[idx as int].data@.len() {
                        before.inodes@[idx as int].data@[i]
                    } else {
                        0u8
                    }),
                self.inodes@[idx as int].data@.len() <= end || self.inodes@[idx as int].data@.len()
                    == before.inodes@[idx as int].data@.len(),
            decreases end - self.inodes@[idx as int].data@.len(),
        {
            self.inodes[idx].data.push(0u8);
        }
        let mut i: usize = 0;
        let ghost grown = self.inodes@[idx as int].data@;
        while i < buf.len()
            invariant
                i <= buf@.len(),
                end == offset + buf@.len(),
                idx == id,
                1 <= idx < self.inodes@.len(),
                self.inodes@.len() == before.inodes@.len(),
                self.max_inodes == before.max_inodes,
                forall|k: int|
                    0 <= k < self.inodes@.len() && k != idx ==> self.inodes@[k] == before.inodes@[k],
                self.inodes@[idx as int].nlink == before.inodes@[idx as int].nlink,
                self.inodes@[idx as int].is_dir == before.inodes@[idx as int].is_dir,
                self.inodes@[idx as int].data@.len() == grown.len(),
                grown.len() >= end,
                forall|j: int|
                    0 <= j < grown.len() ==> self.inodes@[idx as int].data@[j] == (if offset <= j
                        < offset + i {
                        buf@[j - offset]
                    } else {
                        grown[j]
                    }),
            decreases buf@.len() - i,
        {
            self.inodes[idx].data[offset + i] = buf[i];
            i = i + 1;
        }
        proof {
            assert(self.data(id as int) =~= write_spec(before.data(id as int), offset as int, buf@));
            self.lemma_same_but_wf(before, id as int);
        }
        buf.len()
    }

    /// Whether a write of `len` bytes to file `id` at `offset` is carried
    /// out.
    pub open spec fn can_write(&self, id: int, offset: int, len: int) -> bool {
        id != 0 && self.nlink(id) != 0 && offset + len <= usize::MAX
    }

    /// Empties file `id`.
    pub fn clear(&mut self, id: u32)
        requires
            old(self).wf(),
            1 <= id < old(self).inode_count(),
        ensures
            final(self).wf(),
            final(self).same_but(*old(self), id as int),
            final(self).nlink(id as int) == old(self).nlink(id as int),
            final(self).data(id as int) == Seq::<u8>::empty(),
    {
        let ghost before = *self;
        self.inodes[id as usize].data = Vec::new();
        proof {
            self.lemma_same_but_wf(before, id as int);
        }
    }

    /// Puts an entry for `name` and inode `id` at the end of the root
    /// directory.
    fn append_dirent(&mut self, name: &Vec<u8>, id: u32)
        requires
            old(self).inode_count() >= 1,
            old(self).data(0).len() % 32 == 0,
            valid_name(name@),
        ensures
            final(self).same_but(*old(self), 0),
            final(self).nlink(0) == old(self).nlink(0),
            final(self).data(0) == old(self).data(0) + dirent_bytes(name@, id),
            final(self).dir() == old(self).dir().push((name@, id)),
            final(self).data(0).len() % 32 == 0,
    {
        let entry = DirEntry::new(name, id);
        let mut bytes: Vec<u8> = entry.as_bytes();
        proof {
            lemma_dir_append(self.data(0), name@, id);
        }
        self.inodes[0].data.append(&mut bytes);
    }

    /// Creates an empty file with one link under `name`, and returns its
    /// inode number. `None`, and no change, exactly when the name is not
    /// valid, is taken, or no inode is free.
    pub fn create(&mut self, name: &Vec<u8>) -> (r: Option<u32>)
        requires
            old(self).wf(),
        ensures
            final(self).wf(),
            r.is_some() == (valid_name(name@) && lookup(old(self).dir(), name@).is_none() && old(self).inode_count() < old(self).capacity()),
            r.is_none() ==> *final(self) == *old(self),
            r.is_some() ==> {
                let id = r.unwrap() as int;
                &&& id == old(self).inode_count()
                &&& final(self).inode_count() == old(self).inode_count() + 1
                &&& final(self).capacity() == old(self).capacity()
                &&& final(self).dir() == old(self).dir().push((name@, r.unwrap()))
                &&& final(self).nlink(id) == 1
                &&& final(self).data(id) == Seq::<u8>::empty()
                &&& forall|k: int|
                    1 <= k < old(self).inode_count() ==> #[trigger] final(self).data(k) == old(self).data(k)
                &&& forall|k: int|
                    0 <= k < old(self).inode_count() ==> #[trigger] final(self).nlink(k) == old(self).nlink(k)
            },
    {
        let ghost before = *self;
        if !is_valid_name(name) || self.find(name).is_some() || self.inodes.len() >= self.max_inodes {
            return None;
        }
        let id: u32 = self.inodes.len() as u32;
        self.inodes.push(DiskInode { nlink: 1, is_dir: false, data: Vec::new() });
        let ghost mid = *self;
        assert(mid.data(0) == before.data(0));
        self.append_dirent(name, id);
        proof {
            assert(self.is_dir(0) == mid.is_dir(0));
            assert forall|i: int| 0 <= i < self.dir().len() implies valid_name(
                (#[trigger] self.dir()[i]).0,
            ) && 1 <= self.dir()[i].1 < self.inode_count() by {
                if i < before.dir().len() {
                    assert(valid_name(before.dir()[i].0));
                }
            }
            assert forall|k: int| 1 <= k < self.inode_count() implies !#[trigger] self.is_dir(k) by {
                assert(self.is_dir(k) == mid.is_dir(k));
                if k < before.inode_count() {
                    assert(!before.is_dir(k));
                }
            }
            assert forall|k: int|
                1 <= k < self.inode_count() && #[trigger] self.nlink(k) == 0 implies self.data(
                k,
            ).len() == 0 by {
                assert(self.nlink(k) == mid.nlink(k));
                assert(self.data(k) == mid.data(k));
                if k < before.inode_count() {
                    assert(before.nlink(k) == 0);
                }
            }
            assert forall|k: int| 1 <= k < before.inode_count() implies #[trigger] self.data(k)
                == before.data(k) by {
                assert(self.data(k) == mid.data(k));
            }
            assert forall|k: int| 0 <= k < before.inode_count() implies #[trigger] self.nlink(k)
                == before.nlink(k) by {
                if k != 0 {
                    assert(self.nlink(k) == mid.nlink(k));
                }
            }
            assert(self.nlink(id as int) == mid.nlink(id as int));
            assert(self.data(id as int) == mid.data(id as int));
        }
        Some(id)
    }

    /// Gives the file that `old_name` resolves to one more name: its link
    /// count grows by one and an entry for `new_name` is put at the end of
    /// the root directory. Returns `false`, and changes nothing, exactly
    /// when `old_name` does not resolve, `new_name` is not a valid name, or
    /// the link count is at its limit.
    pub fn link(&mut self, old_name: &Vec<u8>, new_name: &Vec<u8>) -> (ok: bool)
        requires
            old(self).wf(),
        ensures
            final(self).wf(),
            ok == old(self).can_link(old_name@, new_name@),
            !ok ==> *final(self) == *old(self),
            ok ==> final(self).linked_from(*old(self), old_name@, new_name@),
    {
        let ghost before = *self;
        if !is_valid_name(new_name) {
            return false;
        }
        let id: u32 = match self.find(old_name) {
            None => {
                return false;
            },
            Some(id) => id,
        };
        if self.inodes[id as usize].nlink == u32::MAX {
            return false;
        }
        let links: u32 = self.inodes[id as usize].nlink;
        self.inodes[id as usize].nlink = links + 1;
        let ghost mid = *self;
        assert(mid.data(0) == before.data(0));
        self.append_dirent(new_name, id);
        proof {
            assert(self.is_dir(0) == mid.is_dir(0));
            assert forall|i: int| 0 <= i < self.dir().len() implies valid_name(
                (#[trigger] self.dir()[i]).0,
            ) && 1 <= self.dir()[i].1 < self.inode_count() by {
                if i < before.dir().len() {
                    assert(valid_name(before.dir()[i].0));
                }
            }
            assert forall|k: int| 1 <= k < self.inode_count() implies !#[trigger] self.is_dir(k) by {
                assert(self.is_dir(k) == mid.is_dir(k));
                assert(!before.is_dir(k));
            }
            assert forall|k: int|
                1 <= k < self.inode_count() && #[trigger] self.nlink(k) == 0 implies self.data(
                k,
            ).len() == 0 by {
                assert(self.nlink(k) == mid.nlink(k));
                assert(self.data(k) == mid.data(k));
                if k != id {
                    assert(before.nlink(k) == 0);
                }
            }
            assert forall|k: int| 1 <= k < before.inode_count() implies #[trigger] self.data(k)
                == before.data(k) by {
                assert(self.data(k) == mid.data(k));
            }
            assert forall|k: int|
                0 <= k < before.inode_count() && k != id implies #[trigger] self.nlink(k)
                == before.nlink(k) by {
                if k != 0 {
                    assert(self.nlink(k) == mid.nlink(k));
                }
            }
            assert(self.nlink(id as int) == mid.nlink(id as int));
        }
        true
    }

    /// Whether `self` is `before` after the file that `old_name` resolved
    /// to got the name `new_name` as well: one more link, one more entry
    /// at the end of the directory, nothing else.
    pub open spec fn linked_from(&self, before: Self, old_name: Seq<u8>, new_name: Seq<u8>) -> bool {
        let id = lookup(before.dir(), old_name).unwrap();
        &&& self.inode_count() == before.inode_count()
        &&& self.capacity() == before.capacity()
        &&& self.dir() == before.dir().push((new_name, id))
        &&& self.nlink(id as int) == before.nlink(id as int) + 1
        &&& forall|k: int| 1 <= k < before.inode_count() ==> #[trigger] self.data(k) == before.data(k)
        &&& forall|k: int|
            0 <= k < before.inode_count() && k != id ==> #[trigger] self.nlink(k) == before.nlink(k)
    }

    /// Whether `self` is `before` after `name` was taken out of the
    /// directory: the entries of that name are gone, every file has lost
    /// one link for each of them that was its own, and a file that lost
    /// its last link that way has no data.
    pub open spec fn unlinked_from(&self, before: Self, name: Seq<u8>) -> bool {
        let gone = targets(before.dir(), name);
        &&& self.inode_count() == before.inode_count()
        &&& self.capacity() == before.capacity()
        &&& self.dir() == without(before.dir(), name)
        &&& self.nlink(0) == before.nlink(0)
        &&& forall|k: int|
            1 <= k < before.inode_count() ==> #[trigger] self.nlink(k) == links_left(
                before.nlink(k),
                occurrences(gone, k),
            )
        &&& forall|k: int|
            1 <= k < before.inode_count() ==> #[trigger] self.data(k) == (if occurrences(gone, k) > 0
                && self.nlink(k) == 0 {
                Seq::<u8>::empty()
            } else {
                before.data(k)
            })
    }

    /// A link to a name and the removal of that name leave the new name
    /// resolving to the inode that the old name had, where the two names
    /// differ and the new name was absent or already resolved to that
    /// inode.
    pub proof fn lemma_linked_then_unlinked(
        &self,
        linked: Self,
        before: Self,
        old_name: Seq<u8>,
        new_name: Seq<u8>,
    )
        requires
            lookup(before.dir(), old_name).is_some(),
            old_name != new_name,
            lookup(before.dir(), new_name).is_none() || lookup(before.dir(), new_name) == lookup(
                before.dir(),
                old_name,
            ),
            linked.linked_from(before, old_name, new_name),
            self.unlinked_from(linked, old_name),
        ensures
            lookup(self.dir(), new_name) == lookup(before.dir(), old_name),
    {
        lemma_link_then_unlink(before.dir(), old_name, new_name);
    }

    /// Whether `link` is carried out.
    pub open spec fn can_link(&self, old_name: Seq<u8>, new_name: Seq<u8>) -> bool {
        &&& valid_name(new_name)
        &&& lookup(self.dir(), old_name).is_some()
        &&& self.nlink(lookup(self.dir(), old_name).unwrap() as int) < u32::MAX
    }

    /// Takes `name` out of the root directory: the directory is written
    /// anew without the entries of that name, and for each of them its
    /// file loses one link, and its data when no link is left. Returns
    /// `false`, and changes nothing, exactly when the name does not
    /// resolve.
    pub fn unlink(&mut self, name: &Vec<u8>) -> (ok: bool)
        requires
            old(self).wf(),
        ensures
            final(self).wf(),
            ok == lookup(old(self).dir(), name@).is_some(),
            !ok ==> *final(self) == *old(self),
            ok ==> final(self).unlinked_from(*old(self), name@),
    {
        let ghost before = *self;
        if self.find(name).is_none() {
            return false;
        }
        let n: usize = self.file_count();
        let mut kept: Vec<DirEntry> = Vec::new();
        let mut gone: Vec<u32> = Vec::new();
        let mut i: usize = 0;
        proof {
            assert(self.dir().take(0) =~= Seq::<(Seq<u8>, u32)>::empty());
        }
        while i < n
            invariant
                self.wf(),
                *self == before,
                i <= n,
                n == self.dir().len(),
                entries_of(kept@) == without(self.dir().take(i as int), name@),
                gone@ == targets(self.dir().take(i as int), name@),
                forall|k: int|
                    0 <= k < kept@.len() ==> valid_name((#[trigger] kept@[k]).name_spec()) && 1
                        <= kept@[k].inode_spec() < self.inode_count(),
                forall|k: int| 0 <= k < gone@.len() ==> 1 <= #[trigger] gone@[k] < self.inode_count(),
            decreases n - i,
        {
            let e = self.read_dirent(i);
            proof {
                let next = self.dir().take(i as int + 1);
                assert(next.drop_last() =~= self.dir().take(i as int));
                assert(next.last() == self.dir()[i as int]);
                assert(valid_name(self.dir()[i as int].0));
            }
            if !crate::codec::bytes_eq(e.name(), name) {
                let ghost prev = kept@;
                kept.push(e);
                proof {
                    assert(entries_of(kept@) =~= entries_of(prev).push(
                        (e.name_spec(), e.inode_spec()),
                    ));
                }
            } else {
                gone.push(e.inode_id());
            }
            i = i + 1;
        }
        proof {
            assert(self.dir().take(n as int) =~= self.dir());
        }
        self.inodes[0].data = Vec::new();
        let mut k: usize = 0;
        proof {
            assert(self.dir() =~= entries_of(kept@).take(0));
        }
        while k < kept.len()
            invariant
                k <= kept@.len(),
                before.wf(),
                self.same_but(before, 0),
                self.nlink(0) == before.nlink(0),
                self.data(0).len() % 32 == 0,
                self.dir() == entries_of(kept@).take(k as int),
                forall|j: int|
                    0 <= j < kept@.len() ==> valid_name((#[trigger] kept@[j]).name_spec()) && 1
                        <= kept@[j].inode_spec() < before.inode_count(),
            decreases kept@.len() - k,
        {
            let ghost prev = *self;
            self.append_dirent(kept[k].name(), kept[k].inode_id());
            proof {
                assert(self.dir() =~= entries_of(kept@).take(k as int + 1));
                assert forall|j: int| 0 <= j < self.inode_count() && j != 0 implies #[trigger] self.data(
                    j,
                ) == before.data(j) by {
                    assert(self.data(j) == prev.data(j));
                }
                assert forall|j: int| 0 <= j < self.inode_count() && j != 0 implies #[trigger] self.nlink(
                    j,
                ) == before.nlink(j) by {
                    assert(self.nlink(j) == prev.nlink(j));
                }
                assert forall|j: int| 0 <= j < self.inode_count() implies #[trigger] self.is_dir(j)
                    == before.is_dir(j) by {
                    assert(self.is_dir(j) == prev.is_dir(j));
                }
            }
            k = k + 1;
        }
        let ghost rebuilt = *self;
        proof {
            assert(entries_of(kept@).take(kept@.len() as int) =~= entries_of(kept@));
            assert(gone@.take(0) =~= Seq::<u32>::empty());
        }
        let mut g: usize = 0;
        while g < gone.len()
            invariant
                g <= gone@.len(),
                before.wf(),
                self.inode_count() == before.inode_count(),
                self.capacity() == before.capacity(),
                self.data(0) == rebuilt.data(0),
                self.nlink(0) == before.nlink(0),
                forall|j: int| 0 <= j < self.inode_count() ==> #[trigger] self.is_dir(j) == before.is_dir(j),
                forall|j: int| 0 <= j < gone@.len() ==> 1 <= #[trigger] gone@[j] < self.inode_count(),
                forall|j: int|
                    1 <= j < before.inode_count() ==> #[trigger] self.nlink(j) == links_left(
                        before.nlink(j),
                        occurrences(gone@.take(g as int), j),
                    ),
                forall|j: int|
                    1 <= j < before.inode_count() ==> #[trigger] self.data(j) == (if occurrences(
                        gone@.take(g as int),
                        j,
                    ) > 0 && self.nlink(j) == 0 {
                        Seq::<u8>::empty()
                    } else {
                        before.data(j)
                    }),
            decreases gone@.len() - g,
        {
            let ghost prev = *self;
            let id: u32 = gone[g];
            let links: u32 = self.inodes[id as usize].nlink;
            let left: u32 = if links > 0 {
                links - 1
            } else {
                0
            };
            self.inodes[id as usize].nlink = left;
            if left == 0 {
                self.inodes[id as usize].data = Vec::new();
            }
            proof {
                let next = gone@.take(g as int + 1);
                assert(next.drop_last() =~= gone@.take(g as int));
                assert(next.last() == id);
                assert forall|j: int| 0 <= j < self.inode_count() implies #[trigger] self.is_dir(j)
                    == before.is_dir(j) by {
                    assert(self.is_dir(j) == prev.is_dir(j));
                }
                assert forall|j: int| 1 <= j < before.inode_count() implies #[trigger] self.nlink(j)
                    == links_left(before.nlink(j), occurrences(next, j)) by {
                    assert(next.drop_last() == gone@.take(g as int));
                    if j != id {
                        assert(self.nlink(j) == prev.nlink(j));
                    } else {
                        assert(prev.nlink(j) == links);
                        assert(self.nlink(j) == left);
                        assert(occurrences(next, j) == occurrences(gone@.take(g as int), j) + 1);
                    }
                }
                assert forall|j: int| 1 <= j < before.inode_count() implies #[trigger] self.data(j) == (
                if occurrences(next, j) > 0 && self.nlink(j) == 0 {
                    Seq::<u8>::empty()
                } else {
                    before.data(j)
                }) by {
                    assert(next.drop_last() == gone@.take(g as int));
                    if j != id {
                        assert(self.nlink(j) == prev.nlink(j));
                        assert(self.data(j) == prev.data(j));
                    } else {
                        assert(prev.nlink(j) == links);
                        if left != 0 {
                            assert(self.data(j) == prev.data(j));
                        }
                    }
                }
            }
            g = g + 1;
        }
        proof {
            assert(gone@.take(gone@.len() as int) =~= gone@);
            assert(self.is_dir(0) == before.is_dir(0));
            assert(self.dir() == without(before.dir(), name@));
            assert forall|j: int| 0 <= j < self.dir().len() implies valid_name(
                (#[trigger] self.dir()[j]).0,
            ) && 1 <= self.dir()[j].1 < self.inode_count() by {
                assert(self.dir()[j] == (kept@[j].name_spec(), kept@[j].inode_spec()));
            }
            assert forall|j: int| 1 <= j < self.inode_count() implies !#[trigger] self.is_dir(j) by {
                assert(!before.is_dir(j));
            }
            assert forall|j: int|
                1 <= j < self.inode_count() && #[trigger] self.nlink(j) == 0 implies self.data(
                j,
            ).len() == 0 by {
                if occurrences(gone@, j) == 0 {
                    assert(before.nlink(j) == 0);
                }
            }
        }
        true
    }
}

/// The names and inode numbers of a list of entries.
pub open spec fn entries_of(entries: Seq<DirEntry>) -> Directory {
    Seq::new(entries.len(), |i: int| (entries[i].name_spec(), entries[i].inode_spec()))
}

} // verus!

//! The on-disk form of a directory entry: 32 bytes, of which the first 28
//! hold the name, padded with zero bytes, and the last four the inode
//! number, lowest byte first. A name has at most 27 bytes and no zero byte,
//! so that a zero byte always ends it.

use vstd::prelude::*;
use crate::codec::{from_le_bytes, le_bytes, le_value, lemma_le_bytes_len, lemma_le_round_trip, lemma_pow256, to_le_bytes};

verus! {

/// The longest name, in bytes.
pub const NAME_LENGTH_LIMIT: usize = 27;

/// The size of a directory entry on disk, in bytes.
pub const DIRENT_SZ: usize = 32;

/// Whether a byte string can be a name: at most 27 bytes, none of them zero.
pub open spec fn valid_name(name: Seq<u8>) -> bool {
    &&& name.len() <= NAME_LENGTH_LIMIT
    &&& forall|i: int| 0 <= i < name.len() ==> name[i] != 0
}

/// The 32 bytes of the entry that gives `name` the inode `inode`.
pub open spec fn dirent_bytes(name: Seq<u8>, inode: u32) -> Seq<u8> {
    name + Seq::new((28 - name.len()) as nat, |i: int| 0u8) + le_bytes(inode as int, 4)
}

/// The position of the first zero byte at or after `from` among the first
/// 28 bytes, or 28.
pub open spec fn name_end(bytes: Seq<u8>, from: int) -> int
    decreases 28 - from,
{
    if from < 0 || from >= 28 || from >= bytes.len() {
        28
    } else if bytes[from] == 0 {
        from
    } else {
        name_end(bytes, from + 1)
    }
}

/// The name that the 32 bytes of an entry hold.
pub open spec fn dirent_name(bytes: Seq<u8>) -> Seq<u8> {
    bytes.take(name_end(bytes, 0))
}

/// The inode number that the 32 bytes of an entry hold.
pub open spec fn dirent_inode(bytes: Seq<u8>) -> u32 {
    le_value(bytes.subrange(28, 32)) as u32
}

/// Where the name ends: between `from` and 28, at a zero byte unless at 28,
/// with no zero byte before.
pub proof fn lemma_name_end(bytes: Seq<u8>, from: int)
    requires
        0 <= from <= 28,
        bytes.len() >= 28,
    ensures
        from <= name_end(bytes, from) <= 28,
        name_end(bytes, from) < 28 ==> bytes[name_end(bytes, from)] == 0,
        forall|i: int| from <= i < name_end(bytes, from) ==> bytes[i] != 0,
    decreases 28 - from,
{
    if from < 28 && bytes[from] != 0 {
        lemma_name_end(bytes, from + 1);
    }
}

/// An entry made of a valid name and an inode number holds both.
pub proof fn lemma_dirent_round_trip(name: Seq<u8>, inode: u32)
    requires
        valid_name(name),
    ensures
        dirent_bytes(name, inode).len() == DIRENT_SZ,
        dirent_name(dirent_bytes(name, inode)) == name,
        dirent_inode(dirent_bytes(name, inode)) == inode,
{
    let bytes = dirent_bytes(name, inode);
    lemma_le_bytes_len(inode as int, 4);
    lemma_name_end(bytes, 0);
    let end = name_end(bytes, 0);
    assert(bytes[name.len() as int] == 0);
    if end < name.len() {
        assert(bytes[end] == name[end]);
    }
    assert(bytes.take(end) =~= name);
    assert(bytes.subrange(28, 32) =~= le_bytes(inode as int, 4));
    lemma_pow256();
    lemma_le_round_trip(inode as int, 4);
}

/// Whether a byte string can be a name.
pub fn is_valid_name(name: &Vec<u8>) -> (ok: bool)
    ensures
        ok == valid_name(name@),
{
    if name.len() > NAME_LENGTH_LIMIT {
        return false;
    }
    let mut i: usize = 0;
    while i < name.len()
        invariant
            i <= name@.len(),
            name@.len() <= NAME_LENGTH_LIMIT,
            forall|j: int| 0 <= j < i ==> name@[j] != 0,
        decreases name@.len() - i,
    {
        if name[i] == 0 {
            return false;
        }
        i = i + 1;
    }
    true
}

/// A directory entry: a name and the number of its inode.
pub struct DirEntry {
    name: Vec<u8>,
    inode_number: u32,
}

impl DirEntry {
    /// The name.
    pub closed spec fn name_spec(&self) -> Seq<u8> {
        self.name@
    }

    /// The inode number.
    pub closed spec fn inode_spec(&self) -> u32 {
        self.inode_number
    }

    /// The entry with the empty name and inode 0.
    pub fn empty() -> (e: Self)
        ensures
            e.name_spec() == Seq::<u8>::empty(),
            e.inode_spec() == 0,
    {
        DirEntry { name: Vec::new(), inode_number: 0 }
    }

    /// The entry that gives `name` the inode `inode_id`.
    pub fn new(name: &Vec<u8>, inode_id: u32) -> (e: Self)
        requires
            valid_name(name@),
        ensures
            e.name_spec() == name@,
            e.inode_spec() == inode_id,
    {
        DirEntry { name: name.clone(), inode_number: inode_id }
    }

    /// The name.
    pub fn name(&self) -> (n: &Vec<u8>)
        ensures
            n@ == self.name_spec(),
    {
        &self.name
    }

    /// The inode number.
    pub fn inode_id(&self) -> (id: u32)
        ensures
            id == self.inode_spec(),
    {
        self.inode_number
    }

    /// The 32 bytes of the entry on disk.
    pub fn as_bytes(&self) -> (bytes: Vec<u8>)
        requires
            valid_name(self.name_spec()),
        ensures
            bytes@ == dirent_bytes(self.name_spec(), self.inode_spec()),
            bytes@.len() == DIRENT_SZ,
    {
        let mut out: Vec<u8> = Vec::new();
        let mut i: usize = 0;
        while i < self.name.len()
            invariant
                i <= self.name@.len(),
                out@ == self.name@.take(i as int),
            decreases self.name@.len() - i,
        {
            out.push(self.name[i]);
            assert(out@ =~= self.name@.take(i as int + 1));
            i = i + 1;
        }
        assert(self.name@.take(self.name@.len() as int) =~= self.name@);
        let pad: usize = 28 - self.name.len();
        let mut k: usize = 0;
        while k < pad
            invariant
                k <= pad,
                pad == 28 - self.name@.len(),
                out@ == self.name@ + Seq::new(k as nat, |i: int| 0u8),
            decreases pad - k,
        {
            out.push(0u8);
            assert(out@ =~= self.name@ + Seq::new((k + 1) as nat, |i: int| 0u8));
            k = k + 1;
        }
        let mut tail: Vec<u8> = to_le_bytes(self.inode_number as u64, 4);
        let ghost head = out@;
        out.append(&mut tail);
        assert(out@ =~= dirent_bytes(self.name_spec(), self.inode_spec()));
        out
    }

    /// The entry that 32 bytes on disk hold.
    pub fn from_bytes(bytes: &Vec<u8>) -> (e: Self)
        requires
            bytes@.len() == DIRENT_SZ,
        ensures
            e.name_spec() == dirent_name(bytes@),
            e.inode_spec() == dirent_inode(bytes@),
    {
        let mut name: Vec<u8> = Vec::new();
        let mut i: usize = 0;
        while i < 28 && bytes[i] != 0
            invariant
                i <= 28,
                bytes@.len() == DIRENT_SZ,
                name@ == bytes@.take(i as int),
                name_end(bytes@, 0) == name_end(bytes@, i as int),
            decreases 28 - i,
        {
            name.push(bytes[i]);
            assert(name@ =~= bytes@.take(i as int + 1));
            i = i + 1;
        }
        let mut tail: Vec<u8> = Vec::new();
        let mut k: usize = 28;
        while k < 32
            invariant
                28 <= k <= 32,
                bytes@.len() == DIRENT_SZ,
                tail@ == bytes@.subrange(28, k as int),
            decreases 32 - k,
        {
            tail.push(bytes[k]);
            assert(tail@ =~= bytes@.subrange(28, k as int + 1));
            k = k + 1;
        }
        proof {
            crate::codec::lemma_le_value_bytes(tail@);
            lemma_pow256();
        }
        let inode: u64 = from_le_bytes(&tail);
        DirEntry { name, inode_number: inode as u32 }
    }
}

} // verus!

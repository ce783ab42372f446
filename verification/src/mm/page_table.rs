//! Three-level page table: a virtual page number is split into three 9-bit
//! indices, one per level. Every node of the tree occupies one physical
//! frame, taken from the frame allocator when the node is created.

use vstd::prelude::*;
use crate::config::{PT_ENTRIES, VPN_LIMIT};
use crate::mm::frame_allocator::FrameAllocator;

verus! {

/// The flag bits of a page-table entry.
#[derive(Clone, Copy, Debug)]
pub struct PTEFlags {
    /// Valid.
    pub v: bool,
    /// Readable.
    pub r: bool,
    /// Writable.
    pub w: bool,
    /// Executable.
    pub x: bool,
    /// Accessible from user mode.
    pub u: bool,
    /// Accessed.
    pub a: bool,
    /// Dirty.
    pub d: bool,
}

impl PTEFlags {
    /// No flag set.
    pub open spec fn empty_spec() -> Self {
        PTEFlags { v: false, r: false, w: false, x: false, u: false, a: false, d: false }
    }

    /// No flag set.
    pub fn empty() -> (f: Self)
        ensures
            f == Self::empty_spec(),
    {
        PTEFlags { v: false, r: false, w: false, x: false, u: false, a: false, d: false }
    }

    /// The same flags with Valid set.
    pub open spec fn with_valid(self) -> Self {
        PTEFlags { v: true, ..self }
    }
}

/// A leaf entry: a frame number and its flags.
#[derive(Clone, Copy, Debug)]
pub struct PageTableEntry {
    /// The physical frame the page is mapped to.
    pub ppn: usize,
    /// The flags of the mapping.
    pub flags: PTEFlags,
}

impl PageTableEntry {
    /// The cleared entry: frame 0, no flag.
    pub open spec fn empty_spec() -> Self {
        PageTableEntry { ppn: 0, flags: PTEFlags::empty_spec() }
    }

    /// The cleared entry.
    pub fn empty() -> (e: Self)
        ensures
            e == Self::empty_spec(),
    {
        PageTableEntry { ppn: 0, flags: PTEFlags::empty() }
    }

    /// An entry for frame `ppn` with exactly the given flags.
    pub fn new(ppn: usize, flags: PTEFlags) -> (e: Self)
        ensures
            e == (PageTableEntry { ppn, flags }),
    {
        PageTableEntry { ppn, flags }
    }

    /// The frame number.
    pub fn ppn(&self) -> (p: usize)
        ensures
            p == self.ppn,
    {
        self.ppn
    }

    /// The flags.
    pub fn flags(&self) -> (f: PTEFlags)
        ensures
            f == self.flags,
    {
        self.flags
    }

    /// Whether the Valid flag is set.
    pub fn is_valid(&self) -> (b: bool)
        ensures
            b == self.flags.v,
    {
        self.flags.v
    }

    /// Whether the entry is valid and open to user mode.
    pub open spec fn user_valid(&self) -> bool {
        self.flags.v && self.flags.u
    }
}

/// Why a mapping could not be made.
#[derive(Clone, Copy, Debug)]
pub enum MapError {
    /// The page number does not fit in 27 bits.
    OutOfRange,
    /// The leaf entry is already valid.
    AlreadyMapped,
    /// Not enough free frames for the missing page-table nodes.
    OutOfFrames,
}

struct LeafTable {
    ppn: usize,
    entries: Vec<PageTableEntry>,
}

struct MidTable {
    ppn: usize,
    entries: Vec<Option<LeafTable>>,
}

/// A three-level page table.
pub struct PageTable {
    root_ppn: usize,
    entries: Vec<Option<MidTable>>,
    frames: Vec<usize>,
}

/// How many page-table nodes the pages of `[start, end)` can need at most:
/// one for every last-level node and every second-level node that the
/// range touches.
pub open spec fn table_span(start: usize, end: usize) -> int {
    if start >= end {
        0
    } else {
        (leaf_index((end - 1) as usize) - leaf_index(start) + 1) + (mid_index((end - 1) as usize)
            - mid_index(start) + 1)
    }
}

/// Index into the root node for a virtual page number.
pub open spec fn mid_index(vpn: usize) -> int {
    vpn as int / 262144
}

/// Number of the last-level node for a virtual page number, counted over
/// the whole address space: the upper 18 bits of the page number.
pub open spec fn leaf_index(vpn: usize) -> int {
    vpn as int / 512
}

/// Which page-table nodes exist below a root: the indices of the
/// second-level nodes and the numbers of the last-level nodes.
#[verifier::ext_equal]
pub struct Nodes {
    /// The indices of the second-level nodes.
    pub mids: Set<int>,
    /// The numbers of the last-level nodes.
    pub leaves: Set<int>,
}

/// How many of the numbers in `[lo, hi)` are not in `have`.
pub open spec fn missing_in(have: Set<int>, lo: int, hi: int) -> int
    decreases hi - lo,
{
    if lo >= hi {
        0
    } else {
        missing_in(have, lo, hi - 1) + (if have.contains(hi - 1) {
            0int
        } else {
            1int
        })
    }
}

/// None of the numbers counted is missing twice: the count is at most
/// the length of the range, and not negative.
pub proof fn lemma_missing_in_bound(have: Set<int>, lo: int, hi: int)
    ensures
        0 <= missing_in(have, lo, hi),
        lo <= hi ==> missing_in(have, lo, hi) <= hi - lo,
    decreases hi - lo,
{
    if lo < hi {
        lemma_missing_in_bound(have, lo, hi - 1);
    }
}

impl Nodes {
    /// No node but the root.
    pub open spec fn none() -> Nodes {
        Nodes { mids: Set::empty(), leaves: Set::empty() }
    }

    /// The nodes together with those that the pages of `[start, end)` need.
    pub open spec fn with_span(self, start: usize, end: usize) -> Nodes {
        Nodes {
            mids: Set::new(
                |k: int|
                    self.mids.contains(k) || (start < end && mid_index(start) <= k <= mid_index(
                        (end - 1) as usize,
                    )),
            ),
            leaves: Set::new(
                |j: int|
                    self.leaves.contains(j) || (start < end && leaf_index(start) <= j <= leaf_index(
                        (end - 1) as usize,
                    )),
            ),
        }
    }

    /// How many nodes have to be created before every page of
    /// `[start, end)` can be walked to a leaf entry.
    pub open spec fn missing(self, start: usize, end: usize) -> int {
        if start >= end {
            0
        } else {
            missing_in(self.mids, mid_index(start), mid_index((end - 1) as usize) + 1) + missing_in(
                self.leaves,
                leaf_index(start),
                leaf_index((end - 1) as usize) + 1,
            )
        }
    }

    /// The count of missing nodes is not negative and at most the number
    /// of nodes that the range touches.
    pub proof fn lemma_missing_bound(self, start: usize, end: usize)
        ensures
            0 <= self.missing(start, end) <= table_span(start, end),
    {
        if start < end {
            lemma_missing_in_bound(self.mids, mid_index(start), mid_index((end - 1) as usize) + 1);
            lemma_missing_in_bound(
                self.leaves,
                leaf_index(start),
                leaf_index((end - 1) as usize) + 1,
            );
        }
    }
}

/// A record of page-table nodes, to count what a list of ranges needs
/// before any node is made.
pub struct NodeMap {
    mids: Vec<bool>,
    leaves: Vec<bool>,
}

impl NodeMap {
    /// The nodes on record.
    pub closed spec fn nodes(&self) -> Nodes {
        Nodes {
            mids: Set::new(|k: int| 0 <= k < self.mids@.len() && self.mids@[k]),
            leaves: Set::new(|j: int| 0 <= j < self.leaves@.len() && self.leaves@[j]),
        }
    }

    /// Well-formedness: the record has a place for every node.
    pub closed spec fn wf(&self) -> bool {
        &&& self.mids@.len() == PT_ENTRIES
        &&& self.leaves@.len() == PT_ENTRIES * PT_ENTRIES
    }

    /// A record without a node.
    pub fn new() -> (m: Self)
        ensures
            m.wf(),
            m.nodes() == Nodes::none(),
    {
        let mut mids: Vec<bool> = Vec::new();
        let mut leaves: Vec<bool> = Vec::new();
        let mut k: usize = 0;
        while k < PT_ENTRIES
            invariant
                k <= PT_ENTRIES,
                mids@.len() == k,
                forall|i: int| 0 <= i < k ==> !mids@[i],
            decreases PT_ENTRIES - k,
        {
            mids.push(false);
            k = k + 1;
        }
        let mut j: usize = 0;
        while j < PT_ENTRIES * PT_ENTRIES
            invariant
                j <= PT_ENTRIES * PT_ENTRIES,
                leaves@.len() == j,
                forall|i: int| 0 <= i < j ==> !leaves@[i],
            decreases PT_ENTRIES * PT_ENTRIES - j,
        {
            leaves.push(false);
            j = j + 1;
        }
        let m = NodeMap { mids, leaves };
        assert(m.nodes() =~~= Nodes::none());
        m
    }

    /// Puts the nodes that the pages of `[start, end)` need on record, and
    /// returns how many of them were not there.
    pub fn cover(&mut self, start: usize, end: usize) -> (n: usize)
        requires
            old(self).wf(),
            start <= end <= VPN_LIMIT,
        ensures
            final(self).wf(),
            n == old(self).nodes().missing(start, end),
            n <= table_span(start, end),
            final(self).nodes() == old(self).nodes().with_span(start, end),
    {
        let ghost before = *self;
        if start >= end {
            assert(self.nodes() =~~= before.nodes().with_span(start, end));
            return 0;
        }
        let k_lo: usize = start / 262144;
        let k_hi: usize = (end - 1) / 262144 + 1;
        let j_lo: usize = start / 512;
        let j_hi: usize = (end - 1) / 512 + 1;
        let mut n: usize = 0;
        let mut k: usize = k_lo;
        proof {
            lemma_missing_in_bound(before.nodes().mids, k_lo as int, k_hi as int);
            lemma_missing_in_bound(before.nodes().leaves, j_lo as int, j_hi as int);
        }
        while k < k_hi
            invariant
                k_lo <= k <= k_hi <= PT_ENTRIES,
                self.wf(),
                before.wf(),
                self.leaves == before.leaves,
                n == missing_in(before.nodes().mids, k_lo as int, k as int),
                n <= k - k_lo,
                forall|i: int| k_lo <= i < k ==> self.mids@[i],
                forall|i: int|
                    0 <= i < PT_ENTRIES && !(k_lo <= i < k) ==> self.mids@[i] == before.mids@[i],
            decreases k_hi - k,
        {
            if !self.mids[k] {
                self.mids[k] = true;
                n = n + 1;
            }
            k = k + 1;
        }
        let ghost mids = n;
        let mut j: usize = j_lo;
        while j < j_hi
            invariant
                j_lo <= j <= j_hi <= PT_ENTRIES * PT_ENTRIES,
                self.wf(),
                before.wf(),
                mids <= k_hi - k_lo <= PT_ENTRIES,
                forall|i: int| k_lo <= i < k_hi ==> self.mids@[i],
                forall|i: int|
                    0 <= i < PT_ENTRIES && !(k_lo <= i < k_hi) ==> self.mids@[i] == before.mids@[i],
                n == mids + missing_in(before.nodes().leaves, j_lo as int, j as int),
                n <= mids + (j - j_lo),
                forall|i: int| j_lo <= i < j ==> self.leaves@[i],
                forall|i: int|
                    0 <= i < PT_ENTRIES * PT_ENTRIES && !(j_lo <= i < j) ==> self.leaves@[i]
                        == before.leaves@[i],
            decreases j_hi - j,
        {
            if !self.leaves[j] {
                self.leaves[j] = true;
                n = n + 1;
            }
            j = j + 1;
        }
        proof {
            assert(self.nodes() =~~= before.nodes().with_span(start, end));
        }
        n
    }
}

fn new_leaf_entries() -> (v: Vec<PageTableEntry>)
    ensures
        v@.len() == PT_ENTRIES,
        forall|i: int| 0 <= i < v@.len() ==> #[trigger] v@[i] == PageTableEntry::empty_spec(),
{
    let mut v: Vec<PageTableEntry> = Vec::new();
    let mut i: usize = 0;
    while i < PT_ENTRIES
        invariant
            i <= PT_ENTRIES,
            v@.len() == i,
            forall|j: int| 0 <= j < v@.len() ==> #[trigger] v@[j] == PageTableEntry::empty_spec(),
        decreases PT_ENTRIES - i,
    {
        v.push(PageTableEntry::empty());
        i = i + 1;
    }
    v
}

fn new_mid_entries() -> (v: Vec<Option<LeafTable>>)
    ensures
        v@.len() == PT_ENTRIES,
        forall|i: int| 0 <= i < v@.len() ==> (#[trigger] v@[i]).is_none(),
{
    let mut v: Vec<Option<LeafTable>> = Vec::new();
    let mut i: usize = 0;
    while i < PT_ENTRIES
        invariant
            i <= PT_ENTRIES,
            v@.len() == i,
            forall|j: int| 0 <= j < v@.len() ==> (#[trigger] v@[j]).is_none(),
        decreases PT_ENTRIES - i,
    {
        v.push(None);
        i = i + 1;
    }
    v
}

fn new_root_entries() -> (v: Vec<Option<MidTable>>)
    ensures
        v@.len() == PT_ENTRIES,
        forall|i: int| 0 <= i < v@.len() ==> (#[trigger] v@[i]).is_none(),
{
    let mut v: Vec<Option<MidTable>> = Vec::new();
    let mut i: usize = 0;
    while i < PT_ENTRIES
        invariant
            i <= PT_ENTRIES,
            v@.len() == i,
            forall|j: int| 0 <= j < v@.len() ==> (#[trigger] v@[j]).is_none(),
        decreases PT_ENTRIES - i,
    {
        v.push(None);
        i = i + 1;
    }
    v
}

impl LeafTable {
    spec fn wf(&self) -> bool {
        &&& self.entries@.len() == PT_ENTRIES
        &&& forall|i: int|
            0 <= i < PT_ENTRIES && !(#[trigger] self.entries@[i]).flags.v ==> self.entries@[i]
                == PageTableEntry::empty_spec()
    }
}

impl MidTable {
    spec fn wf(&self) -> bool {
        &&& self.entries@.len() == PT_ENTRIES
        &&& forall|i: int|
            0 <= i < PT_ENTRIES && (#[trigger] self.entries@[i]).is_some()
                ==> self.entries@[i].unwrap().wf()
    }
}

impl PageTable {
    /// The frame of the root node.
    pub closed spec fn root_ppn(&self) -> usize {
        self.root_ppn
    }

    /// The frames of all nodes, the root first, in order of creation.
    pub closed spec fn frames(&self) -> Seq<usize> {
        self.frames@
    }

    /// Whether the second-level node with index `k` in the root exists.
    pub closed spec fn has_mid(&self, k: int) -> bool {
        0 <= k < PT_ENTRIES && self.entries@[k].is_some()
    }

    /// Whether the last-level node number `j` exists.
    pub closed spec fn has_leaf(&self, j: int) -> bool {
        &&& 0 <= j < PT_ENTRIES * PT_ENTRIES
        &&& self.entries@[j / 512].is_some()
        &&& self.entries@[j / 512].unwrap().entries@[j % 512].is_some()
    }

    /// The leaf entry for `vpn`; the cleared entry where the walk does not
    /// reach a leaf.
    pub closed spec fn pte(&self, vpn: usize) -> PageTableEntry {
        if vpn < VPN_LIMIT && self.has_leaf(leaf_index(vpn)) {
            self.entries@[vpn as int / 262144].unwrap().entries@[(vpn as int / 512)
                % 512].unwrap().entries@[vpn as int % 512]
        } else {
            PageTableEntry::empty_spec()
        }
    }

    /// Whether the walk for `vpn` reaches a leaf entry.
    pub open spec fn walkable(&self, vpn: usize) -> bool {
        vpn < VPN_LIMIT && self.has_leaf(leaf_index(vpn))
    }

    /// Whether `vpn` has a valid leaf entry.
    pub open spec fn mapped(&self, vpn: usize) -> bool {
        self.pte(vpn).flags.v
    }

    /// How many nodes a walk for `vpn` would have to create.
    pub open spec fn missing_for(&self, vpn: usize) -> int {
        if !self.has_mid(mid_index(vpn)) {
            2
        } else if !self.has_leaf(leaf_index(vpn)) {
            1
        } else {
            0
        }
    }

    /// Well-formedness: every node has 512 entries, an entry that is not
    /// valid is cleared, and the frames of the nodes are distinct.
    pub closed spec fn wf(&self) -> bool {
        &&& self.entries@.len() == PT_ENTRIES
        &&& forall|i: int|
            0 <= i < PT_ENTRIES && (#[trigger] self.entries@[i]).is_some()
                ==> self.entries@[i].unwrap().wf()
        &&& self.frames@.len() >= 1
        &&& self.frames@[0] == self.root_ppn
        &&& self.frames@.no_duplicates()
        &&& forall|i: int|
            0 <= i < PT_ENTRIES && (#[trigger] self.entries@[i]).is_some()
                ==> self.frames@.contains(self.entries@[i].unwrap().ppn)
        &&& forall|i: int, j: int|
            0 <= i < PT_ENTRIES && 0 <= j < PT_ENTRIES && self.entries@[i].is_some() && (
            #[trigger] self.entries@[i].unwrap().entries@[j]).is_some() ==> self.frames@.contains(
                self.entries@[i].unwrap().entries@[j].unwrap().ppn,
            )
    }

    /// What well-formedness says over the public view.
    pub proof fn lemma_wf(&self)
        requires
            self.wf(),
        ensures
            self.frames().len() >= 1,
            self.frames()[0] == self.root_ppn(),
            self.frames().no_duplicates(),
            forall|j: int| #[trigger] self.has_leaf(j) ==> self.has_mid(j / 512),
            forall|vpn: usize| !self.walkable(vpn) ==> #[trigger] self.pte(vpn)
                == PageTableEntry::empty_spec(),
            forall|vpn: usize| !self.mapped(vpn) ==> #[trigger] self.pte(vpn)
                == PageTableEntry::empty_spec(),
            forall|vpn: usize| #[trigger] self.mapped(vpn) ==> self.walkable(vpn),
    {
        assert forall|vpn: usize| !self.mapped(vpn) implies #[trigger] self.pte(vpn)
            == PageTableEntry::empty_spec() by {
            if vpn < VPN_LIMIT && self.has_leaf(leaf_index(vpn)) {
                let m = self.entries@[vpn as int / 262144];
                assert(vpn as int / 512 / 512 == vpn as int / 262144);
                assert(m.unwrap().wf());
                let l = m.unwrap().entries@[(vpn as int / 512) % 512];
                assert(l.unwrap().wf());
                assert(!l.unwrap().entries@[vpn as int % 512].flags.v);
            }
        }
    }

    /// A table with a fresh root node and no mapping. `None` exactly when no
    /// frame is free.
    pub fn new(frames: &mut FrameAllocator) -> (r: Option<Self>)
        requires
            old(frames).wf(),
        ensures
            final(frames).wf(),
            r.is_none() <==> old(frames).free_count_spec() == 0,
            r.is_none() ==> *final(frames) == *old(frames),
            r.is_some() ==> {
                let pt = r.unwrap();
                &&& pt.wf()
                &&& pt.frames().len() == 1
                &&& final(frames).after_taking(*old(frames), pt.frames())
                &&& forall|vpn: usize| #[trigger] pt.pte(vpn) == PageTableEntry::empty_spec()
                &&& forall|k: int| !#[trigger] pt.has_mid(k)
                &&& forall|j: int| !#[trigger] pt.has_leaf(j)
            },
    {
        match frames.frame_alloc() {
            None => None,
            Some(root) => {
                let mut list: Vec<usize> = Vec::new();
                list.push(root);
                let pt = PageTable { root_ppn: root, entries: new_root_entries(), frames: list };
                proof {
                    assert(pt.frames@ =~= seq![root]);
                }
                Some(pt)
            },
        }
    }

    /// Whether every node's frame is handed out by the allocator.
    pub open spec fn frames_allocated(&self, frames: FrameAllocator) -> bool {
        forall|i: int|
            0 <= i < self.frames().len() ==> frames.is_allocated(#[trigger] self.frames()[i])
    }

    /// A table that grew keeps its frames handed out.
    pub proof fn lemma_grown_allocated(
        &self,
        before: Self,
        frames_after: FrameAllocator,
        frames_before: FrameAllocator,
    )
        requires
            frames_before.wf(),
            before.frames_allocated(frames_before),
            self.grown_from(before, frames_after, frames_before),
        ensures
            self.frames_allocated(frames_after),
    {
        let n0 = before.frames().len() as int;
        let taken = self.frames().skip(n0);
        frames_before.lemma_wf();
        assert forall|i: int| 0 <= i < self.frames().len() implies frames_after.is_allocated(
            #[trigger] self.frames()[i],
        ) by {
            if i < n0 {
                assert(self.frames().take(n0)[i] == before.frames()[i]);
                assert(frames_before.is_allocated(before.frames()[i]));
            } else {
                assert(taken[i - n0] == self.frames()[i]);
                assert(taken.contains(taken[i - n0]));
                assert(frames_before.is_free(taken[i - n0]));
            }
        }
    }

    /// Whether `self` results from `before` by creating nodes only: no
    /// leaf entry changed, no node went away, and the frames of the new
    /// nodes are exactly those taken from the allocator.
    pub open spec fn grown_from(
        &self,
        before: Self,
        frames_after: FrameAllocator,
        frames_before: FrameAllocator,
    ) -> bool {
        &&& self.root_ppn() == before.root_ppn()
        &&& before.frames().len() <= self.frames().len()
        &&& self.frames().take(before.frames().len() as int) == before.frames()
        &&& frames_after.after_taking(
            frames_before,
            self.frames().skip(before.frames().len() as int),
        )
        &&& forall|vpn: usize| #[trigger] self.pte(vpn) == before.pte(vpn)
        &&& forall|k: int| before.has_mid(k) ==> #[trigger] self.has_mid(k)
        &&& forall|j: int| before.has_leaf(j) ==> #[trigger] self.has_leaf(j)
    }

    /// Growing twice is growing once.
    pub proof fn lemma_grown_trans(
        &self,
        mid: Self,
        before: Self,
        frames_after: FrameAllocator,
        frames_mid: FrameAllocator,
        frames_before: FrameAllocator,
    )
        requires
            frames_before.wf(),
            mid.grown_from(before, frames_mid, frames_before),
            self.grown_from(mid, frames_after, frames_mid),
        ensures
            self.grown_from(before, frames_after, frames_before),
    {
        let n0 = before.frames().len() as int;
        let n1 = mid.frames().len() as int;
        let first = mid.frames().skip(n0);
        let second = self.frames().skip(n1);
        assert(self.frames().take(n0) =~= before.frames()) by {
            assert forall|i: int| 0 <= i < n0 implies self.frames()[i] == before.frames()[i] by {
                assert(self.frames().take(n1)[i] == mid.frames()[i]);
                assert(mid.frames().take(n0)[i] == before.frames()[i]);
            }
        }
        assert(self.frames().skip(n0) =~= first + second) by {
            assert forall|i: int| 0 <= i < self.frames().len() - n0 implies self.frames().skip(
                n0,
            )[i] == (first + second)[i] by {
                if i < n1 - n0 {
                    assert(self.frames().take(n1)[i + n0] == mid.frames()[i + n0]);
                }
            }
        }
        frames_after.lemma_take_more(frames_before, frames_mid, first, second);
    }

    /// Nothing grown.
    pub proof fn lemma_grown_refl(&self, frames: FrameAllocator)
        ensures
            self.grown_from(*self, frames, frames),
    {
        assert(self.frames().take(self.frames().len() as int) =~= self.frames());
        assert(self.frames().skip(self.frames().len() as int) =~= Seq::empty());
    }

    fn ensure_mid(&mut self, k: usize, frames: &mut FrameAllocator)
        requires
            old(self).wf(),
            old(frames).wf(),
            old(self).frames_allocated(*old(frames)),
            k < PT_ENTRIES,
            !old(self).has_mid(k as int) ==> old(frames).free_count_spec() >= 1,
        ensures
            final(self).wf(),
            final(frames).wf(),
            final(self).grown_from(*old(self), *final(frames), *old(frames)),
            final(self).has_mid(k as int),
            forall|i: int| i != k ==> final(self).has_mid(i) == old(self).has_mid(i),
            forall|j: int| final(self).has_leaf(j) == old(self).has_leaf(j),
            final(self).frames().len() == old(self).frames().len() + (if old(self).has_mid(
                k as int,
            ) {
                0int
            } else {
                1int
            }),
    {
        let ghost before = *self;
        let ghost frames_before = *frames;
        if self.entries[k].is_some() {
            proof {
                self.lemma_grown_refl(*frames);
            }
            return ;
        }
        let ppn: usize = frames.frame_alloc().unwrap();
        proof {
            if self.frames@.contains(ppn) {
                let idx = choose|idx: int| 0 <= idx < self.frames@.len() && self.frames@[idx] == ppn;
                assert(frames_before.is_allocated(self.frames()[idx]));
            }
        }
        self.frames.push(ppn);
        self.entries[k] = Some(MidTable { ppn, entries: new_mid_entries() });
        proof {
            assert(self.frames@.take(before.frames@.len() as int) =~= before.frames@);
            assert(self.frames@.skip(before.frames@.len() as int) =~= seq![ppn]);
            assert forall|vpn: usize| #[trigger] self.pte(vpn) == before.pte(vpn) by {
                assert(vpn as int / 512 / 512 == vpn as int / 262144);
            }
            assert(self.frames@[self.frames@.len() - 1] == ppn);
            assert forall|i: int|
                0 <= i < PT_ENTRIES && (#[trigger] self.entries@[i]).is_some()
                    implies self.frames@.contains(self.entries@[i].unwrap().ppn) by {
                if i != k {
                    let p = before.entries@[i].unwrap().ppn;
                    let idx = choose|idx: int| 0 <= idx < before.frames@.len() && before.frames@[idx] == p;
                    assert(self.frames@[idx] == p);
                }
            }
            assert forall|i: int, j: int|
                0 <= i < PT_ENTRIES && 0 <= j < PT_ENTRIES && self.entries@[i].is_some() && (
                #[trigger] self.entries@[i].unwrap().entries@[j]).is_some()
                    implies self.frames@.contains(
                self.entries@[i].unwrap().entries@[j].unwrap().ppn,
            ) by {
                let p = before.entries@[i].unwrap().entries@[j].unwrap().ppn;
                assert(before.frames@.contains(p));
                let idx = choose|idx: int| 0 <= idx < before.frames@.len() && before.frames@[idx] == p;
                assert(self.frames@[idx] == p);
            }
        }
    }

    fn ensure_leaf(&mut self, j: usize, frames: &mut FrameAllocator)
        requires
            old(self).wf(),
            old(frames).wf(),
            old(self).frames_allocated(*old(frames)),
            j < PT_ENTRIES * PT_ENTRIES,
            old(self).has_mid(j as int / 512),
            !old(self).has_leaf(j as int) ==> old(frames).free_count_spec() >= 1,
        ensures
            final(self).wf(),
            final(frames).wf(),
            final(self).grown_from(*old(self), *final(frames), *old(frames)),
            final(self).has_leaf(j as int),
            forall|i: int| i != j ==> final(self).has_leaf(i) == old(self).has_leaf(i),
            forall|k: int| final(self).has_mid(k) == old(self).has_mid(k),
            final(self).frames().len() == old(self).frames().len() + (if old(self).has_leaf(
                j as int,
            ) {
                0int
            } else {
                1int
            }),
    {
        let ghost before = *self;
        let ghost frames_before = *frames;
        let k: usize = j / 512;
        let i1: usize = j % 512;
        let present: bool = match &self.entries[k] {
            Some(mid) => {
                assert(mid.wf());
                mid.entries[i1].is_some()
            },
            None => false,
        };
        if present {
            proof {
                self.lemma_grown_refl(*frames);
            }
            return ;
        }
        let ppn: usize = frames.frame_alloc().unwrap();
        proof {
            if self.frames@.contains(ppn) {
                let idx = choose|idx: int| 0 <= idx < self.frames@.len() && self.frames@[idx] == ppn;
                assert(frames_before.is_allocated(self.frames()[idx]));
            }
        }
        self.frames.push(ppn);
        let leaf = LeafTable { ppn, entries: new_leaf_entries() };
        assert(before.entries@[k as int].unwrap().wf());
        match &mut self.entries[k] {
            Some(mid) => {
                mid.entries[i1] = Some(leaf);
            },
            None => {},
        }
        proof {
            assert(self.frames@.take(before.frames@.len() as int) =~= before.frames@);
            assert(self.frames@.skip(before.frames@.len() as int) =~= seq![ppn]);
            assert(self.frames@[self.frames@.len() - 1] == ppn);
            let new_mid = self.entries@[k as int].unwrap();
            let old_mid = before.entries@[k as int].unwrap();
            assert(new_mid.entries@ == old_mid.entries@.update(i1 as int, Some(leaf)));
            assert(new_mid.ppn == old_mid.ppn);
            assert forall|i: int| i != j implies self.has_leaf(i) == before.has_leaf(i) by {
                if 0 <= i < PT_ENTRIES * PT_ENTRIES {
                    if i / 512 == k {
                        assert(i % 512 != i1);
                    }
                }
            }
            assert forall|vpn: usize| #[trigger] self.pte(vpn) == before.pte(vpn) by {
                assert(vpn as int / 512 / 512 == vpn as int / 262144);
                if vpn < VPN_LIMIT && vpn as int / 512 == j {
                    assert(!before.has_leaf(leaf_index(vpn)));
                    assert(self.has_leaf(leaf_index(vpn)));
                } else if vpn < VPN_LIMIT {
                    assert(self.has_leaf(leaf_index(vpn)) == before.has_leaf(leaf_index(vpn)));
                }
            }
            assert forall|i: int|
                0 <= i < PT_ENTRIES && (#[trigger] self.entries@[i]).is_some()
                    implies self.entries@[i].unwrap().wf() by {
                if i != k {
                    assert(before.entries@[i].unwrap().wf());
                }
            }
            assert forall|i: int|
                0 <= i < PT_ENTRIES && (#[trigger] self.entries@[i]).is_some()
                    implies self.frames@.contains(self.entries@[i].unwrap().ppn) by {
                let p = before.entries@[i].unwrap().ppn;
                let idx = choose|idx: int| 0 <= idx < before.frames@.len() && before.frames@[idx] == p;
                assert(self.frames@[idx] == p);
            }
            assert forall|i: int, l: int|
                0 <= i < PT_ENTRIES && 0 <= l < PT_ENTRIES && self.entries@[i].is_some() && (
                #[trigger] self.entries@[i].unwrap().entries@[l]).is_some()
                    implies self.frames@.contains(
                self.entries@[i].unwrap().entries@[l].unwrap().ppn,
            ) by {
                if i == k && l == i1 {
                } else {
                    let p = before.entries@[i].unwrap().entries@[l].unwrap().ppn;
                    assert(before.frames@.contains(p));
                    let idx = choose|idx: int|
                        0 <= idx < before.frames@.len() && before.frames@[idx] == p;
                    assert(self.frames@[idx] == p);
                }
            }
        }
    }

    pub(crate) fn set_entry(&mut self, vpn: usize, entry: PageTableEntry)
        requires
            old(self).wf(),
            old(self).walkable(vpn),
            !entry.flags.v ==> entry == PageTableEntry::empty_spec(),
        ensures
            final(self).wf(),
            final(self).pte(vpn) == entry,
            forall|v: usize| v != vpn ==> final(self).pte(v) == old(self).pte(v),
            final(self).frames() == old(self).frames(),
            final(self).root_ppn() == old(self).root_ppn(),
            forall|k: int| final(self).has_mid(k) == old(self).has_mid(k),
            forall|j: int| final(self).has_leaf(j) == old(self).has_leaf(j),
    {
        let ghost before = *self;
        let i2: usize = vpn / 262144;
        let i1: usize = (vpn / 512) % 512;
        let i0: usize = vpn % 512;
        assert(vpn as int / 512 / 512 == vpn as int / 262144);
        assert(before.entries@[i2 as int].unwrap().wf());
        assert(before.entries@[i2 as int].unwrap().entries@[i1 as int].unwrap().wf());
        match &mut self.entries[i2] {
            Some(mid) => {
                match &mut mid.entries[i1] {
                    Some(leaf) => {
                        leaf.entries[i0] = entry;
                    },
                    None => {},
                }
            },
            None => {},
        }
        proof {
            let old_mid = before.entries@[i2 as int].unwrap();
            let new_mid = self.entries@[i2 as int].unwrap();
            let old_leaf = old_mid.entries@[i1 as int].unwrap();
            let new_leaf = new_mid.entries@[i1 as int].unwrap();
            assert(new_leaf.entries@ == old_leaf.entries@.update(i0 as int, entry));
            assert(new_leaf.ppn == old_leaf.ppn);
            assert(new_mid.ppn == old_mid.ppn);
            assert forall|j: int| self.has_leaf(j) == before.has_leaf(j) by {}
            assert forall|v: usize| v != vpn implies self.pte(v) == before.pte(v) by {
                assert(v as int / 512 / 512 == v as int / 262144);
            }
            assert forall|i: int|
                0 <= i < PT_ENTRIES && (#[trigger] self.entries@[i]).is_some()
                    implies self.entries@[i].unwrap().wf() by {
                if i != i2 {
                    assert(before.entries@[i].unwrap().wf());
                } else {
                    assert forall|l: int|
                        0 <= l < PT_ENTRIES && (#[trigger] new_mid.entries@[l]).is_some()
                            implies new_mid.entries@[l].unwrap().wf() by {
                        if l != i1 {
                            assert(old_mid.entries@[l].unwrap().wf());
                        }
                    }
                }
            }
            assert forall|i: int|
                0 <= i < PT_ENTRIES && (#[trigger] self.entries@[i]).is_some()
                    implies self.frames@.contains(self.entries@[i].unwrap().ppn) by {
                assert(before.frames@.contains(before.entries@[i].unwrap().ppn));
            }
            assert forall|i: int, l: int|
                0 <= i < PT_ENTRIES && 0 <= l < PT_ENTRIES && self.entries@[i].is_some() && (
                #[trigger] self.entries@[i].unwrap().entries@[l]).is_some()
                    implies self.frames@.contains(
                self.entries@[i].unwrap().entries@[l].unwrap().ppn,
            ) by {
                assert(before.frames@.contains(
                    before.entries@[i].unwrap().entries@[l].unwrap().ppn,
                ));
            }
        }
    }

    /// Maps `vpn` to frame `ppn`: walks the three levels, creates the nodes
    /// that are missing, and sets the leaf entry to `flags` with Valid set.
    /// On any error nothing changes.
    pub fn map(&mut self, vpn: usize, ppn: usize, flags: PTEFlags, frames: &mut FrameAllocator) -> (r:
        Result<(), MapError>)
        requires
            old(self).wf(),
            old(frames).wf(),
            old(self).frames_allocated(*old(frames)),
        ensures
            final(self).wf(),
            final(frames).wf(),
            final(self).frames_allocated(*final(frames)),
            r.is_err() ==> *final(self) == *old(self) && *final(frames) == *old(frames),
            match r {
                Ok(()) => {
                    &&& vpn < VPN_LIMIT
                    &&& !old(self).mapped(vpn)
                    &&& old(frames).free_count_spec() >= old(self).missing_for(vpn)
                    &&& final(self).pte(vpn) == (PageTableEntry { ppn, flags: flags.with_valid() })
                    &&& forall|v: usize| v != vpn ==> final(self).pte(v) == old(self).pte(v)
                    &&& final(self).root_ppn() == old(self).root_ppn()
                    &&& final(self).frames().len() == old(self).frames().len() + old(self).missing_for(vpn)
                    &&& final(self).frames().take(old(self).frames().len() as int) == old(self).frames()
                    &&& final(frames).after_taking(
                        *old(frames),
                        final(self).frames().skip(old(self).frames().len() as int),
                    )
                },
                Err(MapError::OutOfRange) => vpn >= VPN_LIMIT,
                Err(MapError::AlreadyMapped) => vpn < VPN_LIMIT && old(self).mapped(vpn),
                Err(MapError::OutOfFrames) => {
                    &&& vpn < VPN_LIMIT
                    &&& !old(self).mapped(vpn)
                    &&& old(frames).free_count_spec() < old(self).missing_for(vpn)
                },
            },
    {
        let ghost before = *self;
        let ghost frames_before = *frames;
        if vpn >= VPN_LIMIT {
            return Err(MapError::OutOfRange);
        }
        if self.is_mapped(vpn) {
            return Err(MapError::AlreadyMapped);
        }
        let k: usize = vpn / 262144;
        let j: usize = vpn / 512;
        assert(vpn as int / 512 / 512 == vpn as int / 262144);
        let missing: usize = self.count_missing_for(vpn);
        if frames.free_count() < missing {
            return Err(MapError::OutOfFrames);
        }
        proof {
            self.lemma_wf();
        }
        self.ensure_mid(k, frames);
        let ghost mid = *self;
        let ghost frames_mid = *frames;
        proof {
            mid.lemma_grown_allocated(before, frames_mid, frames_before);
        }
        self.ensure_leaf(j, frames);
        proof {
            self.lemma_grown_trans(mid, before, *frames, frames_mid, frames_before);
            self.lemma_grown_allocated(before, *frames, frames_before);
        }
        let ghost grown = *self;
        self.set_entry(vpn, PageTableEntry { ppn, flags: PTEFlags { v: true, ..flags } });
        Ok(())
    }

    /// How many nodes a walk for `vpn` would have to create.
    pub fn count_missing_for(&self, vpn: usize) -> (n: usize)
        requires
            self.wf(),
            vpn < VPN_LIMIT,
        ensures
            n == self.missing_for(vpn),
    {
        let k: usize = vpn / 262144;
        let i1: usize = (vpn / 512) % 512;
        assert(vpn as int / 512 / 512 == vpn as int / 262144);
        match &self.entries[k] {
            None => 2,
            Some(mid) => {
                assert(mid.wf());
                if mid.entries[i1].is_some() {
                    0
                } else {
                    1
                }
            },
        }
    }

    /// Clears the leaf entry for `vpn`. Returns `false`, and changes nothing,
    /// exactly when the entry is not valid. Nodes are never given back.
    pub fn unmap(&mut self, vpn: usize) -> (r: bool)
        requires
            old(self).wf(),
        ensures
            final(self).wf(),
            r == old(self).mapped(vpn),
            !r ==> *final(self) == *old(self),
            final(self).pte(vpn) == PageTableEntry::empty_spec(),
            forall|v: usize| v != vpn ==> final(self).pte(v) == old(self).pte(v),
            final(self).frames() == old(self).frames(),
            final(self).root_ppn() == old(self).root_ppn(),
            forall|k: int| final(self).has_mid(k) == old(self).has_mid(k),
            forall|j: int| final(self).has_leaf(j) == old(self).has_leaf(j),
    {
        proof {
            self.lemma_wf();
        }
        if !self.is_mapped(vpn) {
            return false;
        }
        self.set_entry(vpn, PageTableEntry::empty());
        true
    }

    /// How many second-level nodes with index in `[lo, hi)` are missing.
    pub open spec fn missing_mids(&self, lo: int, hi: int) -> int
        decreases hi - lo,
    {
        if lo >= hi {
            0
        } else {
            self.missing_mids(lo, hi - 1) + (if self.has_mid(hi - 1) {
                0int
            } else {
                1int
            })
        }
    }

    /// How many last-level nodes with number in `[lo, hi)` are missing.
    pub open spec fn missing_leaves(&self, lo: int, hi: int) -> int
        decreases hi - lo,
    {
        if lo >= hi {
            0
        } else {
            self.missing_leaves(lo, hi - 1) + (if self.has_leaf(hi - 1) {
                0int
            } else {
                1int
            })
        }
    }

    /// The nodes of the table.
    pub open spec fn nodes(&self) -> Nodes {
        Nodes {
            mids: Set::new(|k: int| self.has_mid(k)),
            leaves: Set::new(|j: int| self.has_leaf(j)),
        }
    }

    /// The second-level nodes that are missing are those that are not
    /// among the nodes of the table, and so for the last-level nodes.
    pub proof fn lemma_missing_in(&self, lo: int, hi: int)
        ensures
            self.missing_mids(lo, hi) == missing_in(self.nodes().mids, lo, hi),
            self.missing_leaves(lo, hi) == missing_in(self.nodes().leaves, lo, hi),
        decreases hi - lo,
    {
        if lo < hi {
            self.lemma_missing_in(lo, hi - 1);
        }
    }

    /// What is missing from the table is what is missing from its nodes.
    pub proof fn lemma_missing_nodes(&self, start: usize, end: usize)
        ensures
            self.missing_tables(start, end) == self.nodes().missing(start, end),
    {
        if start < end {
            self.lemma_missing_in(mid_index(start), mid_index((end - 1) as usize) + 1);
            self.lemma_missing_in(leaf_index(start), leaf_index((end - 1) as usize) + 1);
        }
    }

    /// How many nodes have to be created before every page of
    /// `[start, end)` can be walked to a leaf entry.
    pub open spec fn missing_tables(&self, start: usize, end: usize) -> int {
        if start >= end {
            0
        } else {
            self.missing_mids(mid_index(start), mid_index((end - 1) as usize) + 1)
                + self.missing_leaves(leaf_index(start), leaf_index((end - 1) as usize) + 1)
        }
    }

    /// The counts grow with the range, from zero.
    pub proof fn lemma_missing_monotonic(&self, lo: int, mid: int, hi: int)
        requires
            lo <= mid <= hi,
        ensures
            0 <= self.missing_mids(lo, mid) <= self.missing_mids(lo, hi),
            0 <= self.missing_leaves(lo, mid) <= self.missing_leaves(lo, hi),
        decreases hi - lo,
    {
        if mid < hi {
            self.lemma_missing_monotonic(lo, mid, hi - 1);
        } else if lo < mid {
            self.lemma_missing_monotonic(lo, mid - 1, hi - 1);
        }
    }

    /// No more nodes can be missing than there are.
    pub proof fn lemma_missing_bound(&self, start: usize, end: usize)
        requires
            start <= end <= VPN_LIMIT,
        ensures
            0 <= self.missing_tables(start, end) <= PT_ENTRIES + PT_ENTRIES * PT_ENTRIES,
    {
        if start < end {
            self.lemma_missing_count(mid_index(start), mid_index((end - 1) as usize) + 1);
            self.lemma_missing_count(leaf_index(start), leaf_index((end - 1) as usize) + 1);
        }
    }

    /// No more nodes are missing in a range of numbers than the range
    /// holds.
    pub proof fn lemma_missing_count(&self, lo: int, hi: int)
        requires
            lo <= hi,
        ensures
            0 <= self.missing_mids(lo, hi) <= hi - lo,
            0 <= self.missing_leaves(lo, hi) <= hi - lo,
        decreases hi - lo,
    {
        if lo < hi {
            self.lemma_missing_count(lo, hi - 1);
        }
    }

    /// Where every page of a range can be walked, no node is missing for
    /// it.
    pub proof fn lemma_missing_none(&self, start: usize, end: usize)
        requires
            self.wf(),
            start <= end <= VPN_LIMIT,
            forall|vpn: usize| start <= vpn < end ==> #[trigger] self.walkable(vpn),
        ensures
            self.missing_tables(start, end) == 0,
    {
        if start < end {
            self.lemma_wf();
            let lo = leaf_index(start);
            let hi = leaf_index((end - 1) as usize) + 1;
            assert forall|j: int| lo <= j < hi implies self.has_leaf(j) by {
                let vpn: usize = if j == lo {
                    start
                } else {
                    (j * 512) as usize
                };
                assert(start <= vpn < end);
                assert(leaf_index(vpn) == j);
                assert(self.walkable(vpn));
            }
            self.lemma_none_missing_leaves(lo, hi);
            let klo = mid_index(start);
            let khi = mid_index((end - 1) as usize) + 1;
            assert forall|k: int| klo <= k < khi implies self.has_mid(k) by {
                let vpn: usize = if k == klo {
                    start
                } else {
                    (k * 262144) as usize
                };
                assert(start <= vpn < end);
                assert(mid_index(vpn) == k);
                assert(self.walkable(vpn));
                assert(self.has_leaf(leaf_index(vpn)));
                assert(leaf_index(vpn) / 512 == k);
            }
            self.lemma_none_missing_mids(klo, khi);
        }
    }

    proof fn lemma_none_missing_leaves(&self, lo: int, hi: int)
        requires
            forall|j: int| lo <= j < hi ==> self.has_leaf(j),
        ensures
            self.missing_leaves(lo, hi) == 0,
        decreases hi - lo,
    {
        if lo < hi {
            self.lemma_none_missing_leaves(lo, hi - 1);
        }
    }

    proof fn lemma_none_missing_mids(&self, lo: int, hi: int)
        requires
            forall|k: int| lo <= k < hi ==> self.has_mid(k),
        ensures
            self.missing_mids(lo, hi) == 0,
        decreases hi - lo,
    {
        if lo < hi {
            self.lemma_none_missing_mids(lo, hi - 1);
        }
    }

    /// Computes `missing_tables`.
    pub fn count_missing_tables(&self, start: usize, end: usize) -> (n: usize)
        requires
            self.wf(),
            start <= end <= VPN_LIMIT,
        ensures
            n == self.missing_tables(start, end),
    {
        if start >= end {
            return 0;
        }
        let k_lo: usize = start / 262144;
        let k_hi: usize = (end - 1) / 262144 + 1;
        let j_lo: usize = start / 512;
        let j_hi: usize = (end - 1) / 512 + 1;
        let mut n: usize = 0;
        let mut k: usize = k_lo;
        while k < k_hi
            invariant
                self.wf(),
                k_lo <= k <= k_hi <= PT_ENTRIES,
                n == self.missing_mids(k_lo as int, k as int),
                n <= k - k_lo,
            decreases k_hi - k,
        {
            if self.entries[k].is_none() {
                n = n + 1;
            }
            k = k + 1;
        }
        let mut j: usize = j_lo;
        let ghost mids = n;
        while j < j_hi
            invariant
                self.wf(),
                j_lo <= j <= j_hi <= PT_ENTRIES * PT_ENTRIES,
                n == mids + self.missing_leaves(j_lo as int, j as int),
                mids <= PT_ENTRIES,
                n <= mids + j - j_lo,
            decreases j_hi - j,
        {
            let present: bool = match &self.entries[j / 512] {
                Some(mid) => {
                    assert(mid.wf());
                    mid.entries[j % 512].is_some()
                },
                None => false,
            };
            if !present {
                n = n + 1;
            }
            j = j + 1;
        }
        n
    }

    /// Creates the nodes that are missing for the pages of `[start, end)`,
    /// so that each of them can be walked to a leaf entry. No leaf entry
    /// changes.
    pub fn ensure_tables(&mut self, start: usize, end: usize, frames: &mut FrameAllocator)
        requires
            old(self).wf(),
            old(frames).wf(),
            old(self).frames_allocated(*old(frames)),
            start <= end <= VPN_LIMIT,
            old(frames).free_count_spec() >= old(self).missing_tables(start, end),
        ensures
            final(self).wf(),
            final(frames).wf(),
            final(self).frames_allocated(*final(frames)),
            final(self).grown_from(*old(self), *final(frames), *old(frames)),
            final(self).frames().len() == old(self).frames().len() + old(self).missing_tables(
                start,
                end,
            ),
            forall|vpn: usize| start <= vpn < end ==> #[trigger] final(self).walkable(vpn),
            final(self).nodes() == old(self).nodes().with_span(start, end),
    {
        let ghost before = *self;
        let ghost frames_before = *frames;
        proof {
            self.lemma_grown_refl(*frames);
        }
        if start >= end {
            assert(self.nodes() =~~= before.nodes().with_span(start, end));
            return ;
        }
        let k_lo: usize = start / 262144;
        let k_hi: usize = (end - 1) / 262144 + 1;
        let j_lo: usize = start / 512;
        let j_hi: usize = (end - 1) / 512 + 1;
        proof {
            before.lemma_missing_monotonic(j_lo as int, j_lo as int, j_hi as int);
        }
        let mut k: usize = k_lo;
        while k < k_hi
            invariant
                before.wf(),
                frames_before.wf(),
                before.frames_allocated(frames_before),
                self.wf(),
                frames.wf(),
                self.frames_allocated(*frames),
                self.grown_from(before, *frames, frames_before),
                k_lo <= k <= k_hi <= PT_ENTRIES,
                self.frames().len() == before.frames().len() + before.missing_mids(
                    k_lo as int,
                    k as int,
                ),
                forall|i: int| k_lo <= i < k ==> self.has_mid(i),
                forall|i: int| !(k_lo <= i < k) ==> self.has_mid(i) == before.has_mid(i),
                forall|i: int| self.has_leaf(i) == before.has_leaf(i),
                frames_before.free_count_spec() >= before.missing_mids(k_lo as int, k_hi as int),
            decreases k_hi - k,
        {
            let ghost prev = *self;
            let ghost frames_prev = *frames;
            proof {
                before.lemma_missing_monotonic(k_lo as int, k as int + 1, k_hi as int);
            }
            self.ensure_mid(k, frames);
            proof {
                self.lemma_grown_trans(prev, before, *frames, frames_prev, frames_before);
                self.lemma_grown_allocated(before, *frames, frames_before);
            }
            k = k + 1;
        }
        let ghost mids = before.missing_mids(k_lo as int, k_hi as int);
        let mut j: usize = j_lo;
        while j < j_hi
            invariant
                before.wf(),
                frames_before.wf(),
                before.frames_allocated(frames_before),
                self.wf(),
                frames.wf(),
                self.frames_allocated(*frames),
                self.grown_from(before, *frames, frames_before),
                j_lo <= j <= j_hi <= PT_ENTRIES * PT_ENTRIES,
                k_lo == j_lo / 512,
                k_hi == (j_hi - 1) / 512 + 1,
                self.frames().len() == before.frames().len() + mids + before.missing_leaves(
                    j_lo as int,
                    j as int,
                ),
                forall|i: int| k_lo <= i < k_hi ==> self.has_mid(i),
                forall|i: int| !(k_lo <= i < k_hi) ==> self.has_mid(i) == before.has_mid(i),
                forall|i: int| j_lo <= i < j ==> self.has_leaf(i),
                forall|i: int| !(j_lo <= i < j) ==> self.has_leaf(i) == before.has_leaf(i),
                frames_before.free_count_spec() >= mids + before.missing_leaves(
                    j_lo as int,
                    j_hi as int,
                ),
            decreases j_hi - j,
        {
            let ghost prev = *self;
            let ghost frames_prev = *frames;
            proof {
                before.lemma_missing_monotonic(j_lo as int, j as int + 1, j_hi as int);
            }
            self.ensure_leaf(j, frames);
            proof {
                self.lemma_grown_trans(prev, before, *frames, frames_prev, frames_before);
                self.lemma_grown_allocated(before, *frames, frames_before);
            }
            j = j + 1;
        }
        proof {
            assert(self.nodes() =~~= before.nodes().with_span(start, end));
        }
    }

    /// Gives up the table: hands the frames of all its nodes back to the
    /// allocator, the root first.
    pub fn release(self, frames: &mut FrameAllocator)
        requires
            self.wf(),
            old(frames).wf(),
            self.frames_allocated(*old(frames)),
        ensures
            final(frames).wf(),
            final(frames).base() == old(frames).base(),
            final(frames).end() == old(frames).end(),
            final(frames).current() == old(frames).current(),
            final(frames).recycled() == old(frames).recycled() + self.frames(),
            final(frames).free_count_spec() == old(frames).free_count_spec() + self.frames().len(),
            forall|p: usize|
                #[trigger] final(frames).is_free(p) <==> old(frames).is_free(p)
                    || self.frames().contains(p),
            forall|p: usize|
                old(frames).in_range(p) ==> #[trigger] final(frames).page(p) == old(frames).page(p),
    {
        frames.dealloc_all(&self.frames);
    }

    /// The value that identifies this table to the memory-management unit:
    /// the frame number of its root.
    pub fn token(&self) -> (t: usize)
        ensures
            t == self.root_ppn(),
    {
        self.root_ppn
    }

    /// The leaf entry for `vpn`, if the walk reaches one; it need not be
    /// valid.
    pub fn find_pte(&self, vpn: usize) -> (r: Option<&PageTableEntry>)
        requires
            self.wf(),
        ensures
            r.is_some() <==> self.walkable(vpn),
            r.is_some() ==> *r.unwrap() == self.pte(vpn),
    {
        if vpn >= VPN_LIMIT {
            return None;
        }
        let i2: usize = vpn / 262144;
        let i1: usize = (vpn / 512) % 512;
        let i0: usize = vpn % 512;
        assert(vpn as int / 512 / 512 == vpn as int / 262144);
        match &self.entries[i2] {
            None => None,
            Some(mid) => {
                assert(mid.wf());
                match &mid.entries[i1] {
                    None => None,
                    Some(leaf) => {
                        assert(leaf.wf());
                        Some(&leaf.entries[i0])
                    },
                }
            },
        }
    }

    /// The leaf entry for `vpn` by value, if the walk reaches one.
    pub fn translate(&self, vpn: usize) -> (r: Option<PageTableEntry>)
        requires
            self.wf(),
        ensures
            r.is_some() <==> self.walkable(vpn),
            r.is_some() ==> r.unwrap() == self.pte(vpn),
    {
        match self.find_pte(vpn) {
            None => None,
            Some(e) => Some(*e),
        }
    }

    /// Whether `vpn` has a valid leaf entry.
    pub fn is_mapped(&self, vpn: usize) -> (b: bool)
        requires
            self.wf(),
        ensures
            b == self.mapped(vpn),
    {
        proof {
            self.lemma_wf();
        }
        match self.find_pte(vpn) {
            None => false,
            Some(e) => e.flags.v,
        }
    }
}

} // verus!

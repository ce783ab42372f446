//! Address spaces: an ordered list of map areas over a page table.

use vstd::prelude::*;
use crate::config::{PAGE_SIZE, TRAP_CONTEXT_VPN, USER_STACK_PAGES, VPN_LIMIT};
use crate::loader::AppImage;
use crate::mm::frame_allocator::{zero_page, FrameAllocator};
use crate::mm::page_table::{NodeMap, Nodes, PTEFlags, PageTable, PageTableEntry};

verus! {

/// The page that holds the address `va`.
pub open spec fn va_floor(va: usize) -> usize {
    (va / PAGE_SIZE) as usize
}

/// The first page that starts at or after the address `va`.
pub open spec fn va_ceil(va: usize) -> usize {
    ((va + PAGE_SIZE - 1) / PAGE_SIZE as int) as usize
}

/// The page that holds the address `va`.
pub fn floor_page(va: usize) -> (vpn: usize)
    ensures
        vpn == va_floor(va),
{
    va / PAGE_SIZE
}

/// The first page that starts at or after the address `va`.
pub fn ceil_page(va: usize) -> (vpn: usize)
    ensures
        vpn == va_ceil(va),
{
    if va % PAGE_SIZE == 0 {
        va / PAGE_SIZE
    } else {
        va / PAGE_SIZE + 1
    }
}

/// The first page above the segments of an image.
fn ceil_top(image: &AppImage) -> (top: usize)
    ensures
        top == image.top_of(image.segments@.len() as int),
{
    let n: usize = image.segments.len();
    if n == 0 {
        0
    } else {
        ceil_page(image.segments[n - 1].end_va)
    }
}

/// The index of the first area of a list, at or after `from`, that spans
/// exactly `[start_vpn, end_vpn)`.
pub open spec fn range_at(areas: Seq<MapArea>, start_vpn: usize, end_vpn: usize, from: int) -> Option<int>
    decreases areas.len() - from,
{
    if from < 0 || from >= areas.len() {
        None
    } else if areas[from].start() == start_vpn && areas[from].end() == end_vpn {
        Some(from)
    } else {
        range_at(areas, start_vpn, end_vpn, from + 1)
    }
}

/// A list of areas without the first framed area that is the one page
/// `vpn`, if there is one.
pub open spec fn areas_without_page(areas: Seq<MapArea>, vpn: usize) -> Seq<MapArea> {
    match range_at(areas, vpn, (vpn + 1) as usize, 0) {
        Some(i) => if areas[i].map_type() is Framed {
            areas.remove(i)
        } else {
            areas
        },
        None => areas,
    }
}

/// A list of areas without the one-page areas of the pages `[lo, hi)`,
/// taken out from the highest page down.
pub open spec fn areas_shrunk(areas: Seq<MapArea>, lo: usize, hi: usize) -> Seq<MapArea>
    decreases hi - lo,
{
    if hi <= lo {
        areas
    } else {
        areas_shrunk(areas_without_page(areas, (hi - 1) as usize), lo, (hi - 1) as usize)
    }
}

/// A piece of a user buffer that lies in one frame.
#[derive(Clone, Copy, Debug)]
pub struct UserSlice {
    /// The frame.
    pub ppn: usize,
    /// Where the piece starts in the frame.
    pub offset: usize,
    /// The length of the piece, in bytes.
    pub len: usize,
}

/// What a mapping allows.
#[derive(Clone, Copy, Debug)]
pub struct MapPermission {
    /// Readable.
    pub r: bool,
    /// Writable.
    pub w: bool,
    /// Executable.
    pub x: bool,
    /// Accessible from user mode.
    pub u: bool,
}

impl MapPermission {
    /// The flags of a valid leaf entry with these permissions.
    pub open spec fn pte_flags(self) -> PTEFlags {
        PTEFlags { v: true, r: self.r, w: self.w, x: self.x, u: self.u, a: false, d: false }
    }

    /// The same permissions with user access added.
    pub open spec fn with_user(self) -> Self {
        MapPermission { u: true, ..self }
    }
}

/// How the pages of an area find their frames.
#[derive(Clone, Copy, Debug)]
pub enum MapType {
    /// Page `n` is frame `n`; the area owns no frame.
    Identical,
    /// Every page has a frame of its own, taken from the allocator.
    Framed,
}

/// A half-open range of virtual pages with one permission set.
pub struct MapArea {
    start_vpn: usize,
    end_vpn: usize,
    data_frames: Vec<usize>,
    map_type: MapType,
    map_perm: MapPermission,
}

impl MapArea {
    /// First page of the area.
    pub closed spec fn start(&self) -> usize {
        self.start_vpn
    }

    /// One past the last page of the area.
    pub closed spec fn end(&self) -> usize {
        self.end_vpn
    }

    /// The frames the area owns: for a framed area one per page, in page
    /// order; none for an identical area.
    pub closed spec fn frames(&self) -> Seq<usize> {
        self.data_frames@
    }

    /// How the area is mapped.
    pub closed spec fn map_type(&self) -> MapType {
        self.map_type
    }

    /// The permissions of the area.
    pub closed spec fn perm(&self) -> MapPermission {
        self.map_perm
    }

    /// Whether `vpn` lies in the area.
    pub open spec fn contains(&self, vpn: usize) -> bool {
        self.start() <= vpn < self.end()
    }

    /// The frame that backs page `vpn` of the area.
    pub open spec fn ppn_of(&self, vpn: usize) -> usize {
        match self.map_type() {
            MapType::Framed => self.frames()[vpn - self.start()],
            MapType::Identical => vpn,
        }
    }

    /// The leaf entry that page `vpn` of the area has.
    pub open spec fn pte_of(&self, vpn: usize) -> PageTableEntry {
        PageTableEntry { ppn: self.ppn_of(vpn), flags: self.perm().pte_flags() }
    }

    /// Whether two areas have the same bounds, kind and permissions.
    pub open spec fn same_shape(&self, other: Self) -> bool {
        &&& self.start() == other.start()
        &&& self.end() == other.end()
        &&& self.map_type() == other.map_type()
        &&& self.perm() == other.perm()
    }

    /// Well-formedness: the range is in bounds, a framed area has one frame
    /// per page, and an identical area is closed to user mode.
    pub open spec fn wf(&self) -> bool {
        &&& self.start() <= self.end() <= VPN_LIMIT
        &&& self.map_type() is Framed ==> self.frames().len() == self.end() - self.start()
        &&& self.map_type() is Identical ==> self.frames().len() == 0 && !self.perm().u
    }

    /// The frames the area owns, in page order.
    pub fn data_frames(&self) -> (f: &Vec<usize>)
        ensures
            f@ == self.frames(),
    {
        &self.data_frames
    }

    /// First page of the area.
    pub fn start_vpn(&self) -> (v: usize)
        ensures
            v == self.start(),
    {
        self.start_vpn
    }

    /// One past the last page of the area.
    pub fn end_vpn(&self) -> (v: usize)
        ensures
            v == self.end(),
    {
        self.end_vpn
    }

    /// The permissions of the area.
    pub fn map_perm(&self) -> (p: MapPermission)
        ensures
            p == self.perm(),
    {
        self.map_perm
    }
}

/// An address space.
pub struct MemorySet {
    page_table: PageTable,
    areas: Vec<MapArea>,
}

impl MemorySet {
    /// The page table of the address space.
    pub closed spec fn page_table(&self) -> PageTable {
        self.page_table
    }

    /// The map areas, in order of insertion.
    pub closed spec fn areas(&self) -> Seq<MapArea> {
        self.areas@
    }

    /// Whether some area contains `vpn`.
    pub open spec fn in_some_area(&self, vpn: usize) -> bool {
        exists|i: int| 0 <= i < self.areas().len() && (#[trigger] self.areas()[i]).contains(vpn)
    }

    /// Whether `ppn` backs a page of a framed area.
    pub open spec fn owns_data(&self, ppn: usize) -> bool {
        exists|i: int, a: int|
            0 <= i < self.areas().len() && 0 <= a < self.areas()[i].frames().len()
                && #[trigger] self.areas()[i].frames()[a] == ppn
    }

    /// Whether `ppn` belongs to this address space, as a page-table node or
    /// as the frame of a page.
    pub open spec fn owns(&self, ppn: usize) -> bool {
        self.page_table().frames().contains(ppn) || self.owns_data(ppn)
    }

    /// No page lies in two areas.
    pub open spec fn areas_disjoint(&self) -> bool {
        forall|i: int, j: int, vpn: usize|
            0 <= i < self.areas().len() && 0 <= j < self.areas().len() && i != j && (
            #[trigger] self.areas()[i].contains(vpn)) ==> !(#[trigger] self.areas()[j].contains(
                vpn,
            ))
    }

    /// Every page of every area has the leaf entry of its area.
    pub open spec fn ptes_agree(&self) -> bool {
        forall|i: int, vpn: usize|
            0 <= i < self.areas().len() && (#[trigger] self.areas()[i].contains(vpn))
                ==> self.page_table().pte(vpn) == self.areas()[i].pte_of(vpn)
    }

    /// Every valid leaf entry lies in an area.
    pub open spec fn ptes_covered(&self) -> bool {
        forall|vpn: usize| #[trigger] self.page_table().mapped(vpn) ==> self.in_some_area(vpn)
    }

    /// No frame backs two pages, and no frame of a page is a page-table node.
    pub open spec fn frames_distinct(&self) -> bool {
        &&& forall|i: int, a: int, j: int, b: int|
            0 <= i < self.areas().len() && 0 <= a < self.areas()[i].frames().len() && 0 <= j
                < self.areas().len() && 0 <= b < self.areas()[j].frames().len() && (i != j || a
                != b) ==> #[trigger] self.areas()[i].frames()[a]
                != #[trigger] self.areas()[j].frames()[b]
        &&& forall|i: int, a: int|
            0 <= i < self.areas().len() && 0 <= a < self.areas()[i].frames().len()
                ==> !self.page_table().frames().contains(#[trigger] self.areas()[i].frames()[a])
    }

    /// Well-formedness of an address space: the page table and the areas
    /// are well-formed, no page lies in two areas, the leaf entries are
    /// those of the areas, and no frame is used twice.
    pub closed spec fn wf(&self) -> bool {
        &&& self.page_table().wf()
        &&& forall|i: int| 0 <= i < self.areas().len() ==> (#[trigger] self.areas()[i]).wf()
        &&& self.areas_disjoint()
        &&& self.ptes_agree()
        &&& self.ptes_covered()
        &&& self.frames_distinct()
    }

    /// What well-formedness says.
    pub proof fn lemma_wf(&self)
        requires
            self.wf(),
        ensures
            self.page_table().wf(),
            forall|i: int| 0 <= i < self.areas().len() ==> (#[trigger] self.areas()[i]).wf(),
            self.areas_disjoint(),
            self.ptes_agree(),
            self.ptes_covered(),
            self.frames_distinct(),
    {
    }

    /// Whether every frame of the address space is handed out by the
    /// allocator.
    pub open spec fn frames_allocated(&self, frames: FrameAllocator) -> bool {
        forall|ppn: usize| #[trigger] self.owns(ppn) ==> frames.is_allocated(ppn)
    }

    /// An address space with an empty page table and no area. `None`
    /// exactly when no frame is free for the root node.
    pub fn new_bare(frames: &mut FrameAllocator) -> (r: Option<Self>)
        requires
            old(frames).wf(),
        ensures
            final(frames).wf(),
            r.is_none() <==> old(frames).free_count_spec() == 0,
            r.is_none() ==> *final(frames) == *old(frames),
            r.is_some() ==> {
                let ms = r.unwrap();
                &&& ms.wf()
                &&& ms.frames_allocated(*final(frames))
                &&& ms.areas().len() == 0
                &&& final(frames).after_taking(*old(frames), ms.page_table().frames())
                &&& ms.page_table().frames().len() == 1
                &&& ms.born_from(*final(frames), *old(frames))
                &&& forall|vpn: usize| !(#[trigger] ms.page_table().mapped(vpn))
                &&& ms.page_table().nodes() == Nodes::none()
            },
    {
        let ghost frames_before = *frames;
        match PageTable::new(frames) {
            None => None,
            Some(pt) => {
                let ms = MemorySet { page_table: pt, areas: Vec::new() };
                proof {
                    assert(pt.nodes() =~~= Nodes::none());
                    frames_before.lemma_wf();
                    assert forall|ppn: usize| #[trigger] ms.owns(ppn) implies frames.is_allocated(
                        ppn,
                    ) by {
                        let i = choose|i: int|
                            0 <= i < pt.frames().len() && pt.frames()[i] == ppn;
                        assert(frames_before.is_free(pt.frames()[i]));
                    }
                    assert forall|p: usize| !ms.owns_data(p) by {
                        if ms.owns_data(p) {
                            let (i, a) = choose|i: int, a: int|
                                0 <= i < ms.areas().len() && 0 <= a < ms.areas()[i].frames().len()
                                    && #[trigger] ms.areas()[i].frames()[a] == p;
                        }
                    }
                    assert forall|p: usize|
                        #![trigger ms.owns(p)]
                        #![trigger frames.is_free(p)]
                        #![trigger frames_before.is_free(p)]
                        (ms.owns(p) || frames.is_free(p)) <==> frames_before.is_free(p) by {
                        if pt.frames().contains(p) {
                            let i = choose|i: int|
                                0 <= i < pt.frames().len() && pt.frames()[i] == p;
                            assert(frames_before.is_free(pt.frames()[i]));
                        }
                    }
                    assert forall|p: usize| frames_before.is_allocated(p) implies #[trigger] frames.page(
                        p,
                    ) == frames_before.page(p) by {
                        if pt.frames().contains(p) {
                            let i = choose|i: int|
                                0 <= i < pt.frames().len() && pt.frames()[i] == p;
                            assert(frames_before.is_free(pt.frames()[i]));
                        }
                    }
                }
                Some(ms)
            },
        }
    }

    /// How frames move between this address space and the allocator: a
    /// frame is owned or free afterwards exactly if it was owned or free
    /// before, and no frame that belongs to anyone else was written.
    pub open spec fn conserves(
        &self,
        before: Self,
        frames_after: FrameAllocator,
        frames_before: FrameAllocator,
    ) -> bool {
        &&& frames_after.base() == frames_before.base()
        &&& frames_after.end() == frames_before.end()
        &&& forall|p: usize|
            #![trigger self.owns(p)]
            #![trigger frames_after.is_free(p)]
            #![trigger before.owns(p)]
            #![trigger frames_before.is_free(p)]
            (self.owns(p) || frames_after.is_free(p)) <==> (before.owns(p)
                || frames_before.is_free(p))
        &&& forall|p: usize|
            frames_before.is_allocated(p) && !before.owns(p) ==> #[trigger] frames_after.page(p)
                == frames_before.page(p)
    }

    /// Conserving twice is conserving once.
    pub proof fn lemma_conserves_trans(
        &self,
        mid: Self,
        before: Self,
        frames_after: FrameAllocator,
        frames_mid: FrameAllocator,
        frames_before: FrameAllocator,
    )
        requires
            frames_before.wf(),
            frames_mid.wf(),
            mid.conserves(before, frames_mid, frames_before),
            self.conserves(mid, frames_after, frames_mid),
        ensures
            self.conserves(before, frames_after, frames_before),
    {
        frames_before.lemma_wf();
        frames_mid.lemma_wf();
        assert forall|p: usize|
            frames_before.is_allocated(p) && !before.owns(p) implies #[trigger] frames_after.page(p)
            == frames_before.page(p) by {
            assert(!mid.owns(p) && !frames_mid.is_free(p));
            assert(frames_mid.page(p) == frames_before.page(p));
        }
    }

    /// Nothing moved.
    pub proof fn lemma_conserves_refl(&self, frames: FrameAllocator)
        ensures
            self.conserves(*self, frames, frames),
    {
    }

    /// The frames of the page table are frames of the address space.
    pub proof fn lemma_tables_allocated(&self, frames: FrameAllocator)
        requires
            self.frames_allocated(frames),
        ensures
            self.page_table().frames_allocated(frames),
    {
        assert forall|i: int| 0 <= i < self.page_table().frames().len() implies frames.is_allocated(
            #[trigger] self.page_table().frames()[i],
        ) by {
            assert(self.page_table().frames().contains(self.page_table().frames()[i]));
            assert(self.owns(self.page_table().frames()[i]));
        }
    }

    /// Whether the address space was made of free frames: a frame is owned
    /// or free afterwards exactly if it was free before, and no frame that
    /// was handed out was written.
    pub open spec fn born_from(&self, frames_after: FrameAllocator, frames_before: FrameAllocator) -> bool {
        &&& frames_after.base() == frames_before.base()
        &&& frames_after.end() == frames_before.end()
        &&& forall|p: usize|
            #![trigger self.owns(p)]
            #![trigger frames_after.is_free(p)]
            #![trigger frames_before.is_free(p)]
            (self.owns(p) || frames_after.is_free(p)) <==> frames_before.is_free(p)
        &&& forall|p: usize|
            frames_before.is_allocated(p) ==> #[trigger] frames_after.page(p) == frames_before.page(
                p,
            )
    }

    /// An address space made of free frames stays so when it conserves
    /// frames.
    pub proof fn lemma_born_conserves(
        &self,
        mid: Self,
        frames_after: FrameAllocator,
        frames_mid: FrameAllocator,
        frames_before: FrameAllocator,
    )
        requires
            frames_before.wf(),
            frames_mid.wf(),
            mid.born_from(frames_mid, frames_before),
            self.conserves(mid, frames_after, frames_mid),
        ensures
            self.born_from(frames_after, frames_before),
    {
        frames_before.lemma_wf();
        frames_mid.lemma_wf();
        assert forall|p: usize| frames_before.is_allocated(p) implies #[trigger] frames_after.page(p)
            == frames_before.page(p) by {
            assert(!frames_before.is_free(p));
            assert(!mid.owns(p) && !frames_mid.is_free(p));
            assert(frames_mid.page(p) == frames_before.page(p));
        }
    }

    /// How many frames `insert_area` takes for the pages themselves.
    pub open spec fn data_need(start_vpn: usize, end_vpn: usize, map_type: MapType) -> int {
        if map_type is Framed {
            end_vpn - start_vpn
        } else {
            0
        }
    }

    /// Whether an area over `[start_vpn, end_vpn)` can be inserted: the
    /// range is in bounds, an identical area is closed to user mode, none of
    /// the pages has a valid leaf entry, and enough frames are free for the
    /// pages and for the page-table nodes that are missing.
    pub open spec fn can_insert(
        &self,
        start_vpn: usize,
        end_vpn: usize,
        map_type: MapType,
        perm: MapPermission,
        frames: FrameAllocator,
    ) -> bool {
        &&& start_vpn <= end_vpn <= VPN_LIMIT
        &&& map_type is Identical ==> !perm.u
        &&& forall|vpn: usize| start_vpn <= vpn < end_vpn ==> !self.page_table().mapped(vpn)
        &&& frames.free_count_spec() >= Self::data_need(start_vpn, end_vpn, map_type)
            + self.page_table().missing_tables(start_vpn, end_vpn)
    }

    /// Inserts an area over the pages `[start_vpn, end_vpn)` and maps each
    /// of them, a framed area to a fresh zeroed frame per page. Returns
    /// `false`, and changes nothing, exactly when `can_insert` does not hold.
    pub fn insert_area(
        &mut self,
        start_vpn: usize,
        end_vpn: usize,
        map_type: MapType,
        perm: MapPermission,
        frames: &mut FrameAllocator,
    ) -> (ok: bool)
        requires
            old(self).wf(),
            old(frames).wf(),
            old(self).frames_allocated(*old(frames)),
        ensures
            final(self).wf(),
            final(frames).wf(),
            final(self).frames_allocated(*final(frames)),
            ok == old(self).can_insert(start_vpn, end_vpn, map_type, perm, *old(frames)),
            !ok ==> *final(self) == *old(self) && *final(frames) == *old(frames),
            ok ==> {
                let area = final(self).areas().last();
                &&& final(self).areas() == old(self).areas().push(area)
                &&& area.start() == start_vpn
                &&& area.end() == end_vpn
                &&& area.map_type() == map_type
                &&& area.perm() == perm
                &&& final(self).conserves(*old(self), *final(frames), *old(frames))
                &&& final(frames).free_count_spec() == old(frames).free_count_spec()
                    - Self::data_need(start_vpn, end_vpn, map_type) - old(self).page_table().missing_tables(start_vpn, end_vpn)
                &&& forall|i: int|
                    0 <= i < area.frames().len() ==> final(frames).page(#[trigger] area.frames()[i])
                        == zero_page()
                &&& final(self).page_table().root_ppn() == old(self).page_table().root_ppn()
                &&& forall|p: usize|
                    old(frames).is_allocated(p) ==> #[trigger] final(frames).page(p) == old(frames).page(p)
                &&& forall|vpn: usize|
                    !(start_vpn <= vpn < end_vpn) ==> #[trigger] final(self).page_table().pte(vpn)
                        == old(self).page_table().pte(vpn)
                &&& forall|vpn: usize|
                    old(self).page_table().walkable(vpn) ==> #[trigger] final(self).page_table().walkable(vpn)
                &&& final(self).page_table().nodes() == old(self).page_table().nodes().with_span(start_vpn, end_vpn)
            },
    {
        let ghost before = *self;
        let ghost frames_before = *frames;
        if start_vpn > end_vpn || end_vpn > VPN_LIMIT {
            return false;
        }
        let mut probe: usize = start_vpn;
        while probe < end_vpn
            invariant
                self.wf(),
                *self == before,
                *frames == frames_before,
                frames.wf(),
                self.frames_allocated(*frames),
                start_vpn <= probe <= end_vpn,
                forall|vpn: usize| start_vpn <= vpn < probe ==> !self.page_table().mapped(vpn),
            decreases end_vpn - probe,
        {
            if self.page_table.is_mapped(probe) {
                return false;
            }
            probe = probe + 1;
        }
        let framed: bool = match map_type {
            MapType::Framed => true,
            MapType::Identical => false,
        };
        if !framed && perm.u {
            return false;
        }
        let need: usize = if framed {
            end_vpn - start_vpn
        } else {
            0
        };
        let missing: usize = self.page_table.count_missing_tables(start_vpn, end_vpn);
        proof {
            frames.lemma_wf();
            assert(missing <= 0x1000_0000) by {
                self.page_table.lemma_missing_bound(start_vpn, end_vpn);
            }
        }
        if frames.free_count() < need + missing {
            return false;
        }
        proof {
            before.lemma_tables_allocated(frames_before);
        }
        self.page_table.ensure_tables(start_vpn, end_vpn, frames);
        let ghost grown = self.page_table;
        let ghost frames_grown = *frames;
        let flags = PTEFlags { v: true, r: perm.r, w: perm.w, x: perm.x, u: perm.u, a: false, d: false };
        let mut data: Vec<usize> = Vec::new();
        let mut vpn: usize = start_vpn;
        proof {
            frames.lemma_take_none();
        }
        while vpn < end_vpn
            invariant
                start_vpn <= vpn <= end_vpn <= VPN_LIMIT,
                self.page_table.wf(),
                frames.wf(),
                frames_grown.wf(),
                self.areas == before.areas,
                flags == perm.pte_flags(),
                self.page_table.frames() == grown.frames(),
                self.page_table.root_ppn() == grown.root_ppn(),
                forall|j: int| self.page_table.has_leaf(j) == grown.has_leaf(j),
                forall|k: int| self.page_table.has_mid(k) == grown.has_mid(k),
                forall|v: usize| start_vpn <= v < end_vpn ==> #[trigger] self.page_table.walkable(v),
                forall|v: usize|
                    start_vpn <= v < vpn ==> #[trigger] self.page_table.pte(v) == (PageTableEntry {
                        ppn: if framed {
                            data@[v - start_vpn]
                        } else {
                            v
                        },
                        flags,
                    }),
                forall|v: usize|
                    !(start_vpn <= v < vpn) ==> #[trigger] self.page_table.pte(v) == grown.pte(v),
                framed ==> data@.len() == vpn - start_vpn,
                !framed ==> data@.len() == 0,
                frames.after_taking(frames_grown, data@),
                framed ==> frames_grown.free_count_spec() >= end_vpn - start_vpn,
            decreases end_vpn - vpn,
        {
            let ppn: usize;
            if framed {
                let ghost frames_prev = *frames;
                ppn = frames.frame_alloc().unwrap();
                proof {
                    frames.lemma_take_more(frames_grown, frames_prev, data@, seq![ppn]);
                    assert(data@ + seq![ppn] =~= data@.push(ppn));
                }
                data.push(ppn);
            } else {
                ppn = vpn;
            }
            assert(self.page_table.walkable(vpn));
            let ghost prev = self.page_table;
            self.page_table.set_entry(vpn, PageTableEntry { ppn, flags });
            proof {
                assert forall|v: usize| start_vpn <= v < end_vpn implies #[trigger] self.page_table.walkable(
                    v,
                ) by {
                    assert(prev.walkable(v));
                }
            }
            vpn = vpn + 1;
        }
        let area = MapArea { start_vpn, end_vpn, data_frames: data, map_type, map_perm: perm };
        self.areas.push(area);
        proof {
            let pt = self.page_table;
            let n0 = before.page_table().frames().len() as int;
            let tables = grown.frames().skip(n0);
            let last = before.areas().len() as int;
            assert(before.wf());
            frames_before.lemma_wf();
            frames_grown.lemma_wf();
            before.page_table().lemma_wf();
            before.lemma_tables_allocated(frames_before);
            grown.lemma_grown_allocated(before.page_table(), frames_grown, frames_before);
            assert(self.areas()[last] == area);
            assert(area.perm().pte_flags() == flags);
            assert(pt.nodes() =~~= grown.nodes());
            assert forall|v: usize| area.contains(v) implies pt.pte(v) == area.pte_of(v) by {}
            // a table frame is an old one or one of the new ones
            assert forall|p: usize| pt.frames().contains(p) implies (before.page_table().frames().contains(
                p,
            ) || tables.contains(p)) by {
                let i = choose|i: int| 0 <= i < pt.frames().len() && pt.frames()[i] == p;
                if i < n0 {
                    assert(grown.frames().take(n0)[i] == p);
                } else {
                    assert(tables[i - n0] == p);
                }
            }
            assert forall|p: usize|
                (before.page_table().frames().contains(p) || tables.contains(
                    p,
                )) implies pt.frames().contains(p) by {
                if before.page_table().frames().contains(p) {
                    let i = choose|i: int| 0 <= i < n0 && before.page_table().frames()[i] == p;
                    assert(grown.frames().take(n0)[i] == p);
                } else {
                    let i = choose|i: int| 0 <= i < tables.len() && tables[i] == p;
                    assert(grown.frames()[i + n0] == p);
                }
            }
            // old areas are disjoint from the new range
            assert forall|i: int, v: usize|
                0 <= i < last && (#[trigger] before.areas()[i].contains(v)) implies !(start_vpn <= v
                < end_vpn) by {
                assert(before.page_table().pte(v) == before.areas()[i].pte_of(v));
                assert(before.page_table().mapped(v));
            }
            assert(self.areas_disjoint());
            assert(self.ptes_agree()) by {
                assert forall|i: int, v: usize|
                    0 <= i < self.areas().len() && (#[trigger] self.areas()[i].contains(
                        v,
                    )) implies self.page_table().pte(v) == self.areas()[i].pte_of(v) by {
                    if i < last {
                        assert(before.areas()[i].contains(v));
                        assert(grown.pte(v) == before.page_table().pte(v));
                    }
                }
            }
            assert(self.ptes_covered()) by {
                assert forall|v: usize| #[trigger] self.page_table().mapped(v) implies self.in_some_area(
                    v,
                ) by {
                    if start_vpn <= v < end_vpn {
                        assert(self.areas()[last].contains(v));
                    } else {
                        assert(grown.pte(v) == before.page_table().pte(v));
                        assert(before.page_table().mapped(v));
                        let i = choose|i: int|
                            0 <= i < before.areas().len() && (#[trigger] before.areas()[i]).contains(
                                v,
                            );
                        assert(self.areas()[i].contains(v));
                    }
                }
            }
            // every new data frame was free before, and is no table frame
            assert forall|a: int| 0 <= a < area.frames().len() implies frames_before.is_free(
                #[trigger] area.frames()[a],
            ) && !pt.frames().contains(area.frames()[a]) by {
                let p = area.frames()[a];
                assert(frames_grown.is_free(p));
                if pt.frames().contains(p) {
                    let i = choose|i: int| 0 <= i < grown.frames().len() && grown.frames()[i] == p;
                    assert(frames_grown.is_allocated(grown.frames()[i]));
                }
            }
            assert forall|i: int, a: int|
                0 <= i < last && 0 <= a < before.areas()[i].frames().len()
                    implies frames_before.is_allocated(#[trigger] before.areas()[i].frames()[a])
                && !tables.contains(before.areas()[i].frames()[a]) by {
                let p = before.areas()[i].frames()[a];
                assert(before.owns_data(p));
                assert(before.owns(p));
                if tables.contains(p) {
                    let t = choose|t: int| 0 <= t < tables.len() && tables[t] == p;
                    assert(frames_before.is_free(tables[t]));
                }
            }
            assert(self.frames_distinct()) by {
                assert forall|i: int, a: int, j: int, b: int|
                    0 <= i < self.areas().len() && 0 <= a < self.areas()[i].frames().len() && 0
                        <= j < self.areas().len() && 0 <= b < self.areas()[j].frames().len() && (i
                        != j || a != b) implies #[trigger] self.areas()[i].frames()[a]
                    != #[trigger] self.areas()[j].frames()[b] by {
                    if i < last && j < last {
                        assert(before.areas()[i].frames()[a] != before.areas()[j].frames()[b]);
                    } else if i < last {
                        assert(frames_before.is_allocated(before.areas()[i].frames()[a]));
                        assert(frames_before.is_free(area.frames()[b]));
                    } else if j < last {
                        assert(frames_before.is_allocated(before.areas()[j].frames()[b]));
                        assert(frames_before.is_free(area.frames()[a]));
                    }
                }
                assert forall|i: int, a: int|
                    0 <= i < self.areas().len() && 0 <= a < self.areas()[i].frames().len()
                        implies !self.page_table().frames().contains(
                    #[trigger] self.areas()[i].frames()[a],
                ) by {
                    if i < last {
                        let p = before.areas()[i].frames()[a];
                        assert(!before.page_table().frames().contains(p));
                        assert(!tables.contains(p));
                    }
                }
            }
            assert forall|p: usize| self.owns_data(p) <==> before.owns_data(p) || area.frames().contains(
                p,
            ) by {
                if self.owns_data(p) {
                    let (i, a) = choose|i: int, a: int|
                        0 <= i < self.areas().len() && 0 <= a < self.areas()[i].frames().len()
                            && #[trigger] self.areas()[i].frames()[a] == p;
                    if i < last {
                        assert(before.areas()[i].frames()[a] == p);
                    } else {
                        assert(area.frames()[a] == p);
                    }
                }
                if before.owns_data(p) {
                    let (i, a) = choose|i: int, a: int|
                        0 <= i < before.areas().len() && 0 <= a < before.areas()[i].frames().len()
                            && #[trigger] before.areas()[i].frames()[a] == p;
                    assert(self.areas()[i].frames()[a] == p);
                }
                if area.frames().contains(p) {
                    let a = choose|a: int| 0 <= a < area.frames().len() && area.frames()[a] == p;
                    assert(self.areas()[last].frames()[a] == p);
                }
            }
            assert forall|p: usize|
                #![trigger self.owns(p)]
                #![trigger frames.is_free(p)]
                #![trigger before.owns(p)]
                #![trigger frames_before.is_free(p)]
                (self.owns(p) || frames.is_free(p)) <==> (before.owns(p) || frames_before.is_free(
                    p,
                )) by {
                if tables.contains(p) {
                    let t = choose|t: int| 0 <= t < tables.len() && tables[t] == p;
                    assert(frames_before.is_free(tables[t]));
                }
                if area.frames().contains(p) {
                    let a = choose|a: int| 0 <= a < area.frames().len() && area.frames()[a] == p;
                    assert(frames_before.is_free(area.frames()[a]));
                }
                if before.owns(p) {
                    assert(frames_before.is_allocated(p));
                }
            }
            assert forall|p: usize| #[trigger] self.owns(p) implies frames.is_allocated(p) by {
                if before.owns(p) {
                    assert(frames_before.is_allocated(p));
                } else if tables.contains(p) {
                    let t = choose|t: int| 0 <= t < tables.len() && tables[t] == p;
                    assert(frames_before.is_free(tables[t]));
                } else {
                    let a = choose|a: int| 0 <= a < area.frames().len() && area.frames()[a] == p;
                    assert(frames_before.is_free(area.frames()[a]));
                }
            }
            assert forall|p: usize| frames_before.is_allocated(p) implies #[trigger] frames.page(p)
                == frames_before.page(p) by {
                assert(!tables.contains(p)) by {
                    if tables.contains(p) {
                        let t = choose|t: int| 0 <= t < tables.len() && tables[t] == p;
                        assert(frames_before.is_free(tables[t]));
                    }
                }
                assert(!area.frames().contains(p)) by {
                    if area.frames().contains(p) {
                        let a = choose|a: int|
                            0 <= a < area.frames().len() && area.frames()[a] == p;
                        assert(frames_before.is_free(area.frames()[a]));
                    }
                }
                assert(frames_grown.page(p) == frames_before.page(p));
                assert(frames.page(p) == frames_grown.page(p));
            }
            assert(self.areas() =~= before.areas().push(area));
            assert forall|vpn: usize| before.page_table().walkable(vpn) implies #[trigger] self.page_table().walkable(
                vpn,
            ) by {
                assert(before.page_table().has_leaf(crate::mm::page_table::leaf_index(vpn)));
                assert(grown.has_leaf(crate::mm::page_table::leaf_index(vpn)));
                assert(self.page_table.has_leaf(crate::mm::page_table::leaf_index(vpn)));
            }
        }
        true
    }

    /// Removes the area with index `idx`: clears the leaf entry of each of
    /// its pages and hands its frames back to the allocator, in page order.
    /// Page-table nodes stay.
    pub fn remove_area_at(&mut self, idx: usize, frames: &mut FrameAllocator)
        requires
            old(self).wf(),
            old(frames).wf(),
            old(self).frames_allocated(*old(frames)),
            idx < old(self).areas().len(),
        ensures
            final(self).wf(),
            final(frames).wf(),
            final(self).frames_allocated(*final(frames)),
            final(self).areas() == old(self).areas().remove(idx as int),
            final(self).page_table().frames() == old(self).page_table().frames(),
            final(self).page_table().root_ppn() == old(self).page_table().root_ppn(),
            final(self).conserves(*old(self), *final(frames), *old(frames)),
            final(frames).recycled() == old(frames).recycled() + old(self).areas()[idx as int].frames(),
            final(frames).current() == old(frames).current(),
            final(frames).free_count_spec() == old(frames).free_count_spec() + old(self).areas()[idx as int].frames().len(),
            forall|p: usize|
                old(frames).in_range(p) ==> #[trigger] final(frames).page(p) == old(frames).page(p),
            forall|vpn: usize|
                old(self).areas()[idx as int].contains(vpn) ==> !(#[trigger] final(self).page_table().mapped(vpn)),
    {
        let ghost before = *self;
        let ghost frames_before = *frames;
        let area = self.areas.remove(idx);
        let ghost gone = before.areas()[idx as int];
        assert(area == gone);
        assert(gone.wf());
        let mut vpn: usize = area.start_vpn;
        while vpn < area.end_vpn
            invariant
                area.start_vpn <= vpn <= area.end_vpn,
                self.page_table.wf(),
                self.page_table.frames() == before.page_table().frames(),
                self.page_table.root_ppn() == before.page_table().root_ppn(),
                self.areas@ == before.areas().remove(idx as int),
                forall|v: usize|
                    area.start_vpn <= v < vpn ==> #[trigger] self.page_table.pte(v)
                        == PageTableEntry::empty_spec(),
                forall|v: usize|
                    !(area.start_vpn <= v < vpn) ==> #[trigger] self.page_table.pte(v)
                        == before.page_table().pte(v),
            decreases area.end_vpn - vpn,
        {
            self.page_table.unmap(vpn);
            vpn = vpn + 1;
        }
        let mut a: usize = 0;
        proof {
            assert(frames.recycled() =~= frames_before.recycled() + area.data_frames@.take(0));
        }
        while a < area.data_frames.len()
            invariant
                a <= area.data_frames@.len(),
                area == gone,
                gone == before.areas()[idx as int],
                idx < before.areas().len(),
                before.wf(),
                before.frames_allocated(frames_before),
                frames_before.wf(),
                frames.wf(),
                frames.base() == frames_before.base(),
                frames.end() == frames_before.end(),
                frames.current() == frames_before.current(),
                frames.recycled() == frames_before.recycled() + area.data_frames@.take(a as int),
                frames.free_count_spec() == frames_before.free_count_spec() + a,
                forall|p: usize|
                    #[trigger] frames.is_free(p) <==> frames_before.is_free(p) || exists|b: int|
                        0 <= b < a && #[trigger] area.data_frames@[b] == p,
                forall|p: usize|
                    frames_before.in_range(p) ==> #[trigger] frames.page(p) == frames_before.page(p),
            decreases area.data_frames@.len() - a,
        {
            let ppn: usize = area.data_frames[a];
            let ghost frames_prev = *frames;
            proof {
                assert(before.areas()[idx as int].frames()[a as int] == ppn);
                assert(before.owns_data(ppn));
                assert(before.owns(ppn));
                assert(frames_before.is_allocated(ppn));
                if frames.is_free(ppn) {
                    let b = choose|b: int| 0 <= b < a && #[trigger] area.data_frames@[b] == ppn;
                    assert(before.areas()[idx as int].frames()[b] == ppn);
                }
            }
            frames.frame_dealloc(ppn);
            proof {
                assert(area.data_frames@.take(a as int + 1) =~= area.data_frames@.take(a as int).push(
                    ppn,
                ));
                assert(frames.recycled() =~= frames_before.recycled() + area.data_frames@.take(
                    a as int + 1,
                ));
                assert forall|p: usize|
                    #[trigger] frames.is_free(p) <==> frames_before.is_free(p) || exists|b: int|
                        0 <= b < a + 1 && #[trigger] area.data_frames@[b] == p by {
                    if p == ppn {
                        assert(area.data_frames@[a as int] == p);
                    } else {
                        assert(frames.is_free(p) == frames_prev.is_free(p));
                    }
                }
            }
            a = a + 1;
        }
        proof {
            let after_areas = self.areas();
            assert(after_areas =~= before.areas().remove(idx as int));
            assert(area.data_frames@.take(a as int) =~= gone.frames());
            assert forall|i: int| 0 <= i < after_areas.len() implies #[trigger] after_areas[i] == (
            if i < idx {
                before.areas()[i]
            } else {
                before.areas()[i + 1]
            }) by {}
            assert forall|i: int| 0 <= i < after_areas.len() implies (#[trigger] after_areas[i]).wf() by {
                if i < idx {
                    assert(before.areas()[i].wf());
                } else {
                    assert(before.areas()[i + 1].wf());
                }
            }
            assert(self.areas_disjoint()) by {
                assert forall|i: int, j: int, v: usize|
                    0 <= i < self.areas().len() && 0 <= j < self.areas().len() && i != j && (
                    #[trigger] self.areas()[i].contains(v)) implies !(
                #[trigger] self.areas()[j].contains(v)) by {
                    let oi = if i < idx { i } else { i + 1 };
                    let oj = if j < idx { j } else { j + 1 };
                    assert(before.areas()[oi].contains(v));
                    if self.areas()[j].contains(v) {
                        assert(before.areas()[oj].contains(v));
                    }
                }
            }
            assert(self.ptes_agree()) by {
                assert forall|i: int, v: usize|
                    0 <= i < self.areas().len() && (#[trigger] self.areas()[i].contains(
                        v,
                    )) implies self.page_table().pte(v) == self.areas()[i].pte_of(v) by {
                    let oi = if i < idx { i } else { i + 1 };
                    assert(before.areas()[oi].contains(v));
                    if gone.contains(v) {
                        assert(before.areas()[idx as int].contains(v));
                    }
                }
            }
            assert(self.ptes_covered()) by {
                assert forall|v: usize| #[trigger] self.page_table().mapped(v) implies self.in_some_area(
                    v,
                ) by {
                    assert(!gone.contains(v));
                    assert(before.page_table().mapped(v));
                    let k = choose|k: int|
                        0 <= k < before.areas().len() && (#[trigger] before.areas()[k]).contains(v);
                    let nk = if k < idx { k } else { k - 1 };
                    assert(self.areas()[nk].contains(v));
                }
            }
            assert(self.frames_distinct()) by {
                assert forall|i: int, a: int, j: int, b: int|
                    0 <= i < self.areas().len() && 0 <= a < self.areas()[i].frames().len() && 0
                        <= j < self.areas().len() && 0 <= b < self.areas()[j].frames().len() && (i
                        != j || a != b) implies #[trigger] self.areas()[i].frames()[a]
                    != #[trigger] self.areas()[j].frames()[b] by {
                    let oi = if i < idx { i } else { i + 1 };
                    let oj = if j < idx { j } else { j + 1 };
                    assert(before.areas()[oi].frames()[a] != before.areas()[oj].frames()[b]);
                }
                assert forall|i: int, a: int|
                    0 <= i < self.areas().len() && 0 <= a < self.areas()[i].frames().len()
                        implies !self.page_table().frames().contains(
                    #[trigger] self.areas()[i].frames()[a],
                ) by {
                    let oi = if i < idx { i } else { i + 1 };
                    assert(!before.page_table().frames().contains(before.areas()[oi].frames()[a]));
                }
            }
            assert forall|p: usize| before.owns_data(p) <==> self.owns_data(p) || gone.frames().contains(
                p,
            ) by {
                if self.owns_data(p) {
                    let (i, a) = choose|i: int, a: int|
                        0 <= i < self.areas().len() && 0 <= a < self.areas()[i].frames().len()
                            && #[trigger] self.areas()[i].frames()[a] == p;
                    let oi = if i < idx { i } else { i + 1 };
                    assert(before.areas()[oi].frames()[a] == p);
                }
                if before.owns_data(p) {
                    let (i, a) = choose|i: int, a: int|
                        0 <= i < before.areas().len() && 0 <= a < before.areas()[i].frames().len()
                            && #[trigger] before.areas()[i].frames()[a] == p;
                    if i == idx {
                        assert(gone.frames()[a] == p);
                    } else {
                        let ni = if i < idx { i } else { i - 1 };
                        assert(self.areas()[ni].frames()[a] == p);
                    }
                }
                if gone.frames().contains(p) {
                    let a = choose|a: int| 0 <= a < gone.frames().len() && gone.frames()[a] == p;
                    assert(before.areas()[idx as int].frames()[a] == p);
                }
            }
            // a frame of the area that went is no longer owned
            assert forall|p: usize| gone.frames().contains(p) implies !self.owns(p) by {
                let a = choose|a: int| 0 <= a < gone.frames().len() && gone.frames()[a] == p;
                assert(before.areas()[idx as int].frames()[a] == p);
                assert(!before.page_table().frames().contains(before.areas()[idx as int].frames()[a]));
                if self.owns_data(p) {
                    let (i, b) = choose|i: int, b: int|
                        0 <= i < self.areas().len() && 0 <= b < self.areas()[i].frames().len()
                            && #[trigger] self.areas()[i].frames()[b] == p;
                    let oi = if i < idx { i } else { i + 1 };
                    assert(before.areas()[oi].frames()[b] != before.areas()[idx as int].frames()[a]);
                }
            }
            assert forall|p: usize| gone.frames().contains(p) <==> (exists|b: int|
                0 <= b < a && #[trigger] area.data_frames@[b] == p) by {
                if gone.frames().contains(p) {
                    let b = choose|b: int| 0 <= b < gone.frames().len() && gone.frames()[b] == p;
                    assert(area.data_frames@[b] == p);
                }
            }
            assert forall|p: usize|
                #![trigger self.owns(p)]
                #![trigger frames.is_free(p)]
                #![trigger before.owns(p)]
                #![trigger frames_before.is_free(p)]
                (self.owns(p) || frames.is_free(p)) <==> (before.owns(p) || frames_before.is_free(
                    p,
                )) by {}
            assert forall|p: usize| #[trigger] self.owns(p) implies frames.is_allocated(p) by {
                assert(before.owns(p));
                assert(frames_before.is_allocated(p));
                assert(!gone.frames().contains(p));
            }
            assert forall|v: usize| gone.contains(v) implies !(#[trigger] self.page_table().mapped(
                v,
            )) by {}
        }
    }

    /// The index of the first area at or after `from` that starts at
    /// `start_vpn`.
    pub open spec fn start_from(&self, start_vpn: usize, from: int) -> Option<int>
        decreases self.areas().len() - from,
    {
        if from < 0 || from >= self.areas().len() {
            None
        } else if self.areas()[from].start() == start_vpn {
            Some(from)
        } else {
            self.start_from(start_vpn, from + 1)
        }
    }

    /// The index of the first area at or after `from` that spans exactly
    /// `[start_vpn, end_vpn)`.
    pub open spec fn range_from(&self, start_vpn: usize, end_vpn: usize, from: int) -> Option<int> {
        range_at(self.areas(), start_vpn, end_vpn, from)
    }

    /// The index of the first area that starts at `start_vpn`.
    pub open spec fn index_by_start(&self, start_vpn: usize) -> Option<int> {
        self.start_from(start_vpn, 0)
    }

    /// The index of the first area that spans exactly `[start_vpn, end_vpn)`.
    pub open spec fn index_by_range(&self, start_vpn: usize, end_vpn: usize) -> Option<int> {
        self.range_from(start_vpn, end_vpn, 0)
    }

    /// Finds the first area that starts at `start_vpn`.
    pub fn find_area_by_start(&self, start_vpn: usize) -> (r: Option<usize>)
        ensures
            r.is_some() <==> self.index_by_start(start_vpn).is_some(),
            r.is_some() ==> r.unwrap() == self.index_by_start(start_vpn).unwrap(),
            r.is_some() ==> r.unwrap() < self.areas().len() && self.areas()[r.unwrap() as int].start()
                == start_vpn,
    {
        let mut i: usize = 0;
        while i < self.areas.len()
            invariant
                i <= self.areas().len(),
                self.index_by_start(start_vpn) == self.start_from(start_vpn, i as int),
            decreases self.areas().len() - i,
        {
            if self.areas[i].start_vpn == start_vpn {
                return Some(i);
            }
            i = i + 1;
        }
        None
    }

    /// Finds the first area that spans exactly `[start_vpn, end_vpn)`.
    pub fn find_area_by_range(&self, start_vpn: usize, end_vpn: usize) -> (r: Option<usize>)
        ensures
            r.is_some() <==> self.index_by_range(start_vpn, end_vpn).is_some(),
            r.is_some() ==> r.unwrap() == self.index_by_range(start_vpn, end_vpn).unwrap(),
            r.is_some() ==> r.unwrap() < self.areas().len() && self.areas()[r.unwrap() as int].start()
                == start_vpn && self.areas()[r.unwrap() as int].end() == end_vpn,
    {
        let mut i: usize = 0;
        while i < self.areas.len()
            invariant
                i <= self.areas().len(),
                self.index_by_range(start_vpn, end_vpn) == self.range_from(
                    start_vpn,
                    end_vpn,
                    i as int,
                ),
            decreases self.areas().len() - i,
        {
            if self.areas[i].start_vpn == start_vpn && self.areas[i].end_vpn == end_vpn {
                return Some(i);
            }
            i = i + 1;
        }
        None
    }

    /// Removes the first area that starts at `start_vpn`, unmaps its pages
    /// and frees its frames. Returns `false`, and changes nothing, exactly
    /// when no area starts there.
    pub fn remove_area_by_start(&mut self, start_vpn: usize, frames: &mut FrameAllocator) -> (ok: bool)
        requires
            old(self).wf(),
            old(frames).wf(),
            old(self).frames_allocated(*old(frames)),
        ensures
            final(self).wf(),
            final(frames).wf(),
            final(self).frames_allocated(*final(frames)),
            ok == old(self).index_by_start(start_vpn).is_some(),
            !ok ==> *final(self) == *old(self) && *final(frames) == *old(frames),
            ok ==> {
                let idx = old(self).index_by_start(start_vpn).unwrap();
                &&& 0 <= idx < old(self).areas().len()
                &&& final(self).areas() == old(self).areas().remove(idx)
                &&& final(self).conserves(*old(self), *final(frames), *old(frames))
                &&& final(frames).recycled() == old(frames).recycled() + old(self).areas()[idx].frames()
                &&& forall|vpn: usize|
                    old(self).areas()[idx].contains(vpn) ==> !(#[trigger] final(self).page_table().mapped(vpn))
            },
    {
        match self.find_area_by_start(start_vpn) {
            None => false,
            Some(idx) => {
                self.remove_area_at(idx, frames);
                true
            },
        }
    }

    /// Inserts a framed area for the addresses `[start_va, end_va)`, the
    /// start rounded down and the end rounded up to page boundaries, open
    /// to user mode with the given permissions. Returns `false`, and
    /// changes nothing, exactly when `can_insert` does not hold of the
    /// rounded range.
    pub fn insert_framed_area(
        &mut self,
        start_va: usize,
        end_va: usize,
        perm: MapPermission,
        frames: &mut FrameAllocator,
    ) -> (ok: bool)
        requires
            old(self).wf(),
            old(frames).wf(),
            old(self).frames_allocated(*old(frames)),
        ensures
            final(self).wf(),
            final(frames).wf(),
            final(self).frames_allocated(*final(frames)),
            ok == old(self).can_insert(
                va_floor(start_va),
                va_ceil(end_va),
                MapType::Framed,
                perm.with_user(),
                *old(frames),
            ),
            !ok ==> *final(self) == *old(self) && *final(frames) == *old(frames),
            ok ==> {
                let area = final(self).areas().last();
                &&& final(self).areas() == old(self).areas().push(area)
                &&& area.start() == va_floor(start_va)
                &&& area.end() == va_ceil(end_va)
                &&& area.map_type() is Framed
                &&& area.perm() == perm.with_user()
                &&& final(self).conserves(*old(self), *final(frames), *old(frames))
                &&& final(frames).free_count_spec() == old(frames).free_count_spec() - (va_ceil(
                    end_va,
                ) - va_floor(start_va)) - old(self).page_table().missing_tables(
                    va_floor(start_va),
                    va_ceil(end_va),
                )
                &&& forall|i: int|
                    0 <= i < area.frames().len() ==> final(frames).page(#[trigger] area.frames()[i])
                        == zero_page()
                &&& forall|p: usize|
                    old(frames).is_allocated(p) ==> #[trigger] final(frames).page(p) == old(frames).page(p)
                &&& forall|vpn: usize|
                    !(va_floor(start_va) <= vpn < va_ceil(end_va)) ==> #[trigger] final(self).page_table().pte(vpn) == old(self).page_table().pte(vpn)
            },
    {
        let start_vpn: usize = floor_page(start_va);
        let end_vpn: usize = ceil_page(end_va);
        let perm_u = MapPermission { r: perm.r, w: perm.w, x: perm.x, u: true };
        self.insert_area(start_vpn, end_vpn, MapType::Framed, perm_u, frames)
    }

    /// Whether user mode may touch the byte at `va`.
    pub open spec fn user_ok(&self, va: usize) -> bool {
        self.page_table().pte(va_floor(va)).user_valid()
    }

    /// Whether user mode may touch every byte of `[ptr, ptr + len)`.
    pub open spec fn user_range_ok(&self, ptr: usize, len: usize) -> bool {
        &&& ptr + len <= usize::MAX
        &&& forall|va: usize| ptr <= va < ptr + len ==> #[trigger] self.user_ok(va)
    }

    /// The frame behind the address `va`.
    pub open spec fn user_frame(&self, va: usize) -> usize {
        self.page_table().pte(va_floor(va)).ppn
    }

    /// The byte that user mode sees at `va`.
    pub open spec fn user_byte(&self, mem: FrameAllocator, va: usize) -> u8 {
        mem.page(self.user_frame(va))[va as int % PAGE_SIZE as int]
    }

    /// The bytes that user mode sees at `[ptr, ptr + len)`.
    pub open spec fn user_bytes(&self, mem: FrameAllocator, ptr: usize, len: nat) -> Seq<u8> {
        Seq::new(len, |i: int| self.user_byte(mem, (ptr + i) as usize))
    }

    /// A page open to user mode lies in a framed area and has a frame of
    /// its own.
    pub proof fn lemma_user_frame(&self, va: usize)
        requires
            self.wf(),
            self.user_ok(va),
        ensures
            self.owns_data(self.user_frame(va)),
            !self.page_table().frames().contains(self.user_frame(va)),
            forall|vb: usize|
                self.user_ok(vb) && va_floor(vb) != va_floor(va) ==> self.user_frame(vb)
                    != self.user_frame(va),
    {
        let v = va_floor(va);
        assert(self.page_table().mapped(v));
        let i = choose|i: int| 0 <= i < self.areas().len() && (#[trigger] self.areas()[i]).contains(v);
        assert(self.areas()[i].contains(v));
        assert(self.areas()[i].wf());
        assert(self.page_table().pte(v) == self.areas()[i].pte_of(v));
        let a = v - self.areas()[i].start();
        assert(self.areas()[i].frames()[a] == self.user_frame(va));
        assert forall|vb: usize|
            self.user_ok(vb) && va_floor(vb) != va_floor(va) implies self.user_frame(vb)
            != self.user_frame(va) by {
            let w = va_floor(vb);
            assert(self.page_table().mapped(w));
            let j = choose|j: int|
                0 <= j < self.areas().len() && (#[trigger] self.areas()[j]).contains(w);
            assert(self.areas()[j].contains(w));
            assert(self.areas()[j].wf());
            assert(self.page_table().pte(w) == self.areas()[j].pte_of(w));
            let b = w - self.areas()[j].start();
            assert(self.areas()[j].frames()[b] == self.user_frame(vb));
            if i == j {
                assert(a != b);
            }
            assert(self.areas()[i].frames()[a] != self.areas()[j].frames()[b]);
        }
    }

    /// The frame behind `va`, if user mode may touch it.
    pub fn translate_user(&self, va: usize) -> (r: Option<usize>)
        requires
            self.wf(),
        ensures
            r.is_some() == self.user_ok(va),
            r.is_some() ==> r.unwrap() == self.user_frame(va),
    {
        proof {
            self.page_table.lemma_wf();
        }
        match self.page_table.translate(floor_page(va)) {
            None => None,
            Some(pte) => {
                if pte.flags.v && pte.flags.u {
                    Some(pte.ppn)
                } else {
                    None
                }
            },
        }
    }

    /// Reads `len` bytes of user memory at `ptr`, across pages as needed.
    /// `None` exactly when user mode may not touch some byte of the range.
    pub fn read_user_bytes(&self, mem: &FrameAllocator, ptr: usize, len: usize) -> (r: Option<
        Vec<u8>,
    >)
        requires
            self.wf(),
            mem.wf(),
            self.frames_allocated(*mem),
        ensures
            r.is_some() == self.user_range_ok(ptr, len),
            r.is_some() ==> r.unwrap()@ == self.user_bytes(*mem, ptr, len as nat),
    {
        if len > usize::MAX - ptr {
            return None;
        }
        let mut out: Vec<u8> = Vec::new();
        let mut i: usize = 0;
        while i < len
            invariant
                self.wf(),
                mem.wf(),
                self.frames_allocated(*mem),
                i <= len,
                ptr + len <= usize::MAX,
                out@.len() == i,
                forall|va: usize| ptr <= va < ptr + i ==> #[trigger] self.user_ok(va),
                forall|j: int|
                    0 <= j < i ==> #[trigger] out@[j] == self.user_byte(*mem, (ptr + j) as usize),
            decreases len - i,
        {
            let va: usize = ptr + i;
            match self.translate_user(va) {
                None => {
                    return None;
                },
                Some(ppn) => {
                    proof {
                        self.lemma_user_frame(va);
                        assert(self.owns(ppn));
                    }
                    out.push(mem.read_byte(ppn, va % PAGE_SIZE));
                },
            }
            i = i + 1;
        }
        assert(out@ =~= self.user_bytes(*mem, ptr, len as nat));
        Some(out)
    }

    /// Whether user mode may touch every byte of `[ptr, ptr + len)`.
    pub fn check_user_range(&self, ptr: usize, len: usize) -> (ok: bool)
        requires
            self.wf(),
        ensures
            ok == self.user_range_ok(ptr, len),
    {
        if len > usize::MAX - ptr {
            return false;
        }
        if len == 0 {
            return true;
        }
        let first: usize = floor_page(ptr);
        let last: usize = floor_page(ptr + len - 1);
        let mut vpn: usize = first;
        while vpn <= last
            invariant
                self.wf(),
                first <= vpn <= last + 1,
                first == va_floor(ptr),
                last == va_floor((ptr + len - 1) as usize),
                len > 0,
                ptr + len <= usize::MAX,
                forall|va: usize| ptr <= va < ptr + len && va_floor(va) < vpn ==> #[trigger] self.user_ok(va),
            decreases last + 1 - vpn,
        {
            let pte = self.page_table.translate(vpn);
            let ok = match pte {
                Some(e) => e.flags.v && e.flags.u,
                None => false,
            };
            if !ok {
                proof {
                    self.page_table.lemma_wf();
                    let va: usize = if vpn == first {
                        ptr
                    } else {
                        (vpn * PAGE_SIZE) as usize
                    };
                    assert(va_floor(va) == vpn);
                    assert(ptr <= va < ptr + len);
                    assert(!self.user_ok(va));
                }
                return false;
            }
            proof {
                self.page_table.lemma_wf();
                assert forall|va: usize|
                    ptr <= va < ptr + len && va_floor(va) < vpn + 1 implies #[trigger] self.user_ok(
                    va,
                ) by {
                    if va_floor(va) == vpn {
                    }
                }
            }
            vpn = vpn + 1;
        }
        true
    }

    /// The pieces of the user buffer `[ptr, ptr + len)`, one per page that
    /// the buffer touches, in order: each runs from where the one before
    /// ended to the end of its page, or to the end of the buffer.
    pub open spec fn user_slices(&self, ptr: usize, len: nat) -> Seq<UserSlice>
        decreases len,
    {
        if len == 0 {
            Seq::empty()
        } else {
            let room = (PAGE_SIZE - ptr % PAGE_SIZE) as nat;
            let n = if len < room {
                len
            } else {
                room
            };
            seq![
                UserSlice { ppn: self.user_frame(ptr), offset: (ptr % PAGE_SIZE) as usize, len: n as usize },
            ] + self.user_slices((ptr + n) as usize, (len - n) as nat)
        }
    }

    /// Translates the user buffer `[ptr, ptr + len)` into its pieces, none
    /// of which crosses a page boundary. `None` exactly when user mode may
    /// not touch some byte of the buffer.
    pub fn translated_byte_buffer(&self, ptr: usize, len: usize) -> (r: Option<Vec<UserSlice>>)
        requires
            self.wf(),
        ensures
            r.is_some() == self.user_range_ok(ptr, len),
            r.is_some() ==> r.unwrap()@ == self.user_slices(ptr, len as nat),
    {
        if !self.check_user_range(ptr, len) {
            return None;
        }
        let mut out: Vec<UserSlice> = Vec::new();
        let mut at: usize = ptr;
        let mut left: usize = len;
        while left > 0
            invariant
                self.wf(),
                ptr + len <= usize::MAX,
                at + left == ptr + len,
                ptr <= at,
                forall|va: usize| ptr <= va < ptr + len ==> #[trigger] self.user_ok(va),
                out@ + self.user_slices(at, left as nat) == self.user_slices(ptr, len as nat),
            decreases left,
        {
            let room: usize = PAGE_SIZE - at % PAGE_SIZE;
            let n: usize = if left < room {
                left
            } else {
                room
            };
            assert(self.user_ok(at));
            let ppn: usize = self.translate_user(at).unwrap();
            let piece = UserSlice { ppn, offset: at % PAGE_SIZE, len: n };
            proof {
                let rest = self.user_slices((at + n) as usize, (left - n) as nat);
                assert(self.user_slices(at, left as nat) == seq![piece] + rest);
                assert(out@.push(piece) + rest =~= out@ + (seq![piece] + rest));
            }
            out.push(piece);
            at = at + n;
            left = left - n;
        }
        assert(out@ + self.user_slices(at, 0) =~= out@);
        Some(out)
    }

    /// Whether user memory at `ptr` holds a string that ends: every byte
    /// up to and including the first zero byte, which is the byte number
    /// `n`, may be touched.
    pub open spec fn user_str_ends(&self, mem: FrameAllocator, ptr: usize, n: nat) -> bool {
        &&& ptr + n <= usize::MAX
        &&& forall|va: usize| ptr <= va <= ptr + n ==> #[trigger] self.user_ok(va)
        &&& self.user_byte(mem, (ptr + n) as usize) == 0
        &&& forall|i: int| 0 <= i < n ==> #[trigger] self.user_byte(mem, (ptr + i) as usize) != 0
    }

    /// The string that user memory holds at `ptr`: the bytes before the
    /// first zero byte, where the string ends.
    pub open spec fn user_str(&self, mem: FrameAllocator, ptr: usize) -> Option<Seq<u8>> {
        if exists|n: nat| self.user_str_ends(mem, ptr, n) {
            Some(self.user_bytes(mem, ptr, choose|n: nat| self.user_str_ends(mem, ptr, n)))
        } else {
            None
        }
    }

    /// A string ends in one place only.
    pub proof fn lemma_user_str_unique(&self, mem: FrameAllocator, ptr: usize, n: nat, m: nat)
        requires
            self.user_str_ends(mem, ptr, n),
            self.user_str_ends(mem, ptr, m),
        ensures
            n == m,
    {
        if n < m {
            assert(self.user_byte(mem, (ptr + n) as usize) != 0);
        }
        if m < n {
            assert(self.user_byte(mem, (ptr + m) as usize) != 0);
        }
    }

    /// Reads the bytes of user memory from `ptr` up to the first zero byte,
    /// which is left out, across pages as needed. `None` exactly when the
    /// string does not end before a byte that user mode may not touch.
    pub fn translated_str(&self, mem: &FrameAllocator, ptr: usize) -> (r: Option<Vec<u8>>)
        requires
            self.wf(),
            mem.wf(),
            self.frames_allocated(*mem),
        ensures
            r.is_some() == self.user_str(*mem, ptr).is_some(),
            r.is_some() ==> r.unwrap()@ == self.user_str(*mem, ptr).unwrap(),
            r.is_some() ==> self.user_str_ends(*mem, ptr, r.unwrap()@.len()),
    {
        let mut out: Vec<u8> = Vec::new();
        let mut va: usize = ptr;
        loop
            invariant
                self.wf(),
                mem.wf(),
                self.frames_allocated(*mem),
                ptr <= va,
                out@.len() == va - ptr,
                forall|vb: usize| ptr <= vb < va ==> #[trigger] self.user_ok(vb),
                forall|j: int|
                    0 <= j < out@.len() ==> #[trigger] out@[j] == self.user_byte(
                        *mem,
                        (ptr + j) as usize,
                    ),
                forall|j: int|
                    0 <= j < out@.len() ==> #[trigger] self.user_byte(*mem, (ptr + j) as usize) != 0,
            decreases usize::MAX - va,
        {
            match self.translate_user(va) {
                None => {
                    proof {
                        assert forall|n: nat| !self.user_str_ends(*mem, ptr, n) by {
                            if self.user_str_ends(*mem, ptr, n) {
                                if n < va - ptr {
                                    assert(self.user_byte(*mem, (ptr + n) as usize) != 0);
                                } else {
                                    assert(self.user_ok(va));
                                }
                            }
                        }
                    }
                    return None;
                },
                Some(ppn) => {
                    proof {
                        self.lemma_user_frame(va);
                        assert(self.owns(ppn));
                    }
                    let b: u8 = mem.read_byte(ppn, va % PAGE_SIZE);
                    if b == 0 {
                        proof {
                            assert(out@ =~= self.user_bytes(*mem, ptr, out@.len()));
                            assert(self.user_str_ends(*mem, ptr, out@.len()));
                            let n = choose|n: nat| self.user_str_ends(*mem, ptr, n);
                            self.lemma_user_str_unique(*mem, ptr, n, out@.len());
                        }
                        return Some(out);
                    }
                    if va == usize::MAX {
                        proof {
                            assert forall|n: nat| !self.user_str_ends(*mem, ptr, n) by {
                                if self.user_str_ends(*mem, ptr, n) {
                                    assert(self.user_byte(*mem, (ptr + n) as usize) == 0);
                                    if n < va - ptr {
                                        assert(self.user_byte(*mem, (ptr + n) as usize) != 0);
                                    }
                                }
                            }
                        }
                        return None;
                    }
                    out.push(b);
                    va = va + 1;
                },
            }
        }
    }

    /// Writes `data` to user memory at `ptr`, across pages as needed.
    /// Returns `false`, and writes nothing, exactly when user mode may not
    /// touch some byte of the range. The bytes read back as written; no
    /// other byte that user mode sees changes, and no frame of anyone else.
    pub fn write_user_bytes(&self, mem: &mut FrameAllocator, ptr: usize, data: &Vec<u8>) -> (ok:
        bool)
        requires
            self.wf(),
            old(mem).wf(),
            self.frames_allocated(*old(mem)),
        ensures
            final(mem).wf(),
            final(mem).same_frames(*old(mem)),
            self.frames_allocated(*final(mem)),
            ok == self.user_range_ok(ptr, data@.len() as usize),
            !ok ==> *final(mem) == *old(mem),
            ok ==> self.user_bytes(*final(mem), ptr, data@.len()) == data@,
            forall|va: usize|
                self.user_ok(va) && !(ptr <= va < ptr + data@.len()) ==> #[trigger] self.user_byte(
                    *final(mem),
                    va,
                ) == self.user_byte(*old(mem), va),
            forall|p: usize|
                old(mem).in_range(p) && !self.owns_data(p) ==> #[trigger] final(mem).page(p) == old(mem).page(p),
    {
        let ghost mem_before = *mem;
        let len: usize = data.len();
        if len > usize::MAX - ptr {
            return false;
        }
        let mut probe: usize = 0;
        while probe < len
            invariant
                self.wf(),
                *mem == mem_before,
                mem.wf(),
                self.frames_allocated(*mem),
                probe <= len,
                len == data@.len(),
                ptr + len <= usize::MAX,
                forall|va: usize| ptr <= va < ptr + probe ==> #[trigger] self.user_ok(va),
            decreases len - probe,
        {
            if self.translate_user(ptr + probe).is_none() {
                return false;
            }
            probe = probe + 1;
        }
        let mut i: usize = 0;
        while i < len
            invariant
                self.wf(),
                mem.wf(),
                mem_before.wf(),
                mem.same_frames(mem_before),
                self.frames_allocated(*mem),
                i <= len,
                len == data@.len(),
                ptr + len <= usize::MAX,
                forall|va: usize| ptr <= va < ptr + len ==> #[trigger] self.user_ok(va),
                forall|j: int|
                    0 <= j < i ==> #[trigger] self.user_byte(*mem, (ptr + j) as usize) == data@[j],
                forall|va: usize|
                    self.user_ok(va) && !(ptr <= va < ptr + i) ==> #[trigger] self.user_byte(*mem, va)
                        == self.user_byte(mem_before, va),
                forall|p: usize|
                    mem_before.in_range(p) && !self.owns_data(p) ==> #[trigger] mem.page(p)
                        == mem_before.page(p),
            decreases len - i,
        {
            let va: usize = ptr + i;
            let ppn: usize = self.translate_user(va).unwrap();
            let ghost mem_prev = *mem;
            proof {
                self.lemma_user_frame(va);
                assert(self.owns(ppn));
            }
            mem.write_byte(ppn, va % PAGE_SIZE, data[i]);
            proof {
                mem_prev.lemma_wf();
                assert(self.user_byte(*mem, va) == data@[i as int]);
                assert forall|vb: usize| self.user_ok(vb) && vb != va implies self.user_byte(*mem, vb)
                    == self.user_byte(mem_prev, vb) by {
                    self.lemma_user_frame(vb);
                    assert(self.owns(self.user_frame(vb)));
                    if va_floor(vb) == va_floor(va) {
                        assert(vb as int % PAGE_SIZE as int != va as int % PAGE_SIZE as int);
                    }
                }
                assert forall|j: int| 0 <= j < i + 1 implies #[trigger] self.user_byte(
                    *mem,
                    (ptr + j) as usize,
                ) == data@[j] by {
                    if j < i {
                        assert(self.user_ok((ptr + j) as usize));
                        assert(self.user_byte(mem_prev, (ptr + j) as usize) == data@[j]);
                    }
                }
            }
            i = i + 1;
        }
        assert(self.user_bytes(*mem, ptr, data@.len()) =~= data@);
        true
    }

    /// Removes every area, last first: unmaps all pages and hands their
    /// frames back to the allocator. The page table keeps its nodes.
    pub fn recycle_data_pages(&mut self, frames: &mut FrameAllocator)
        requires
            old(self).wf(),
            old(frames).wf(),
            old(self).frames_allocated(*old(frames)),
        ensures
            final(self).wf(),
            final(frames).wf(),
            final(self).frames_allocated(*final(frames)),
            final(self).areas().len() == 0,
            final(self).page_table().frames() == old(self).page_table().frames(),
            final(self).page_table().root_ppn() == old(self).page_table().root_ppn(),
            final(self).conserves(*old(self), *final(frames), *old(frames)),
            forall|p: usize| old(self).owns_data(p) ==> final(frames).recycled().contains(p),
            forall|p: usize|
                old(frames).in_range(p) ==> #[trigger] final(frames).page(p) == old(frames).page(p),
            forall|vpn: usize| !(#[trigger] final(self).page_table().mapped(vpn)),
    {
        let ghost before = *self;
        let ghost frames_before = *frames;
        proof {
            self.lemma_conserves_refl(*frames);
        }
        while self.areas.len() > 0
            invariant
                before.wf(),
                frames_before.wf(),
                self.wf(),
                frames.wf(),
                self.frames_allocated(*frames),
                self.page_table().frames() == before.page_table().frames(),
                self.page_table().root_ppn() == before.page_table().root_ppn(),
                self.conserves(before, *frames, frames_before),
                frames.base() == frames_before.base(),
                frames.end() == frames_before.end(),
                forall|p: usize|
                    before.owns_data(p) ==> self.owns_data(p) || frames.recycled().contains(p),
                forall|p: usize|
                    frames_before.in_range(p) ==> #[trigger] frames.page(p) == frames_before.page(p),
            decreases self.areas().len(),
        {
            let ghost prev = *self;
            let ghost frames_prev = *frames;
            let last: usize = self.areas.len() - 1;
            self.remove_area_at(last, frames);
            proof {
                self.lemma_conserves_trans(prev, before, *frames, frames_prev, frames_before);
                let gone = prev.areas()[last as int];
                assert forall|p: usize| before.owns_data(p) implies self.owns_data(p)
                    || frames.recycled().contains(p) by {
                    if prev.owns_data(p) {
                        let (i, a) = choose|i: int, a: int|
                            0 <= i < prev.areas().len() && 0 <= a < prev.areas()[i].frames().len()
                                && #[trigger] prev.areas()[i].frames()[a] == p;
                        if i == last {
                            assert(frames.recycled()[frames_prev.recycled().len() + a] == p);
                        } else {
                            assert(self.areas()[i].frames()[a] == p);
                        }
                    } else {
                        let k = choose|k: int|
                            0 <= k < frames_prev.recycled().len() && frames_prev.recycled()[k] == p;
                        assert(frames.recycled()[k] == p);
                    }
                }
            }
        }
        proof {
            assert forall|p: usize| before.owns_data(p) implies frames.recycled().contains(p) by {
                if self.owns_data(p) {
                    let (i, a) = choose|i: int, a: int|
                        0 <= i < self.areas().len() && 0 <= a < self.areas()[i].frames().len()
                            && #[trigger] self.areas()[i].frames()[a] == p;
                }
            }
            assert forall|vpn: usize| !(#[trigger] self.page_table().mapped(vpn)) by {
                if self.page_table().mapped(vpn) {
                    assert(self.in_some_area(vpn));
                }
            }
        }
    }

    /// Gives up the address space: hands every frame it owns back to the
    /// allocator, the frames of the pages first, then the page-table nodes.
    pub fn destroy(self, frames: &mut FrameAllocator)
        requires
            self.wf(),
            old(frames).wf(),
            self.frames_allocated(*old(frames)),
        ensures
            final(frames).wf(),
            final(frames).base() == old(frames).base(),
            final(frames).end() == old(frames).end(),
            forall|p: usize| #[trigger] final(frames).is_free(p) <==> old(frames).is_free(p) || self.owns(p),
            forall|p: usize| self.owns(p) ==> final(frames).recycled().contains(p),
            forall|p: usize|
                old(frames).in_range(p) ==> #[trigger] final(frames).page(p) == old(frames).page(p),
    {
        let ghost frames_before = *frames;
        let mut ms = self;
        ms.recycle_data_pages(frames);
        let ghost frames_mid = *frames;
        proof {
            ms.lemma_tables_allocated(*frames);
            assert forall|p: usize| !ms.owns_data(p) by {
                if ms.owns_data(p) {
                    let (i, a) = choose|i: int, a: int|
                        0 <= i < ms.areas().len() && 0 <= a < ms.areas()[i].frames().len()
                            && #[trigger] ms.areas()[i].frames()[a] == p;
                }
            }
        }
        ms.page_table.release(frames);
        proof {
            assert forall|p: usize| #[trigger] frames.is_free(p) <==> frames_before.is_free(p)
                || self.owns(p) by {
                assert(ms.owns(p) == self.page_table().frames().contains(p));
                if self.owns(p) {
                    assert(frames_before.is_allocated(p));
                }
            }
            assert forall|p: usize| self.owns(p) implies frames.recycled().contains(p) by {
                if self.owns_data(p) {
                    let k = choose|k: int|
                        0 <= k < frames_mid.recycled().len() && frames_mid.recycled()[k] == p;
                    assert(frames.recycled()[k] == p);
                } else {
                    let k = choose|k: int|
                        0 <= k < self.page_table().frames().len() && self.page_table().frames()[k]
                            == p;
                    assert(frames.recycled()[frames_mid.recycled().len() + k] == p);
                }
            }
        }
    }

    /// What `range_from` finds: the first area with the two bounds.
    pub proof fn lemma_range_from(&self, start_vpn: usize, end_vpn: usize, from: int)
        requires
            0 <= from,
        ensures
            self.range_from(start_vpn, end_vpn, from).is_none() <==> forall|i: int|
                from <= i < self.areas().len() ==> !((#[trigger] self.areas()[i]).start() == start_vpn
                    && self.areas()[i].end() == end_vpn),
            self.range_from(start_vpn, end_vpn, from).is_some() ==> {
                let idx = self.range_from(start_vpn, end_vpn, from).unwrap();
                &&& from <= idx < self.areas().len()
                &&& self.areas()[idx].start() == start_vpn
                &&& self.areas()[idx].end() == end_vpn
                &&& forall|j: int|
                    from <= j < idx ==> !((#[trigger] self.areas()[j]).start() == start_vpn
                        && self.areas()[j].end() == end_vpn)
            },
        decreases self.areas().len() - from,
    {
        if from < self.areas().len() && !(self.areas()[from].start() == start_vpn
            && self.areas()[from].end() == end_vpn) {
            self.lemma_range_from(start_vpn, end_vpn, from + 1);
        }
    }

    /// Whether `unmap_area` removes an area: the first area that spans
    /// exactly `[start_vpn, end_vpn)` exists and is a framed one.
    pub open spec fn can_unmap(&self, start_vpn: usize, end_vpn: usize) -> bool {
        &&& self.index_by_range(start_vpn, end_vpn).is_some()
        &&& self.areas()[self.index_by_range(start_vpn, end_vpn).unwrap()].map_type() is Framed
    }

    /// Removes the first area that spans exactly `[start_vpn, end_vpn)`,
    /// where it is a framed one: its pages are unmapped and its frames
    /// handed back. Returns `false`, and changes nothing, exactly when
    /// `can_unmap` does not hold.
    pub fn unmap_area(&mut self, start_vpn: usize, end_vpn: usize, frames: &mut FrameAllocator) -> (ok:
        bool)
        requires
            old(self).wf(),
            old(frames).wf(),
            old(self).frames_allocated(*old(frames)),
        ensures
            final(self).wf(),
            final(frames).wf(),
            final(self).frames_allocated(*final(frames)),
            ok == old(self).can_unmap(start_vpn, end_vpn),
            !ok ==> *final(self) == *old(self) && *final(frames) == *old(frames),
            ok ==> {
                let idx = old(self).index_by_range(start_vpn, end_vpn).unwrap();
                &&& 0 <= idx < old(self).areas().len()
                &&& final(self).areas() == old(self).areas().remove(idx)
                &&& final(self).conserves(*old(self), *final(frames), *old(frames))
                &&& final(frames).recycled() == old(frames).recycled() + old(self).areas()[idx].frames()
                &&& final(frames).free_count_spec() == old(frames).free_count_spec() + old(self).areas()[idx].frames().len()
                &&& forall|vpn: usize|
                    old(self).areas()[idx].contains(vpn) ==> !(#[trigger] final(self).page_table().mapped(vpn))
                &&& forall|p: usize|
                    old(frames).in_range(p) ==> #[trigger] final(frames).page(p) == old(frames).page(
                        p,
                    )
            },
    {
        match self.find_area_by_range(start_vpn, end_vpn) {
            None => false,
            Some(idx) => {
                if self.area_is_framed(idx) {
                    self.remove_area_at(idx, frames);
                    true
                } else {
                    false
                }
            },
        }
    }

    /// The areas of an address space are pairwise disjoint, and the pages
    /// with a valid leaf entry are those of the areas: a page has a valid
    /// entry exactly when it lies in an area, and one open to user mode
    /// exactly when it lies in an area open to user mode.
    pub proof fn lemma_areas_cover(&self)
        requires
            self.wf(),
        ensures
            self.areas_disjoint(),
            forall|vpn: usize| #[trigger] self.page_table().mapped(vpn) <==> self.in_some_area(vpn),
            forall|vpn: usize|
                (#[trigger] self.page_table().pte(vpn)).user_valid() <==> exists|i: int|
                    0 <= i < self.areas().len() && (#[trigger] self.areas()[i]).contains(vpn)
                        && self.areas()[i].perm().u,
    {
        assert forall|vpn: usize| self.in_some_area(vpn) implies #[trigger] self.page_table().mapped(
            vpn,
        ) by {
            let i = choose|i: int| 0 <= i < self.areas().len() && (#[trigger] self.areas()[i]).contains(vpn);
            assert(self.page_table().pte(vpn) == self.areas()[i].pte_of(vpn));
        }
        assert forall|vpn: usize|
            (#[trigger] self.page_table().pte(vpn)).user_valid() <==> exists|i: int|
                0 <= i < self.areas().len() && (#[trigger] self.areas()[i]).contains(vpn)
                    && self.areas()[i].perm().u by {
            if self.page_table().pte(vpn).user_valid() {
                assert(self.page_table().mapped(vpn));
                let i = choose|i: int|
                    0 <= i < self.areas().len() && (#[trigger] self.areas()[i]).contains(vpn);
                assert(self.page_table().pte(vpn) == self.areas()[i].pte_of(vpn));
            }
            if exists|i: int|
                0 <= i < self.areas().len() && (#[trigger] self.areas()[i]).contains(vpn)
                    && self.areas()[i].perm().u {
                let i = choose|i: int|
                    0 <= i < self.areas().len() && (#[trigger] self.areas()[i]).contains(vpn)
                        && self.areas()[i].perm().u;
                assert(self.page_table().pte(vpn) == self.areas()[i].pte_of(vpn));
            }
        }
    }

    /// No frame backs two pages of an address space.
    pub proof fn lemma_frame_once(&self, i: int, a: int, j: int, b: int)
        requires
            self.wf(),
            0 <= i < self.areas().len(),
            0 <= a < self.areas()[i].frames().len(),
            0 <= j < self.areas().len(),
            0 <= b < self.areas()[j].frames().len(),
            i != j || a != b,
        ensures
            self.areas()[i].frames()[a] != self.areas()[j].frames()[b],
    {
    }

    /// A range that was just mapped can be unmapped once: with the area
    /// over the pages `[start_vpn, end_vpn)` at the end of the list, the
    /// range can be unmapped, and once that area is gone it cannot. The
    /// range must hold a page: two empty areas may have the same bounds.
    pub proof fn lemma_unmap_once(&self, mapped: Self, unmapped: Self, start_vpn: usize, end_vpn: usize)
        requires
            mapped.wf(),
            start_vpn < end_vpn,
            mapped.areas().len() == self.areas().len() + 1,
            mapped.areas().drop_last() == self.areas(),
            mapped.areas().last().start() == start_vpn,
            mapped.areas().last().end() == end_vpn,
            mapped.areas().last().map_type() is Framed,
            mapped.can_unmap(start_vpn, end_vpn) ==> unmapped.areas() == mapped.areas().remove(
                mapped.index_by_range(start_vpn, end_vpn).unwrap(),
            ),
        ensures
            mapped.can_unmap(start_vpn, end_vpn),
            !unmapped.can_unmap(start_vpn, end_vpn),
    {
        let last = self.areas().len() as int;
        mapped.lemma_range_from(start_vpn, end_vpn, 0);
        assert(mapped.areas()[last].start() == start_vpn);
        let idx = mapped.index_by_range(start_vpn, end_vpn).unwrap();
        if idx != last {
            assert(mapped.areas()[idx].contains(start_vpn));
            assert(mapped.areas()[last].contains(start_vpn));
        }
        unmapped.lemma_range_from(start_vpn, end_vpn, 0);
        if unmapped.index_by_range(start_vpn, end_vpn).is_some() {
            let other = unmapped.index_by_range(start_vpn, end_vpn).unwrap();
            assert(unmapped.areas()[other] == mapped.areas()[other]);
            assert(mapped.areas()[other].contains(start_vpn));
            assert(mapped.areas()[last].contains(start_vpn));
        }
    }

    /// Inserts a framed area over `[start_vpn, end_vpn)` above everything
    /// that is mapped, with frames in hand for what the area can cost.
    /// What user mode saw before, it sees as before.
    fn push_fresh(
        &mut self,
        start_vpn: usize,
        end_vpn: usize,
        perm: MapPermission,
        frames: &mut FrameAllocator,
    )
        requires
            old(self).wf(),
            old(frames).wf(),
            old(self).frames_allocated(*old(frames)),
            start_vpn <= end_vpn <= VPN_LIMIT,
            forall|vpn: usize| vpn >= start_vpn ==> !(#[trigger] old(self).page_table().mapped(vpn)),
            old(frames).free_count_spec() >= (end_vpn - start_vpn) + old(self).page_table().missing_tables(start_vpn, end_vpn),
        ensures
            final(self).wf(),
            final(frames).wf(),
            final(self).frames_allocated(*final(frames)),
            final(self).areas() == old(self).areas().push(final(self).areas().last()),
            final(self).areas().last().start() == start_vpn,
            final(self).areas().last().end() == end_vpn,
            final(self).areas().last().map_type() is Framed,
            final(self).areas().last().perm() == perm,
            final(self).conserves(*old(self), *final(frames), *old(frames)),
            final(frames).free_count_spec() == old(frames).free_count_spec() - (end_vpn - start_vpn) - old(self).page_table().missing_tables(start_vpn, end_vpn),
            final(self).page_table().nodes() == old(self).page_table().nodes().with_span(start_vpn, end_vpn),
            forall|vpn: usize| vpn >= end_vpn ==> !(#[trigger] final(self).page_table().mapped(vpn)),
            forall|vpn: usize|
                start_vpn <= vpn < end_vpn ==> (#[trigger] final(self).page_table().pte(
                    vpn,
                )).flags == perm.pte_flags(),
            final(self).sees_as(*old(self), *final(frames), *old(frames)),
            forall|vpn: usize|
                vpn < start_vpn ==> #[trigger] final(self).page_table().pte(vpn) == old(self).page_table().pte(vpn),
            forall|va: usize|
                final(self).user_ok(va) && !old(self).user_ok(va) ==> #[trigger] final(self).user_byte(
                    *final(frames),
                    va,
                ) == 0,
    {
        let ghost before = *self;
        let ghost frames_before = *frames;
        let ok = self.insert_area(start_vpn, end_vpn, MapType::Framed, perm, frames);
        assert(ok);
        proof {
            let last = before.areas().len() as int;
            assert(self.areas()[last] == self.areas().last());
            assert forall|vpn: usize| start_vpn <= vpn < end_vpn implies (
            #[trigger] self.page_table().pte(vpn)).flags == perm.pte_flags() by {
                assert(self.areas()[last].contains(vpn));
            }
            assert forall|vpn: usize| vpn >= end_vpn implies !(#[trigger] self.page_table().mapped(
                vpn,
            )) by {
                assert(self.page_table().pte(vpn) == before.page_table().pte(vpn));
                assert(!before.page_table().mapped(vpn));
            }
            assert forall|va: usize| before.user_ok(va) implies #[trigger] self.user_ok(va)
                && self.user_byte(*frames, va) == before.user_byte(frames_before, va) by {
                assert(before.page_table().mapped(va_floor(va)));
                assert(self.page_table().pte(va_floor(va)) == before.page_table().pte(va_floor(va)));
                before.lemma_user_frame(va);
                assert(before.owns(before.user_frame(va)));
            }
            assert forall|va: usize|
                self.user_ok(va) && !before.user_ok(va) implies #[trigger] self.user_byte(*frames, va)
                == 0 by {
                let v = va_floor(va);
                if !(start_vpn <= v < end_vpn) {
                    assert(self.page_table().pte(v) == before.page_table().pte(v));
                }
                assert(self.areas()[last].contains(v));
                assert(self.areas()[last].wf());
                assert(self.page_table().pte(v) == self.areas()[last].pte_of(v));
                let k = v - start_vpn;
                assert(frames.page(self.areas().last().frames()[k]) == zero_page());
            }
        }
    }

    /// Whether user mode sees in `self` everything that it saw in
    /// `before`, unchanged.
    pub open spec fn sees_as(
        &self,
        before: Self,
        frames_after: FrameAllocator,
        frames_before: FrameAllocator,
    ) -> bool {
        forall|va: usize|
            before.user_ok(va) ==> #[trigger] self.user_ok(va) && self.user_byte(frames_after, va)
                == before.user_byte(frames_before, va)
    }

    /// Whether user mode sees, wherever it may look, what the image puts
    /// there: the data of the segments, and zero bytes elsewhere.
    pub open spec fn shows_image(&self, image: AppImage, frames: FrameAllocator) -> bool {
        forall|va: usize| self.user_ok(va) ==> #[trigger] self.user_byte(frames, va) == image.byte_at(va)
    }

    /// Whether every byte that user mode may touch now and could not
    /// touch in `before` is zero.
    pub open spec fn zero_where_new(&self, before: Self, frames: FrameAllocator) -> bool {
        forall|va: usize|
            self.user_ok(va) && !before.user_ok(va) ==> #[trigger] self.user_byte(frames, va) == 0
    }

    /// Whether user mode sees the bytes `data` at `ptr`.
    pub open spec fn holds_at(&self, frames: FrameAllocator, ptr: usize, data: Seq<u8>) -> bool {
        &&& ptr + data.len() <= usize::MAX
        &&& forall|va: usize| ptr <= va < ptr + data.len() ==> #[trigger] self.user_ok(va)
        &&& self.user_bytes(frames, ptr, data.len()) == data
    }

    /// What user mode sees stays where the address space sees as before.
    pub proof fn lemma_holds_kept(
        &self,
        before: Self,
        frames_after: FrameAllocator,
        frames_before: FrameAllocator,
        ptr: usize,
        data: Seq<u8>,
    )
        requires
            before.holds_at(frames_before, ptr, data),
            self.sees_as(before, frames_after, frames_before),
        ensures
            self.holds_at(frames_after, ptr, data),
    {
        assert forall|va: usize| ptr <= va < ptr + data.len() implies #[trigger] self.user_ok(va) by {
            assert(before.user_ok(va));
        }
        assert forall|k: int| 0 <= k < data.len() implies self.user_bytes(
            frames_after,
            ptr,
            data.len(),
        )[k] == data[k] by {
            let va = (ptr + k) as usize;
            assert(before.user_ok(va));
            assert(self.user_ok(va));
            assert(before.user_bytes(frames_before, ptr, data.len())[k] == data[k]);
        }
        assert(self.user_bytes(frames_after, ptr, data.len()) =~= data);
    }

    /// Inserts the area of a segment above everything that is mapped, and
    /// writes its data at its start.
    fn load_segment(
        &mut self,
        start_va: usize,
        end_va: usize,
        perm: MapPermission,
        data: &Vec<u8>,
        frames: &mut FrameAllocator,
    )
        requires
            old(self).wf(),
            old(frames).wf(),
            old(self).frames_allocated(*old(frames)),
            start_va + data@.len() <= end_va,
            va_ceil(end_va) <= VPN_LIMIT,
            forall|vpn: usize|
                vpn >= va_floor(start_va) ==> !(#[trigger] old(self).page_table().mapped(vpn)),
            old(frames).free_count_spec() >= (va_ceil(end_va) - va_floor(start_va)) + old(self).page_table().missing_tables(va_floor(start_va), va_ceil(end_va)),
        ensures
            final(self).wf(),
            final(frames).wf(),
            final(self).frames_allocated(*final(frames)),
            final(self).areas() == old(self).areas().push(final(self).areas().last()),
            final(self).areas().last().start() == va_floor(start_va),
            final(self).areas().last().end() == va_ceil(end_va),
            final(self).areas().last().map_type() is Framed,
            final(self).areas().last().perm() == perm.with_user(),
            final(self).conserves(*old(self), *final(frames), *old(frames)),
            final(frames).free_count_spec() == old(frames).free_count_spec() - (va_ceil(end_va) - va_floor(start_va)) - old(self).page_table().missing_tables(va_floor(start_va), va_ceil(end_va)),
            final(self).page_table().nodes() == old(self).page_table().nodes().with_span(va_floor(start_va), va_ceil(end_va)),
            forall|vpn: usize|
                vpn >= va_ceil(end_va) ==> !(#[trigger] final(self).page_table().mapped(vpn)),
            final(self).sees_as(*old(self), *final(frames), *old(frames)),
            final(self).holds_at(*final(frames), start_va, data@),
            forall|vpn: usize|
                vpn < va_floor(start_va) ==> #[trigger] final(self).page_table().pte(vpn) == old(self).page_table().pte(vpn),
            forall|va: usize|
                final(self).user_ok(va) && !old(self).user_ok(va) && !(start_va <= va < start_va
                    + data@.len()) ==> #[trigger] final(self).user_byte(*final(frames), va) == 0,
    {
        let ghost before = *self;
        let ghost frames_before = *frames;
        let start: usize = floor_page(start_va);
        let end: usize = ceil_page(end_va);
        let perm_u = MapPermission { r: perm.r, w: perm.w, x: perm.x, u: true };
        self.push_fresh(start, end, perm_u, frames);
        let ghost frames_mid = *frames;
        proof {
            assert forall|va: usize| start_va <= va < start_va + data@.len() implies #[trigger] self.user_ok(
                va,
            ) by {
                assert(start <= va_floor(va) < end);
                assert(self.page_table().pte(va_floor(va)).flags == perm_u.pte_flags());
            }
        }
        let ok = self.write_user_bytes(frames, start_va, data);
        assert(ok);
        proof {
            frames_before.lemma_wf();
            frames_mid.lemma_wf();
            assert forall|p: usize|
                frames_before.is_allocated(p) && !before.owns(p) implies #[trigger] frames.page(p)
                == frames_before.page(p) by {
                assert(!frames_mid.is_free(p));
                assert(!self.owns(p));
                assert(!self.owns_data(p));
            }
            assert forall|va: usize| before.user_ok(va) implies #[trigger] self.user_ok(va)
                && self.user_byte(*frames, va) == before.user_byte(frames_before, va) by {
                assert(before.page_table().mapped(va_floor(va)));
                assert(va_floor(va) < start);
                assert(self.user_ok(va));
                assert(self.user_byte(frames_mid, va) == before.user_byte(frames_before, va));
            }
            assert forall|va: usize|
                self.user_ok(va) && !before.user_ok(va) && !(start_va <= va < start_va
                    + data@.len()) implies #[trigger] self.user_byte(*frames, va) == 0 by {
                assert(self.user_byte(frames_mid, va) == 0);
            }
        }
    }

    /// Whether the areas are those of the image: one framed area per
    /// segment, open to user mode with the permissions of the segment; the
    /// user stack, readable and writable; and the page of the trap
    /// context, readable and writable but closed to user mode.
    pub open spec fn laid_out_as(&self, image: AppImage) -> bool {
        let n = image.segments@.len() as int;
        &&& self.areas().len() == n + 2
        &&& forall|i: int|
            0 <= i < n ==> {
                &&& (#[trigger] self.areas()[i]).start() == va_floor(image.segments@[i].start_va)
                &&& self.areas()[i].end() == va_ceil(image.segments@[i].end_va)
                &&& self.areas()[i].map_type() is Framed
                &&& self.areas()[i].perm() == image.segments@[i].perm.with_user()
            }
        &&& self.areas()[n].start() == image.stack_bottom()
        &&& self.areas()[n].end() == image.stack_top()
        &&& self.areas()[n].map_type() is Framed
        &&& self.areas()[n].perm() == (MapPermission { r: true, w: true, x: false, u: true })
        &&& self.areas()[n + 1].start() == TRAP_CONTEXT_VPN
        &&& self.areas()[n + 1].end() == TRAP_CONTEXT_VPN + 1
        &&& self.areas()[n + 1].map_type() is Framed
        &&& self.areas()[n + 1].perm() == (MapPermission { r: true, w: true, x: false, u: false })
    }

    /// Loads the segments of an image into an address space without a
    /// mapping, one area each, in order.
    #[verifier::rlimit(50)]
    fn load_segments(&mut self, image: &AppImage, frames: &mut FrameAllocator)
        requires
            old(self).wf(),
            old(frames).wf(),
            old(self).frames_allocated(*old(frames)),
            old(self).areas().len() == 0,
            forall|vpn: usize| !(#[trigger] old(self).page_table().mapped(vpn)),
            old(self).page_table().nodes() == Nodes::none(),
            image.wf(),
            old(frames).free_count_spec() >= image.cost() - 1,
        ensures
            final(self).wf(),
            final(frames).wf(),
            final(self).frames_allocated(*final(frames)),
            final(self).conserves(*old(self), *final(frames), *old(frames)),
            final(self).areas().len() == image.segments@.len(),
            forall|j: int|
                0 <= j < image.segments@.len() ==> {
                    &&& (#[trigger] final(self).areas()[j]).start() == va_floor(
                        image.segments@[j].start_va,
                    )
                    &&& final(self).areas()[j].end() == va_ceil(image.segments@[j].end_va)
                    &&& final(self).areas()[j].map_type() is Framed
                    &&& final(self).areas()[j].perm() == image.segments@[j].perm.with_user()
                },
            forall|vpn: usize|
                vpn >= image.top_of(image.segments@.len() as int) ==> !(#[trigger] final(self).page_table().mapped(vpn)),
            final(frames).free_count_spec() >= image.cost() - 1 - image.segments_cost(
                image.segments@.len() as int,
            ),
            final(self).page_table().nodes() == image.nodes_upto(image.segments@.len() as int),
            forall|j: int|
                0 <= j < image.segments@.len() ==> final(self).holds_at(
                    *final(frames),
                    (#[trigger] image.segments@[j]).start_va,
                    image.segments@[j].data@,
                ),
            final(self).shows_image(*image, *final(frames)),
    {
        let ghost ms0 = *self;
        let ghost frames0 = *frames;
        let n: usize = image.segments.len();
        let mut i: usize = 0;
        proof {
            self.lemma_conserves_refl(*frames);
            assert forall|va: usize| self.user_ok(va) implies #[trigger] self.user_byte(*frames, va)
                == image.byte_upto(va, 0) by {
                assert(!self.page_table().mapped(va_floor(va)));
            }
        }
        while i < n
            invariant
                i <= n,
                n == image.segments@.len(),
                image.wf(),
                frames0.wf(),
                self.wf(),
                frames.wf(),
                self.frames_allocated(*frames),
                self.conserves(ms0, *frames, frames0),
                self.areas().len() == i,
                forall|j: int|
                    0 <= j < i ==> {
                        &&& (#[trigger] self.areas()[j]).start() == va_floor(
                            image.segments@[j].start_va,
                        )
                        &&& self.areas()[j].end() == va_ceil(image.segments@[j].end_va)
                        &&& self.areas()[j].map_type() is Framed
                        &&& self.areas()[j].perm() == image.segments@[j].perm.with_user()
                    },
                forall|vpn: usize|
                    vpn >= image.top_of(i as int) ==> !(#[trigger] self.page_table().mapped(vpn)),
                frames.free_count_spec() >= image.cost() - 1 - image.segments_cost(i as int),
                self.page_table().nodes() == image.nodes_upto(i as int),
                forall|j: int|
                    0 <= j < i ==> self.holds_at(
                        *frames,
                        (#[trigger] image.segments@[j]).start_va,
                        image.segments@[j].data@,
                    ),
                forall|va: usize|
                    self.user_ok(va) ==> #[trigger] self.user_byte(*frames, va) == image.byte_upto(
                        va,
                        i as int,
                    ),
            decreases n - i,
        {
            let seg = &image.segments[i];
            let ghost prev = *self;
            let ghost frames_prev = *frames;
            proof {
                assert(image.segments_wf(n as int));
                assert(image.segments@[i as int].start_va + image.segments@[i as int].data@.len()
                    <= image.segments@[i as int].end_va);
                image.lemma_cost_grows(i as int + 1, n as int);
                image.lemma_cost_rest();
                self.page_table().lemma_missing_nodes(va_floor(seg.start_va), va_ceil(seg.end_va));
            }
            self.load_segment(seg.start_va, seg.end_va, seg.perm, &seg.data, frames);
            proof {
                self.lemma_conserves_trans(prev, ms0, *frames, frames_prev, frames0);
                assert forall|va: usize| self.user_ok(va) implies #[trigger] self.user_byte(*frames, va)
                    == image.byte_upto(va, i as int + 1) by {
                    let covered = seg.start_va <= va < seg.start_va + seg.data@.len();
                    if prev.user_ok(va) {
                        assert(prev.page_table().mapped(va_floor(va)));
                        assert(va_floor(va) < image.top_of(i as int));
                        assert(!covered);
                        assert(self.user_byte(*frames, va) == prev.user_byte(frames_prev, va));
                    } else if covered {
                        let k = va - seg.start_va;
                        assert(self.user_bytes(*frames, seg.start_va, seg.data@.len())[k]
                            == seg.data@[k]);
                    } else {
                        assert(self.user_byte(*frames, va) == 0);
                        if va_floor(va) < va_floor(seg.start_va) {
                            assert(self.page_table().pte(va_floor(va)) == prev.page_table().pte(
                                va_floor(va),
                            ));
                        }
                        assert(image.top_of(i as int) <= va_floor(seg.start_va));
                        image.lemma_byte_above(va, i as int);
                    }
                }
                assert forall|j: int| 0 <= j < i + 1 implies self.holds_at(
                    *frames,
                    (#[trigger] image.segments@[j]).start_va,
                    image.segments@[j].data@,
                ) by {
                    if j < i {
                        self.lemma_holds_kept(
                            prev,
                            *frames,
                            frames_prev,
                            image.segments@[j].start_va,
                            image.segments@[j].data@,
                        );
                    }
                }
                assert forall|j: int| 0 <= j < i + 1 implies {
                    &&& (#[trigger] self.areas()[j]).start() == va_floor(image.segments@[j].start_va)
                    &&& self.areas()[j].end() == va_ceil(image.segments@[j].end_va)
                    &&& self.areas()[j].map_type() is Framed
                    &&& self.areas()[j].perm() == image.segments@[j].perm.with_user()
                } by {
                    if j < i {
                        assert(self.areas()[j] == prev.areas()[j]);
                    } else {
                        assert(self.areas()[j] == self.areas().last());
                    }
                }
            }
            i = i + 1;
        }
    }

    /// Builds the address space of an application: a framed area with the
    /// data of each segment, the user stack one page above the segments,
    /// and the page of the trap context. Returns the address space, the
    /// top of the user stack and the entry point; `None`, with no frame
    /// taken, exactly when the image cannot be laid out or costs more
    /// frames than are free.
    pub fn from_elf(image: &AppImage, frames: &mut FrameAllocator) -> (r: Option<(Self, usize, usize)>)
        requires
            old(frames).wf(),
        ensures
            final(frames).wf(),
            r.is_some() == (image.wf() && old(frames).free_count_spec() >= image.cost()),
            r.is_none() ==> *final(frames) == *old(frames),
            r.is_some() ==> {
                let (ms, user_sp, entry) = r.unwrap();
                &&& ms.wf()
                &&& ms.frames_allocated(*final(frames))
                &&& ms.born_from(*final(frames), *old(frames))
                &&& ms.laid_out_as(*image)
                &&& user_sp == image.stack_top() * PAGE_SIZE
                &&& entry == image.entry
                &&& forall|i: int|
                    0 <= i < image.segments@.len() ==> ms.holds_at(
                        *final(frames),
                        (#[trigger] image.segments@[i]).start_va,
                        image.segments@[i].data@,
                    )
                &&& ms.shows_image(*image, *final(frames))
            },
    {
        let ghost frames0 = *frames;
        let cost: usize = match image.check() {
            None => {
                return None;
            },
            Some(cost) => cost,
        };
        proof {
            frames.lemma_wf();
            image.lemma_cost_grows(0, image.segments@.len() as int);
            image.lemma_cost_rest();
        }
        if frames.free_count() < cost {
            return None;
        }
        let mut ms: MemorySet = match MemorySet::new_bare(frames) {
            Some(ms) => ms,
            None => {
                return None;
            },
        };
        let ghost ms_bare = ms;
        let ghost frames_bare = *frames;
        ms.load_segments(image, frames);
        let bottom: usize = ceil_top(image) + 1;
        let top: usize = bottom + USER_STACK_PAGES;
        let ghost ms_segs = ms;
        let ghost frames_segs = *frames;
        proof {
            ms.page_table().lemma_missing_nodes(bottom, top);
        }
        ms.push_fresh(bottom, top, MapPermission { r: true, w: true, x: false, u: true }, frames);
        let ghost ms_stack = ms;
        let ghost frames_stack = *frames;
        proof {
            ms.page_table().lemma_missing_nodes(TRAP_CONTEXT_VPN, (TRAP_CONTEXT_VPN + 1) as usize);
        }
        ms.push_fresh(
            TRAP_CONTEXT_VPN,
            TRAP_CONTEXT_VPN + 1,
            MapPermission { r: true, w: true, x: false, u: false },
            frames,
        );
        proof {
            let n = image.segments@.len() as int;
            ms_segs.lemma_born_conserves(ms_bare, frames_segs, frames_bare, frames0);
            ms_stack.lemma_born_conserves(ms_segs, frames_stack, frames_segs, frames0);
            ms.lemma_born_conserves(ms_stack, *frames, frames_stack, frames0);
            assert forall|j: int| 0 <= j < n implies ms.holds_at(
                *frames,
                (#[trigger] image.segments@[j]).start_va,
                image.segments@[j].data@,
            ) by {
                ms_stack.lemma_holds_kept(
                    ms_segs,
                    frames_stack,
                    frames_segs,
                    image.segments@[j].start_va,
                    image.segments@[j].data@,
                );
                ms.lemma_holds_kept(
                    ms_stack,
                    *frames,
                    frames_stack,
                    image.segments@[j].start_va,
                    image.segments@[j].data@,
                );
            }
            assert forall|va: usize| ms.user_ok(va) implies #[trigger] ms.user_byte(*frames, va)
                == image.byte_at(va) by {
                if ms_segs.user_ok(va) {
                    assert(ms_stack.user_ok(va));
                    assert(ms_stack.user_byte(frames_stack, va) == ms_segs.user_byte(frames_segs, va));
                    assert(ms.user_byte(*frames, va) == ms_stack.user_byte(frames_stack, va));
                } else if ms_stack.user_ok(va) {
                    assert(ms_stack.user_byte(frames_stack, va) == 0);
                    assert(ms.user_byte(*frames, va) == ms_stack.user_byte(frames_stack, va));
                    assert(ms_stack.page_table().mapped(va_floor(va)));
                    assert(va_floor(va) >= image.top_of(n)) by {
                        if va_floor(va) < bottom {
                            assert(ms_stack.page_table().pte(va_floor(va)) == ms_segs.page_table().pte(
                                va_floor(va),
                            ));
                        }
                    }
                    assert(image.segments_wf(n));
                    image.lemma_byte_above(va, n);
                } else {
                    assert(ms.user_byte(*frames, va) == 0);
                    assert(ms.page_table().mapped(va_floor(va)));
                    assert(va_floor(va) >= image.top_of(n)) by {
                        if va_floor(va) < TRAP_CONTEXT_VPN {
                            assert(ms.page_table().pte(va_floor(va)) == ms_stack.page_table().pte(
                                va_floor(va),
                            ));
                        }
                    }
                    assert(image.segments_wf(n));
                    image.lemma_byte_above(va, n);
                }
            }
            assert(ms.areas()[n] == ms_stack.areas()[n]);
            assert(ms_stack.areas()[n] == ms_stack.areas().last());
            assert(ms.areas()[n + 1] == ms.areas().last());
            assert forall|j: int| 0 <= j < n implies (#[trigger] ms.areas()[j]) == ms_segs.areas()[j] by {
                assert(ms_stack.areas()[j] == ms_segs.areas()[j]);
            }
        }
        let user_sp: usize = top * PAGE_SIZE;
        Some((ms, user_sp, image.entry))
    }

    /// The page-table nodes that the first `n` areas need.
    pub open spec fn nodes_upto(&self, n: int) -> Nodes
        decreases n,
    {
        if n <= 0 {
            Nodes::none()
        } else {
            self.nodes_upto(n - 1).with_span(self.areas()[n - 1].start(), self.areas()[n - 1].end())
        }
    }

    /// How many frames copies of the first `n` areas cost: their pages,
    /// and the page-table nodes that they need, each node once.
    pub open spec fn areas_cost(&self, n: int) -> int
        decreases n,
    {
        if n <= 0 {
            0
        } else {
            self.areas_cost(n - 1) + Self::data_need(
                self.areas()[n - 1].start(),
                self.areas()[n - 1].end(),
                self.areas()[n - 1].map_type(),
            ) + self.nodes_upto(n - 1).missing(self.areas()[n - 1].start(), self.areas()[n - 1].end())
        }
    }

    /// How many frames a copy of the address space costs: the root of the
    /// page table, the pages of the areas, and the page-table nodes that
    /// the areas need, each node once.
    pub open spec fn clone_cost(&self) -> int {
        1 + self.areas_cost(self.areas().len() as int)
    }

    /// The cost grows with the areas counted.
    pub proof fn lemma_areas_cost_grows(&self, i: int, n: int)
        requires
            self.wf(),
            0 <= i <= n <= self.areas().len(),
        ensures
            0 <= self.areas_cost(i) <= self.areas_cost(n),
        decreases n,
    {
        if i < n {
            self.lemma_areas_cost_grows(i, n - 1);
            assert(self.areas()[n - 1].wf());
            self.nodes_upto(n - 1).lemma_missing_bound(
                self.areas()[n - 1].start(),
                self.areas()[n - 1].end(),
            );
        } else if n > 0 {
            self.lemma_areas_cost_grows(i - 1, n - 1);
            assert(self.areas()[n - 1].wf());
            self.nodes_upto(n - 1).lemma_missing_bound(
                self.areas()[n - 1].start(),
                self.areas()[n - 1].end(),
            );
        }
    }

    /// Computes `clone_cost`; `None` where it cannot be written down.
    pub fn count_clone_cost(&self) -> (r: Option<usize>)
        requires
            self.wf(),
        ensures
            r.is_some() == (self.clone_cost() <= usize::MAX),
            r.is_some() ==> r.unwrap() == self.clone_cost(),
    {
        let n: usize = self.areas.len();
        let mut cost: usize = 1;
        let mut seen = NodeMap::new();
        let mut i: usize = 0;
        proof {
            self.lemma_areas_cost_grows(0, n as int);
        }
        while i < n
            invariant
                self.wf(),
                i <= n,
                n == self.areas().len(),
                cost == 1 + self.areas_cost(i as int),
                seen.wf(),
                seen.nodes() == self.nodes_upto(i as int),
            decreases n - i,
        {
            let area = &self.areas[i];
            proof {
                self.lemma_wf();
                assert(self.areas()[i as int].wf());
            }
            let pages: usize = match area.map_type {
                MapType::Framed => area.end_vpn - area.start_vpn,
                MapType::Identical => 0,
            };
            let nodes: usize = seen.cover(area.start_vpn, area.end_vpn);
            assert(nodes <= 0x50000) by {
                assert(crate::mm::page_table::table_span(area.start_vpn, area.end_vpn) <= 0x50000)
                    by (nonlinear_arith)
                    requires
                        area.start_vpn <= area.end_vpn <= 0x800_0000,
                ;
            }
            let term: usize = pages + nodes;
            if cost > usize::MAX - term {
                proof {
                    self.lemma_areas_cost_grows(i as int + 1, n as int);
                }
                return None;
            }
            cost = cost + term;
            i = i + 1;
        }
        Some(cost)
    }

    /// Whether the areas have the bounds, kinds and permissions of those
    /// of `other`, in order.
    pub open spec fn same_layout(&self, other: Self) -> bool {
        &&& self.areas().len() == other.areas().len()
        &&& forall|i: int|
            0 <= i < self.areas().len() ==> (#[trigger] self.areas()[i]).same_shape(other.areas()[i])
    }

    /// Copies the pages of area `idx` of `src` to the last area of `self`,
    /// which has the same shape.
    fn copy_area_pages(&self, src: &Self, idx: usize, frames: &mut FrameAllocator)
        requires
            self.wf(),
            src.wf(),
            old(frames).wf(),
            self.frames_allocated(*old(frames)),
            src.frames_allocated(*old(frames)),
            idx < src.areas().len(),
            self.areas().len() > 0,
            self.areas().last().same_shape(src.areas()[idx as int]),
            forall|p: usize| !(#[trigger] self.owns(p) && src.owns(p)),
        ensures
            final(frames).wf(),
            final(frames).same_frames(*old(frames)),
            forall|a: int|
                0 <= a < src.areas()[idx as int].frames().len() ==> final(frames).page(
                    #[trigger] self.areas().last().frames()[a],
                ) == old(frames).page(src.areas()[idx as int].frames()[a]),
            forall|p: usize|
                old(frames).in_range(p) && !self.areas().last().frames().contains(p)
                    ==> #[trigger] final(frames).page(p) == old(frames).page(p),
    {
        let ghost frames0 = *frames;
        let last: usize = self.areas.len() - 1;
        let n: usize = src.areas[idx].data_frames.len();
        let ghost from = src.areas()[idx as int];
        let ghost to = self.areas()[last as int];
        proof {
            assert(from.wf());
            assert(to.wf());
            assert(to == self.areas().last());
        }
        let mut a: usize = 0;
        while a < n
            invariant
                a <= n,
                n == from.frames().len(),
                n == to.frames().len(),
                self.wf(),
                src.wf(),
                frames0.wf(),
                frames.wf(),
                frames.same_frames(frames0),
                self.frames_allocated(frames0),
                src.frames_allocated(frames0),
                idx < src.areas().len(),
                last == self.areas().len() - 1,
                from == src.areas()[idx as int],
                to == self.areas()[last as int],
                forall|p: usize| !(#[trigger] self.owns(p) && src.owns(p)),
                forall|b: int|
                    0 <= b < a ==> frames.page(#[trigger] to.frames()[b]) == frames0.page(
                        from.frames()[b],
                    ),
                forall|p: usize|
                    frames0.in_range(p) && !to.frames().contains(p) ==> #[trigger] frames.page(p)
                        == frames0.page(p),
            decreases n - a,
        {
            let from_ppn: usize = src.areas[idx].data_frames[a];
            let to_ppn: usize = self.areas[last].data_frames[a];
            let ghost prev = *frames;
            proof {
                assert(src.areas()[idx as int].frames()[a as int] == from_ppn);
                assert(self.areas()[last as int].frames()[a as int] == to_ppn);
                assert(src.owns_data(from_ppn));
                assert(self.owns_data(to_ppn));
                assert(src.owns(from_ppn));
                assert(self.owns(to_ppn));
                assert(frames0.is_allocated(from_ppn));
                assert(frames0.is_allocated(to_ppn));
                assert(!to.frames().contains(from_ppn)) by {
                    if to.frames().contains(from_ppn) {
                        let b = choose|b: int| 0 <= b < to.frames().len() && to.frames()[b] == from_ppn;
                        assert(self.areas()[last as int].frames()[b] == from_ppn);
                        assert(self.owns_data(from_ppn));
                        assert(self.owns(from_ppn));
                    }
                }
            }
            frames.copy_page(from_ppn, to_ppn);
            proof {
                self.lemma_wf();
                assert forall|b: int| 0 <= b < a + 1 implies frames.page(#[trigger] to.frames()[b])
                    == frames0.page(from.frames()[b]) by {
                    if b < a {
                        assert(self.areas()[last as int].frames()[b]
                            != self.areas()[last as int].frames()[a as int]);
                        assert(prev.page(to.frames()[b]) == frames0.page(from.frames()[b]));
                        assert(self.owns_data(to.frames()[b]));
                        assert(self.owns(to.frames()[b]));
                        assert(frames0.is_allocated(to.frames()[b]));
                    }
                }
                assert forall|p: usize|
                    frames0.in_range(p) && !to.frames().contains(p) implies #[trigger] frames.page(p)
                    == frames0.page(p) by {
                    assert(to.frames()[a as int] == to_ppn);
                }
            }
            a = a + 1;
        }
    }

    /// Makes a copy of the address space with frames of its own: the same
    /// areas over a new page table, every page of a framed area with the
    /// bytes of the page it is a copy of. `None`, with no frame taken,
    /// exactly when the copy costs more frames than are free.
    pub fn clone_cow_free(&self, frames: &mut FrameAllocator) -> (r: Option<Self>)
        requires
            self.wf(),
            old(frames).wf(),
            self.frames_allocated(*old(frames)),
        ensures
            final(frames).wf(),
            self.frames_allocated(*final(frames)),
            r.is_some() == (old(frames).free_count_spec() >= self.clone_cost()),
            r.is_none() ==> *final(frames) == *old(frames),
            r.is_some() ==> {
                let copy = r.unwrap();
                &&& copy.wf()
                &&& copy.frames_allocated(*final(frames))
                &&& copy.born_from(*final(frames), *old(frames))
                &&& copy.same_layout(*self)
                &&& forall|p: usize| !(#[trigger] copy.owns(p) && self.owns(p))
                &&& forall|i: int, a: int|
                    0 <= i < self.areas().len() && 0 <= a < self.areas()[i].frames().len()
                        ==> final(frames).page(#[trigger] copy.areas()[i].frames()[a]) == old(frames).page(self.areas()[i].frames()[a])
                &&& copy.sees_as(*self, *final(frames), *old(frames))
            },
    {
        let ghost frames0 = *frames;
        proof {
            frames.lemma_wf();
            self.lemma_areas_cost_grows(0, self.areas().len() as int);
        }
        let free: usize = frames.free_count();
        let cost: usize = match self.count_clone_cost() {
            None => {
                return None;
            },
            Some(cost) => cost,
        };
        if free < cost {
            return None;
        }
        let mut copy: MemorySet = match MemorySet::new_bare(frames) {
            Some(copy) => copy,
            None => {
                return None;
            },
        };
        proof {
            frames0.lemma_wf();
            assert forall|p: usize| !(#[trigger] copy.owns(p) && self.owns(p)) by {
                if copy.owns(p) && self.owns(p) {
                    assert(frames0.is_allocated(p));
                    assert(copy.owns(p) || frames.is_free(p) <==> frames0.is_free(p));
                }
            }
            assert forall|p: usize| #[trigger] self.owns(p) implies frames.is_allocated(p) by {
                assert(frames0.is_allocated(p));
                assert(copy.owns(p) || frames.is_free(p) <==> frames0.is_free(p));
            }
        }
        let n: usize = self.areas.len();
        let mut i: usize = 0;
        while i < n
            invariant
                i <= n,
                n == self.areas().len(),
                self.wf(),
                frames0.wf(),
                self.frames_allocated(frames0),
                self.frames_allocated(*frames),
                copy.wf(),
                frames.wf(),
                copy.frames_allocated(*frames),
                copy.born_from(*frames, frames0),
                copy.areas().len() == i,
                copy.page_table().nodes() == self.nodes_upto(i as int),
                forall|j: int| 0 <= j < i ==> (#[trigger] copy.areas()[j]).same_shape(self.areas()[j]),
                forall|p: usize| !(#[trigger] copy.owns(p) && self.owns(p)),
                frames.free_count_spec() >= self.clone_cost() - 1 - self.areas_cost(i as int),
                forall|j: int, a: int|
                    0 <= j < i && 0 <= a < self.areas()[j].frames().len() ==> frames.page(
                        #[trigger] copy.areas()[j].frames()[a],
                    ) == frames0.page(self.areas()[j].frames()[a]),
            decreases n - i,
        {
            let ghost prev = copy;
            let ghost frames_prev = *frames;
            let area = &self.areas[i];
            proof {
                self.lemma_wf();
                assert(self.areas()[i as int].wf());
                self.lemma_areas_cost_grows(i as int + 1, n as int);
                copy.page_table().lemma_missing_nodes(area.start_vpn, area.end_vpn);
                copy.lemma_areas_cover();
                assert forall|vpn: usize| area.start_vpn <= vpn < area.end_vpn implies !copy.page_table().mapped(
                    vpn,
                ) by {
                    if copy.page_table().mapped(vpn) {
                        assert(copy.in_some_area(vpn));
                        let j = choose|j: int|
                            0 <= j < copy.areas().len() && (#[trigger] copy.areas()[j]).contains(vpn);
                        assert(copy.areas()[j].same_shape(self.areas()[j]));
                        assert(self.areas()[j].contains(vpn));
                        assert(self.areas()[i as int].contains(vpn));
                    }
                }
            }
            let ok = copy.insert_area(area.start_vpn, area.end_vpn, area.map_type, area.map_perm, frames);
            assert(ok);
            let ghost frames_mid = *frames;
            proof {
                copy.lemma_born_conserves(prev, *frames, frames_prev, frames0);
                frames_prev.lemma_wf();
                assert forall|p: usize| !(#[trigger] copy.owns(p) && self.owns(p)) by {
                    if copy.owns(p) && self.owns(p) {
                        assert(frames_prev.is_allocated(p));
                        assert(!prev.owns(p));
                        assert(copy.owns(p) || frames.is_free(p) <==> prev.owns(p)
                            || frames_prev.is_free(p));
                    }
                }
                assert forall|p: usize| #[trigger] self.owns(p) implies frames.is_allocated(p) by {
                    assert(frames_prev.is_allocated(p));
                    assert(!prev.owns(p));
                    assert(copy.owns(p) || frames.is_free(p) <==> prev.owns(p) || frames_prev.is_free(
                        p,
                    ));
                }
                assert(copy.areas()[i as int] == copy.areas().last());
                assert(copy.areas().last().same_shape(self.areas()[i as int]));
            }
            copy.copy_area_pages(self, i, frames);
            proof {
                frames_mid.lemma_wf();
                copy.lemma_wf();
                // copies made earlier are not written again
                assert forall|j: int, a: int|
                    0 <= j < i + 1 && 0 <= a < self.areas()[j].frames().len() implies frames.page(
                    #[trigger] copy.areas()[j].frames()[a],
                ) == frames0.page(self.areas()[j].frames()[a]) by {
                    assert(self.areas()[j].wf());
                    assert(copy.areas()[j].wf());
                    let src_ppn = self.areas()[j].frames()[a];
                    assert(self.owns_data(src_ppn));
                    assert(self.owns(src_ppn));
                    assert(frames0.is_allocated(src_ppn));
                    if j < i {
                        let dst = copy.areas()[j].frames()[a];
                        assert(copy.areas()[j] == prev.areas()[j]);
                        assert(prev.owns_data(dst));
                        assert(prev.owns(dst));
                        assert(frames_prev.is_allocated(dst));
                        assert(frames_mid.page(dst) == frames_prev.page(dst));
                        assert(!copy.areas().last().frames().contains(dst)) by {
                            if copy.areas().last().frames().contains(dst) {
                                let b = choose|b: int|
                                    0 <= b < copy.areas().last().frames().len()
                                        && copy.areas().last().frames()[b] == dst;
                                assert(copy.areas()[i as int].frames()[b] == dst);
                                assert(copy.areas()[j].frames()[a] != copy.areas()[i as int].frames()[b]);
                            }
                        }
                    } else {
                        assert(frames_mid.page(src_ppn) == frames_prev.page(src_ppn));
                        assert(frames_prev.page(src_ppn) == frames0.page(src_ppn));
                    }
                }
                // the frames written are the copy's own
                assert forall|p: usize|
                    #![trigger copy.owns(p)]
                    #![trigger frames.is_free(p)]
                    #![trigger frames0.is_free(p)]
                    (copy.owns(p) || frames.is_free(p)) <==> frames0.is_free(p) by {
                    assert(frames.is_free(p) == frames_mid.is_free(p));
                }
                assert forall|p: usize| frames0.is_allocated(p) implies #[trigger] frames.page(p)
                    == frames0.page(p) by {
                    assert(!copy.owns(p));
                    if copy.areas().last().frames().contains(p) {
                        let b = choose|b: int|
                            0 <= b < copy.areas().last().frames().len()
                                && copy.areas().last().frames()[b] == p;
                        assert(copy.areas()[i as int].frames()[b] == p);
                        assert(copy.owns_data(p));
                    }
                    assert(frames_mid.page(p) == frames0.page(p));
                }
                assert forall|p: usize| #[trigger] copy.owns(p) implies frames.is_allocated(p) by {
                    assert(frames_mid.is_allocated(p));
                }
                assert forall|p: usize| #[trigger] self.owns(p) implies frames.is_allocated(p) by {
                    assert(frames_mid.is_allocated(p));
                }
                assert forall|j: int| 0 <= j < i + 1 implies (#[trigger] copy.areas()[j]).same_shape(
                    self.areas()[j],
                ) by {
                    if j < i {
                        assert(copy.areas()[j] == prev.areas()[j]);
                    }
                }
            }
            i = i + 1;
        }
        proof {
            self.lemma_wf();
            copy.lemma_wf();
            assert forall|va: usize| self.user_ok(va) implies #[trigger] copy.user_ok(va)
                && copy.user_byte(*frames, va) == self.user_byte(frames0, va) by {
                let v = va_floor(va);
                assert(self.page_table().mapped(v));
                let j = choose|j: int| 0 <= j < self.areas().len() && (#[trigger] self.areas()[j]).contains(v);
                assert(self.areas()[j].contains(v));
                assert(self.areas()[j].wf());
                assert(copy.areas()[j].same_shape(self.areas()[j]));
                assert(copy.areas()[j].contains(v));
                assert(copy.areas()[j].wf());
                assert(self.page_table().pte(v) == self.areas()[j].pte_of(v));
                assert(copy.page_table().pte(v) == copy.areas()[j].pte_of(v));
                let a = v - self.areas()[j].start();
                assert(frames.page(copy.areas()[j].frames()[a]) == frames0.page(
                    self.areas()[j].frames()[a],
                ));
            }
        }
        Some(copy)
    }

    /// Creates the page-table nodes that are missing for the pages of
    /// `[start_vpn, end_vpn)`. No mapping changes.
    pub fn reserve_tables(&mut self, start_vpn: usize, end_vpn: usize, frames: &mut FrameAllocator)
        requires
            old(self).wf(),
            old(frames).wf(),
            old(self).frames_allocated(*old(frames)),
            start_vpn <= end_vpn <= VPN_LIMIT,
            old(frames).free_count_spec() >= old(self).page_table().missing_tables(
                start_vpn,
                end_vpn,
            ),
        ensures
            final(self).wf(),
            final(frames).wf(),
            final(self).frames_allocated(*final(frames)),
            final(self).conserves(*old(self), *final(frames), *old(frames)),
            final(self).areas() == old(self).areas(),
            final(frames).free_count_spec() == old(frames).free_count_spec() - old(self).page_table().missing_tables(start_vpn, end_vpn),
            forall|vpn: usize|
                #[trigger] final(self).page_table().pte(vpn) == old(self).page_table().pte(vpn),
            forall|vpn: usize| start_vpn <= vpn < end_vpn ==> #[trigger] final(self).page_table().walkable(vpn),
            forall|vpn: usize|
                old(self).page_table().walkable(vpn) ==> #[trigger] final(self).page_table().walkable(
                    vpn,
                ),
            forall|p: usize|
                old(frames).is_allocated(p) ==> #[trigger] final(frames).page(p) == old(frames).page(
                    p,
                ),
    {
        let ghost before = *self;
        let ghost frames_before = *frames;
        proof {
            before.lemma_tables_allocated(frames_before);
        }
        self.page_table.ensure_tables(start_vpn, end_vpn, frames);
        proof {
            let pt = self.page_table;
            let n0 = before.page_table().frames().len() as int;
            let tables = pt.frames().skip(n0);
            frames_before.lemma_wf();
            assert forall|p: usize| pt.frames().contains(p) <==> before.page_table().frames().contains(
                p,
            ) || tables.contains(p) by {
                if pt.frames().contains(p) {
                    let i = choose|i: int| 0 <= i < pt.frames().len() && pt.frames()[i] == p;
                    if i < n0 {
                        assert(pt.frames().take(n0)[i] == p);
                    } else {
                        assert(tables[i - n0] == p);
                    }
                }
                if before.page_table().frames().contains(p) {
                    let i = choose|i: int| 0 <= i < n0 && before.page_table().frames()[i] == p;
                    assert(pt.frames().take(n0)[i] == p);
                }
                if tables.contains(p) {
                    let i = choose|i: int| 0 <= i < tables.len() && tables[i] == p;
                    assert(pt.frames()[i + n0] == p);
                }
            }
            assert forall|p: usize| tables.contains(p) implies frames_before.is_free(p) by {
                let i = choose|i: int| 0 <= i < tables.len() && tables[i] == p;
                assert(frames_before.is_free(tables[i]));
            }
            assert(self.areas() == before.areas());
            assert forall|p: usize| self.owns_data(p) == before.owns_data(p) by {
                if self.owns_data(p) {
                    let (i, a) = choose|i: int, a: int|
                        0 <= i < self.areas().len() && 0 <= a < self.areas()[i].frames().len()
                            && #[trigger] self.areas()[i].frames()[a] == p;
                    assert(before.areas()[i].frames()[a] == p);
                }
                if before.owns_data(p) {
                    let (i, a) = choose|i: int, a: int|
                        0 <= i < before.areas().len() && 0 <= a < before.areas()[i].frames().len()
                            && #[trigger] before.areas()[i].frames()[a] == p;
                    assert(self.areas()[i].frames()[a] == p);
                }
            }
            assert forall|i: int, a: int|
                0 <= i < self.areas().len() && 0 <= a < self.areas()[i].frames().len()
                    implies !self.page_table().frames().contains(
                #[trigger] self.areas()[i].frames()[a],
            ) by {
                let p = self.areas()[i].frames()[a];
                assert(before.owns_data(p));
                assert(before.owns(p));
                assert(frames_before.is_allocated(p));
            }
            assert forall|i: int, vpn: usize|
                0 <= i < self.areas().len() && (#[trigger] self.areas()[i].contains(
                    vpn,
                )) implies self.page_table().pte(vpn) == self.areas()[i].pte_of(vpn) by {
                assert(before.areas()[i].contains(vpn));
                assert(before.page_table().pte(vpn) == before.areas()[i].pte_of(vpn));
                assert(pt.pte(vpn) == before.page_table().pte(vpn));
            }
            assert(self.ptes_agree());
            assert forall|vpn: usize| #[trigger] self.page_table().mapped(vpn) implies self.in_some_area(
                vpn,
            ) by {
                assert(pt.pte(vpn) == before.page_table().pte(vpn));
                assert(before.page_table().mapped(vpn));
                assert(before.in_some_area(vpn));
                let i = choose|i: int|
                    0 <= i < before.areas().len() && (#[trigger] before.areas()[i]).contains(vpn);
                assert(self.areas()[i].contains(vpn));
            }
            assert forall|p: usize| #[trigger] self.owns(p) implies frames.is_allocated(p) by {
                if before.owns(p) {
                    assert(frames_before.is_allocated(p));
                }
            }
            assert forall|p: usize|
                #![trigger self.owns(p)]
                #![trigger frames.is_free(p)]
                #![trigger before.owns(p)]
                #![trigger frames_before.is_free(p)]
                (self.owns(p) || frames.is_free(p)) <==> (before.owns(p) || frames_before.is_free(
                    p,
                )) by {
                if before.owns(p) {
                    assert(frames_before.is_allocated(p));
                }
            }
            assert forall|p: usize| frames_before.is_allocated(p) implies #[trigger] frames.page(p)
                == frames_before.page(p) by {
                assert(!tables.contains(p));
            }
            assert forall|vpn: usize| before.page_table().walkable(vpn) implies #[trigger] self.page_table().walkable(
                vpn,
            ) by {
                assert(before.page_table().has_leaf(crate::mm::page_table::leaf_index(vpn)));
            }
        }
    }

    /// Whether `grow_pages` maps the pages: the range is in bounds, none of
    /// its pages has a valid leaf entry, and enough frames are free for the
    /// pages and for the page-table nodes that are missing.
    pub open spec fn can_grow(&self, start_vpn: usize, end_vpn: usize, frames: FrameAllocator) -> bool {
        self.can_insert(
            start_vpn,
            end_vpn,
            MapType::Framed,
            MapPermission { r: true, w: true, x: false, u: true },
            frames,
        )
    }

    /// Maps each page of `[start_vpn, end_vpn)` as a framed area of its
    /// own, the lowest page first, with a fresh zeroed frame. Returns
    /// `false`, and changes nothing, exactly when `can_grow` does not hold.
    pub fn grow_pages(
        &mut self,
        start_vpn: usize,
        end_vpn: usize,
        perm: MapPermission,
        frames: &mut FrameAllocator,
    ) -> (ok: bool)
        requires
            old(self).wf(),
            old(frames).wf(),
            old(self).frames_allocated(*old(frames)),
            perm.u,
        ensures
            final(self).wf(),
            final(frames).wf(),
            final(self).frames_allocated(*final(frames)),
            ok == old(self).can_grow(start_vpn, end_vpn, *old(frames)),
            !ok ==> *final(self) == *old(self) && *final(frames) == *old(frames),
            ok ==> {
                let n0 = old(self).areas().len() as int;
                &&& final(self).areas().len() == n0 + (end_vpn - start_vpn)
                &&& final(self).areas().take(n0) == old(self).areas()
                &&& forall|k: int|
                    0 <= k < end_vpn - start_vpn ==> {
                        &&& (#[trigger] final(self).areas()[n0 + k]).start() == start_vpn + k
                        &&& final(self).areas()[n0 + k].end() == start_vpn + k + 1
                        &&& final(self).areas()[n0 + k].map_type() is Framed
                        &&& final(self).areas()[n0 + k].perm() == perm
                    }
                &&& final(self).conserves(*old(self), *final(frames), *old(frames))
                &&& final(self).sees_as(*old(self), *final(frames), *old(frames))
                &&& final(self).zero_where_new(*old(self), *final(frames))
                &&& final(frames).free_count_spec() == old(frames).free_count_spec() - (end_vpn
                    - start_vpn) - old(self).page_table().missing_tables(start_vpn, end_vpn)
            },
    {
        let ghost before = *self;
        let ghost frames_before = *frames;
        if start_vpn > end_vpn || end_vpn > VPN_LIMIT {
            return false;
        }
        let mut probe: usize = start_vpn;
        while probe < end_vpn
            invariant
                self.wf(),
                *self == before,
                *frames == frames_before,
                frames.wf(),
                self.frames_allocated(*frames),
                start_vpn <= probe <= end_vpn,
                forall|vpn: usize| start_vpn <= vpn < probe ==> !self.page_table().mapped(vpn),
            decreases end_vpn - probe,
        {
            proof {
                self.lemma_wf();
            }
            if self.page_table.is_mapped(probe) {
                return false;
            }
            probe = probe + 1;
        }
        proof {
            self.lemma_wf();
            frames.lemma_wf();
            self.page_table.lemma_missing_bound(start_vpn, end_vpn);
            assert(forall|vpn: usize|
                start_vpn <= vpn < end_vpn ==> !(#[trigger] before.page_table().mapped(vpn)));
        }
        let missing: usize = self.page_table.count_missing_tables(start_vpn, end_vpn);
        if frames.free_count() < (end_vpn - start_vpn) + missing {
            return false;
        }
        self.reserve_tables(start_vpn, end_vpn, frames);
        let ghost reserved = *self;
        let ghost frames_reserved = *frames;
        let mut vpn: usize = start_vpn;
        proof {
            assert(self.areas().take(before.areas().len() as int) =~= before.areas());
            frames_before.lemma_wf();
            assert forall|v: usize| start_vpn <= v < end_vpn implies !(#[trigger] self.page_table().mapped(
                v,
            )) by {
                assert(!before.page_table().mapped(v));
                assert(self.page_table().pte(v) == before.page_table().pte(v));
            }
            assert(self.sees_as(before, *frames, frames_before)) by {
                assert forall|va: usize| before.user_ok(va) implies #[trigger] self.user_ok(va)
                    && self.user_byte(*frames, va) == before.user_byte(frames_before, va) by {
                    before.lemma_user_frame(va);
                    assert(before.owns(before.user_frame(va)));
                }
            }
        }
        while vpn < end_vpn
            invariant
                start_vpn <= vpn <= end_vpn <= VPN_LIMIT,
                perm.u,
                before.wf(),
                frames_before.wf(),
                self.wf(),
                frames.wf(),
                self.frames_allocated(*frames),
                self.conserves(before, *frames, frames_before),
                self.sees_as(before, *frames, frames_before),
                self.zero_where_new(before, *frames),
                self.areas().len() == before.areas().len() + (vpn - start_vpn),
                self.areas().take(before.areas().len() as int) == before.areas(),
                forall|k: int|
                    0 <= k < vpn - start_vpn ==> {
                        &&& (#[trigger] self.areas()[before.areas().len() + k]).start() == start_vpn
                            + k
                        &&& self.areas()[before.areas().len() + k].end() == start_vpn + k + 1
                        &&& self.areas()[before.areas().len() + k].map_type() is Framed
                        &&& self.areas()[before.areas().len() + k].perm() == perm
                    },
                forall|v: usize| vpn <= v < end_vpn ==> !(#[trigger] self.page_table().mapped(v)),
                forall|v: usize| vpn <= v < end_vpn ==> #[trigger] self.page_table().walkable(v),
                frames.free_count_spec() == frames_before.free_count_spec() - before.page_table().missing_tables(
                    start_vpn,
                    end_vpn,
                ) - (vpn - start_vpn),
                frames_before.free_count_spec() >= (end_vpn - start_vpn)
                    + before.page_table().missing_tables(start_vpn, end_vpn),
            decreases end_vpn - vpn,
        {
            let ghost prev = *self;
            let ghost frames_prev = *frames;
            proof {
                self.lemma_wf();
                assert forall|v: usize| vpn <= v < vpn + 1 implies #[trigger] self.page_table().walkable(
                    v,
                ) by {}
                self.page_table().lemma_missing_none(vpn, (vpn + 1) as usize);
            }
            let ok = self.insert_area(vpn, vpn + 1, MapType::Framed, perm, frames);
            assert(ok);
            proof {
                self.lemma_conserves_trans(prev, before, *frames, frames_prev, frames_before);
                let n0 = before.areas().len() as int;
                let done = vpn - start_vpn;
                assert(self.areas()[n0 + done] == self.areas().last());
                assert(self.areas().take(n0) =~= before.areas()) by {
                    assert forall|i: int| 0 <= i < n0 implies self.areas().take(n0)[i]
                        == before.areas()[i] by {
                        assert(prev.areas().take(n0)[i] == before.areas()[i]);
                        assert(self.areas()[i] == prev.areas()[i]);
                    }
                }
                assert forall|k: int| 0 <= k < done + 1 implies {
                    &&& (#[trigger] self.areas()[n0 + k]).start() == start_vpn + k
                    &&& self.areas()[n0 + k].end() == start_vpn + k + 1
                    &&& self.areas()[n0 + k].map_type() is Framed
                    &&& self.areas()[n0 + k].perm() == perm
                } by {
                    if k < done {
                        assert(self.areas()[n0 + k] == prev.areas()[n0 + k]);
                    }
                }
                frames_prev.lemma_wf();
                assert forall|v: usize| vpn + 1 <= v < end_vpn implies !(#[trigger] self.page_table().mapped(
                    v,
                )) by {
                    assert(self.page_table().pte(v) == prev.page_table().pte(v));
                    assert(!prev.page_table().mapped(v));
                }
                assert forall|va: usize| before.user_ok(va) implies #[trigger] self.user_ok(va)
                    && self.user_byte(*frames, va) == before.user_byte(frames_before, va) by {
                    assert(prev.user_ok(va));
                    assert(prev.page_table().mapped(va_floor(va)));
                    assert(va_floor(va) != vpn);
                    assert(self.page_table().pte(va_floor(va)) == prev.page_table().pte(va_floor(va)));
                    prev.lemma_user_frame(va);
                    assert(prev.owns(prev.user_frame(va)));
                    assert(frames_prev.is_allocated(prev.user_frame(va)));
                }
                assert forall|va: usize|
                    self.user_ok(va) && !before.user_ok(va) implies #[trigger] self.user_byte(*frames, va)
                    == 0 by {
                    let v = va_floor(va);
                    if v == vpn {
                        let last = self.areas().len() - 1;
                        assert(self.areas()[last].contains(v));
                        assert(self.areas()[last].wf());
                        assert(self.page_table().pte(v) == self.areas()[last].pte_of(v));
                        assert(frames.page(self.areas().last().frames()[0]) == zero_page());
                    } else {
                        assert(self.page_table().pte(v) == prev.page_table().pte(v));
                        assert(prev.user_ok(va));
                        prev.lemma_user_frame(va);
                        assert(prev.owns(prev.user_frame(va)));
                        assert(frames_prev.is_allocated(prev.user_frame(va)));
                        assert(prev.user_byte(frames_prev, va) == 0);
                    }
                }
            }
            vpn = vpn + 1;
        }
        true
    }

    /// Unmaps the one-page framed areas of the pages `[start_vpn, end_vpn)`,
    /// from the highest page down, and hands their frames back. A page
    /// that has no such area is passed over.
    pub fn shrink_pages(&mut self, start_vpn: usize, end_vpn: usize, frames: &mut FrameAllocator)
        requires
            old(self).wf(),
            old(frames).wf(),
            old(self).frames_allocated(*old(frames)),
            start_vpn <= end_vpn,
        ensures
            final(self).wf(),
            final(frames).wf(),
            final(self).frames_allocated(*final(frames)),
            final(self).conserves(*old(self), *final(frames), *old(frames)),
            final(self).areas() == areas_shrunk(old(self).areas(), start_vpn, end_vpn),
            forall|p: usize|
                old(frames).in_range(p) ==> #[trigger] final(frames).page(p) == old(frames).page(p),
    {
        let ghost before = *self;
        let ghost frames_before = *frames;
        let mut vpn: usize = end_vpn;
        proof {
            self.lemma_conserves_refl(*frames);
        }
        while vpn > start_vpn
            invariant
                start_vpn <= vpn <= end_vpn,
                before.wf(),
                frames_before.wf(),
                self.wf(),
                frames.wf(),
                self.frames_allocated(*frames),
                self.conserves(before, *frames, frames_before),
                areas_shrunk(before.areas(), start_vpn, end_vpn) == areas_shrunk(
                    self.areas(),
                    start_vpn,
                    vpn,
                ),
                frames.base() == frames_before.base(),
                frames.end() == frames_before.end(),
                forall|p: usize|
                    frames_before.in_range(p) ==> #[trigger] frames.page(p) == frames_before.page(p),
            decreases vpn - start_vpn,
        {
            let ghost prev = *self;
            let ghost frames_prev = *frames;
            vpn = vpn - 1;
            if vpn < usize::MAX {
                let ok = self.unmap_area(vpn, vpn + 1, frames);
                proof {
                    self.lemma_conserves_trans(prev, before, *frames, frames_prev, frames_before);
                    assert(self.areas() == areas_without_page(prev.areas(), vpn));
                }
            } else {
                proof {
                    prev.lemma_wf();
                    prev.lemma_range_from(vpn, (vpn + 1) as usize, 0);
                    if range_at(prev.areas(), vpn, (vpn + 1) as usize, 0).is_some() {
                        let i = range_at(prev.areas(), vpn, (vpn + 1) as usize, 0).unwrap();
                        assert(prev.areas()[i].wf());
                    }
                }
            }
        }
    }

    /// The number of areas.
    pub fn area_count(&self) -> (n: usize)
        ensures
            n == self.areas().len(),
    {
        self.areas.len()
    }

    /// The area with index `idx`.
    pub fn area(&self, idx: usize) -> (a: &MapArea)
        requires
            idx < self.areas().len(),
        ensures
            *a == self.areas()[idx as int],
    {
        &self.areas[idx]
    }

    /// Whether the area with index `idx` is a framed one.
    pub fn area_is_framed(&self, idx: usize) -> (b: bool)
        requires
            idx < self.areas().len(),
        ensures
            b == (self.areas()[idx as int].map_type() is Framed),
    {
        match self.areas[idx].map_type {
            MapType::Framed => true,
            MapType::Identical => false,
        }
    }

    /// The value that identifies the address space to the hardware.
    pub fn token(&self) -> (t: usize)
        ensures
            t == self.page_table().root_ppn(),
    {
        self.page_table.token()
    }

    /// The leaf entry for `vpn` by value, if the walk reaches one.
    pub fn translate(&self, vpn: usize) -> (r: Option<PageTableEntry>)
        requires
            self.wf(),
        ensures
            r.is_some() <==> self.page_table().walkable(vpn),
            r.is_some() ==> r.unwrap() == self.page_table().pte(vpn),
    {
        self.page_table.translate(vpn)
    }
}

} // verus!

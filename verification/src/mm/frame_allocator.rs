//! Physical frames: which are free, and what each one holds.
//!
//! The allocator hands out frame numbers from a contiguous range
//! `[base, end)`. Frames that were never handed out lie in `[current, end)`;
//! frames that came back wait on a stack and are handed out again first.
//! The bytes of every frame of the range are held here too, so that a frame
//! number found in a page table can be read and written.

use vstd::prelude::*;
use crate::config::PAGE_SIZE;

verus! {

/// The contents of a freshly allocated frame.
pub open spec fn zero_page() -> Seq<u8> {
    Seq::new(PAGE_SIZE as nat, |i: int| 0u8)
}

fn new_zero_page() -> (page: Vec<u8>)
    ensures
        page@ == zero_page(),
{
    let page: Vec<u8> = vec![0u8; PAGE_SIZE];
    assert(page@ =~= zero_page());
    page
}

/// Stack-style allocator of physical frames, together with their contents.
pub struct FrameAllocator {
    base: usize,
    current: usize,
    end: usize,
    recycled: Vec<usize>,
    pages: Vec<Vec<u8>>,
}

impl FrameAllocator {
    /// First frame number of the managed range.
    pub closed spec fn base(&self) -> int {
        self.base as int
    }

    /// First frame number that was never handed out.
    pub closed spec fn current(&self) -> int {
        self.current as int
    }

    /// One past the last frame number of the managed range.
    pub closed spec fn end(&self) -> int {
        self.end as int
    }

    /// Frames that were handed back, oldest first.
    pub closed spec fn recycled(&self) -> Seq<usize> {
        self.recycled@
    }

    /// Whether `ppn` lies in the managed range.
    pub open spec fn in_range(&self, ppn: usize) -> bool {
        self.base() <= ppn < self.end()
    }

    /// The bytes of frame `ppn`.
    pub closed spec fn page(&self, ppn: usize) -> Seq<u8> {
        self.pages@[ppn - self.base as int]@
    }

    /// Whether `ppn` could be returned by a later `frame_alloc`.
    pub open spec fn is_free(&self, ppn: usize) -> bool {
        ||| self.current() <= ppn < self.end()
        ||| exists|i: int| 0 <= i < self.recycled().len() && self.recycled()[i] == ppn
    }

    /// Whether `ppn` is currently handed out.
    pub open spec fn is_allocated(&self, ppn: usize) -> bool {
        self.in_range(ppn) && !self.is_free(ppn)
    }

    /// The number of free frames.
    pub open spec fn free_count_spec(&self) -> int {
        self.end() - self.current() + self.recycled().len()
    }

    /// Well-formedness: the recycle stack holds distinct frames that were
    /// handed out before, and every frame of the range has a page of bytes.
    pub closed spec fn wf(&self) -> bool {
        &&& self.base <= self.current <= self.end
        &&& self.recycled@.no_duplicates()
        &&& forall|i: int|
            0 <= i < self.recycled@.len() ==> self.base <= #[trigger] self.recycled@[i]
                < self.current
        &&& self.pages@.len() == self.end - self.base
        &&& forall|i: int|
            0 <= i < self.pages@.len() ==> (#[trigger] self.pages@[i])@.len() == PAGE_SIZE
    }

    /// What well-formedness says over the public view.
    pub proof fn lemma_wf(&self)
        requires
            self.wf(),
        ensures
            self.base() <= self.current() <= self.end(),
            self.recycled().no_duplicates(),
            forall|i: int|
                0 <= i < self.recycled().len() ==> self.base() <= #[trigger] self.recycled()[i]
                    < self.current(),
            forall|ppn: usize| self.in_range(ppn) ==> (#[trigger] self.page(ppn)).len() == PAGE_SIZE,
            forall|ppn: usize| #[trigger] self.is_free(ppn) ==> self.in_range(ppn),
            self.free_count_spec() >= 0,
    {
        assert forall|ppn: usize| self.in_range(ppn) implies (#[trigger] self.page(ppn)).len()
            == PAGE_SIZE by {
            assert(self.pages@[ppn - self.base as int]@.len() == PAGE_SIZE);
        }
    }

    /// An allocator over the frames `[base, end)`, all of them free and zeroed.
    pub fn new(base: usize, end: usize) -> (r: Self)
        requires
            base <= end,
        ensures
            r.wf(),
            r.base() == base,
            r.current() == base,
            r.end() == end,
            r.recycled() == Seq::<usize>::empty(),
            forall|ppn: usize| r.in_range(ppn) ==> #[trigger] r.page(ppn) == zero_page(),
    {
        let mut pages: Vec<Vec<u8>> = Vec::new();
        let mut i: usize = base;
        while i < end
            invariant
                base <= i <= end,
                pages@.len() == i - base,
                forall|j: int| 0 <= j < pages@.len() ==> (#[trigger] pages@[j])@ == zero_page(),
            decreases end - i,
        {
            pages.push(new_zero_page());
            i = i + 1;
        }
        FrameAllocator { base, current: base, end, recycled: Vec::new(), pages }
    }

    /// The number of frames that `frame_alloc` can still hand out.
    pub fn free_count(&self) -> (n: usize)
        requires
            self.wf(),
        ensures
            n == self.free_count_spec(),
    {
        proof {
            self.lemma_recycled_bound();
        }
        self.end - self.current + self.recycled.len()
    }

    proof fn lemma_recycled_bound(&self)
        requires
            self.wf(),
        ensures
            self.recycled@.len() <= self.current - self.base,
    {
        let s = self.recycled@.map_values(|p: usize| p as int);
        let range = Set::new(|p: int| self.base <= p < self.current);
        assert(s.no_duplicates()) by {
            assert forall|i: int, j: int| 0 <= i < s.len() && 0 <= j < s.len() && i != j implies s[i]
                != s[j] by {
                assert(self.recycled@[i] != self.recycled@[j]);
            }
        }
        s.unique_seq_to_set();
        vstd::set_lib::lemma_int_range(self.base as int, self.current as int);
        assert(range =~= vstd::set_lib::set_int_range(self.base as int, self.current as int));
        assert(s.to_set().subset_of(range)) by {
            assert forall|p: int| s.to_set().contains(p) implies range.contains(p) by {
                let i = choose|i: int| 0 <= i < s.len() && s[i] == p;
                assert(self.base <= self.recycled@[i] < self.current);
            }
        }
        vstd::set_lib::lemma_len_subset(s.to_set(), range);
    }

    /// Hands out a free frame, zeroed: the most recently recycled one if
    /// there is any, otherwise the next that was never handed out. `None`
    /// exactly when no frame is free, and then nothing changes.
    pub fn frame_alloc(&mut self) -> (r: Option<usize>)
        requires
            old(self).wf(),
        ensures
            final(self).wf(),
            final(self).base() == old(self).base(),
            final(self).end() == old(self).end(),
            r.is_none() <==> old(self).free_count_spec() == 0,
            r.is_none() ==> *final(self) == *old(self),
            r.is_some() ==> {
                let ppn = r.unwrap();
                &&& old(self).is_free(ppn)
                &&& final(self).is_allocated(ppn)
                &&& final(self).page(ppn) == zero_page()
                &&& final(self).free_count_spec() == old(self).free_count_spec() - 1
                &&& final(self).after_taking(*old(self), seq![ppn])
                &&& if old(self).recycled().len() > 0 {
                    &&& ppn == old(self).recycled().last()
                    &&& final(self).recycled() == old(self).recycled().drop_last()
                    &&& final(self).current() == old(self).current()
                } else {
                    &&& ppn == old(self).current()
                    &&& final(self).recycled() == old(self).recycled()
                    &&& final(self).current() == old(self).current() + 1
                }
            },
    {
        let ghost before = *self;
        let ppn: usize;
        if self.recycled.len() > 0 {
            ppn = self.recycled.pop().unwrap();
            proof {
                assert(before.recycled@[before.recycled@.len() - 1] == ppn);
                assert forall|p: usize| p != ppn implies self.is_free(p) == before.is_free(p) by {
                    if before.is_free(p) && !(before.current <= p < before.end) {
                        let i = choose|i: int|
                            0 <= i < before.recycled().len() && before.recycled()[i] == p;
                        assert(self.recycled()[i] == p);
                    }
                    if self.is_free(p) && !(self.current <= p < self.end) {
                        let i = choose|i: int|
                            0 <= i < self.recycled().len() && self.recycled()[i] == p;
                        assert(before.recycled()[i] == p);
                    }
                }
                assert(!self.is_free(ppn)) by {
                    if self.is_free(ppn) {
                        let i = choose|i: int|
                            0 <= i < self.recycled().len() && self.recycled()[i] == ppn;
                        assert(before.recycled@[i] == ppn);
                    }
                }
            }
        } else if self.current < self.end {
            ppn = self.current;
            self.current = self.current + 1;
        } else {
            return None;
        }
        self.pages[ppn - self.base] = new_zero_page();
        proof {
            let taken = seq![ppn];
            assert(taken[0] == ppn);
            assert forall|p: usize| taken.contains(p) implies p == ppn by {}
        }
        Some(ppn)
    }

    /// Takes back a frame that is handed out, and puts it on top of the
    /// recycle stack.
    pub fn frame_dealloc(&mut self, ppn: usize)
        requires
            old(self).wf(),
            old(self).is_allocated(ppn),
        ensures
            final(self).wf(),
            final(self).base() == old(self).base(),
            final(self).end() == old(self).end(),
            final(self).current() == old(self).current(),
            final(self).recycled() == old(self).recycled().push(ppn),
            final(self).free_count_spec() == old(self).free_count_spec() + 1,
            final(self).is_free(ppn),
            forall|p: usize| p != ppn ==> final(self).is_free(p) == old(self).is_free(p),
            forall|p: usize| old(self).in_range(p) ==> final(self).page(p) == old(self).page(p),
    {
        let ghost before = *self;
        self.recycled.push(ppn);
        proof {
            assert(self.recycled@.no_duplicates()) by {
                assert forall|i: int, j: int|
                    0 <= i < self.recycled@.len() && 0 <= j < self.recycled@.len() && i
                        != j implies self.recycled@[i] != self.recycled@[j] by {
                    if i < before.recycled@.len() && j < before.recycled@.len() {
                        assert(before.recycled@[i] != before.recycled@[j]);
                    } else if i < before.recycled@.len() {
                        assert(before.recycled()[i] != ppn);
                    } else {
                        assert(before.recycled()[j] != ppn);
                    }
                }
            }
            assert(self.recycled()[before.recycled().len() as int] == ppn);
            assert forall|p: usize| p != ppn implies self.is_free(p) == before.is_free(p) by {
                if before.is_free(p) && !(before.current <= p < before.end) {
                    let i = choose|i: int|
                        0 <= i < before.recycled().len() && before.recycled()[i] == p;
                    assert(self.recycled()[i] == p);
                }
                if self.is_free(p) && !(self.current <= p < self.end) {
                    let i = choose|i: int| 0 <= i < self.recycled().len() && self.recycled()[i] == p;
                    assert(before.recycled()[i] == p);
                }
            }
        }
    }

    /// Takes back every frame of `list`, in order.
    pub fn dealloc_all(&mut self, list: &Vec<usize>)
        requires
            old(self).wf(),
            list@.no_duplicates(),
            forall|i: int| 0 <= i < list@.len() ==> old(self).is_allocated(#[trigger] list@[i]),
        ensures
            final(self).wf(),
            final(self).base() == old(self).base(),
            final(self).end() == old(self).end(),
            final(self).current() == old(self).current(),
            final(self).recycled() == old(self).recycled() + list@,
            final(self).free_count_spec() == old(self).free_count_spec() + list@.len(),
            forall|p: usize| #[trigger] final(self).is_free(p) <==> old(self).is_free(p) || list@.contains(p),
            forall|p: usize| old(self).in_range(p) ==> #[trigger] final(self).page(p) == old(self).page(p),
    {
        let ghost before = *self;
        let mut a: usize = 0;
        proof {
            assert(self.recycled() =~= before.recycled() + list@.take(0));
        }
        while a < list.len()
            invariant
                a <= list@.len(),
                list@.no_duplicates(),
                forall|i: int| 0 <= i < list@.len() ==> before.is_allocated(#[trigger] list@[i]),
                before.wf(),
                self.wf(),
                self.base() == before.base(),
                self.end() == before.end(),
                self.current() == before.current(),
                self.recycled() == before.recycled() + list@.take(a as int),
                self.free_count_spec() == before.free_count_spec() + a,
                forall|p: usize|
                    #[trigger] self.is_free(p) <==> before.is_free(p) || exists|b: int|
                        0 <= b < a && #[trigger] list@[b] == p,
                forall|p: usize| before.in_range(p) ==> #[trigger] self.page(p) == before.page(p),
            decreases list@.len() - a,
        {
            let ppn: usize = list[a];
            let ghost prev = *self;
            proof {
                assert(before.is_allocated(list@[a as int]));
                if self.is_free(ppn) {
                    let b = choose|b: int| 0 <= b < a && #[trigger] list@[b] == ppn;
                    assert(list@[b] != list@[a as int]);
                }
            }
            self.frame_dealloc(ppn);
            proof {
                assert(list@.take(a as int + 1) =~= list@.take(a as int).push(ppn));
                assert(self.recycled() =~= before.recycled() + list@.take(a as int + 1));
                assert forall|p: usize|
                    #[trigger] self.is_free(p) <==> before.is_free(p) || exists|b: int|
                        0 <= b < a + 1 && #[trigger] list@[b] == p by {
                    if p == ppn {
                        assert(list@[a as int] == p);
                    } else {
                        assert(self.is_free(p) == prev.is_free(p));
                    }
                }
            }
            a = a + 1;
        }
        proof {
            assert(list@.take(a as int) =~= list@);
            assert forall|p: usize| #[trigger] self.is_free(p) <==> before.is_free(p) || list@.contains(
                p,
            ) by {
                if list@.contains(p) {
                    let b = choose|b: int| 0 <= b < list@.len() && list@[b] == p;
                    assert(list@[b] == p);
                }
            }
        }
    }

    /// Reads one byte of a frame of the range.
    pub fn read_byte(&self, ppn: usize, offset: usize) -> (b: u8)
        requires
            self.wf(),
            self.in_range(ppn),
            offset < PAGE_SIZE,
        ensures
            b == self.page(ppn)[offset as int],
    {
        self.pages[ppn - self.base][offset]
    }

    /// Writes one byte of a frame of the range. Which frames are free does
    /// not change.
    pub fn write_byte(&mut self, ppn: usize, offset: usize, value: u8)
        requires
            old(self).wf(),
            old(self).in_range(ppn),
            offset < PAGE_SIZE,
        ensures
            final(self).wf(),
            final(self).same_frames(*old(self)),
            final(self).page(ppn) == old(self).page(ppn).update(offset as int, value),
            forall|p: usize|
                p != ppn && old(self).in_range(p) ==> final(self).page(p) == old(self).page(p),
    {
        let idx: usize = ppn - self.base;
        self.pages[idx][offset] = value;
    }

    /// Copies the bytes of frame `src` to frame `dst`.
    pub fn copy_page(&mut self, src: usize, dst: usize)
        requires
            old(self).wf(),
            old(self).in_range(src),
            old(self).in_range(dst),
        ensures
            final(self).wf(),
            final(self).same_frames(*old(self)),
            final(self).page(dst) == old(self).page(src),
            forall|p: usize|
                p != dst && old(self).in_range(p) ==> #[trigger] final(self).page(p) == old(self).page(p),
    {
        let bytes: Vec<u8> = self.pages[src - self.base].clone();
        assert(bytes@ =~= self.pages@[src - self.base]@);
        self.pages[dst - self.base] = bytes;
    }

    /// Whether two allocator states agree on everything but the bytes held
    /// in the frames.
    pub open spec fn same_frames(&self, other: Self) -> bool {
        &&& self.base() == other.base()
        &&& self.current() == other.current()
        &&& self.end() == other.end()
        &&& self.recycled() == other.recycled()
    }

    /// Whether `self` results from `before` by handing out exactly the
    /// frames `taken`, each of which comes back zeroed, while no frame was
    /// handed back and no other frame was written.
    pub open spec fn after_taking(&self, before: Self, taken: Seq<usize>) -> bool {
        &&& self.base() == before.base()
        &&& self.end() == before.end()
        &&& taken.no_duplicates()
        &&& self.free_count_spec() == before.free_count_spec() - taken.len()
        &&& forall|i: int| 0 <= i < taken.len() ==> before.is_free(#[trigger] taken[i])
        &&& forall|p: usize| #[trigger] self.is_free(p) <==> before.is_free(p) && !taken.contains(p)
        &&& forall|i: int| 0 <= i < taken.len() ==> self.page(#[trigger] taken[i]) == zero_page()
        &&& forall|p: usize|
            before.in_range(p) && !taken.contains(p) ==> #[trigger] self.page(p) == before.page(p)
    }

    /// Taking nothing changes nothing that `after_taking` speaks of.
    pub proof fn lemma_take_none(&self)
        ensures
            self.after_taking(*self, Seq::empty()),
    {
    }

    /// Taking `first` and then `second` is taking both.
    pub proof fn lemma_take_more(
        &self,
        before: Self,
        mid: Self,
        first: Seq<usize>,
        second: Seq<usize>,
    )
        requires
            before.wf(),
            mid.after_taking(before, first),
            self.after_taking(mid, second),
        ensures
            self.after_taking(before, first + second),
    {
        let t = first + second;
        before.lemma_wf();
        assert forall|p: usize| t.contains(p) <==> first.contains(p) || second.contains(p) by {
            if t.contains(p) {
                let i = choose|i: int| 0 <= i < t.len() && t[i] == p;
                if i < first.len() {
                    assert(first[i] == p);
                } else {
                    assert(second[i - first.len()] == p);
                }
            }
            if first.contains(p) {
                let i = choose|i: int| 0 <= i < first.len() && first[i] == p;
                assert(t[i] == p);
            }
            if second.contains(p) {
                let i = choose|i: int| 0 <= i < second.len() && second[i] == p;
                assert(t[i + first.len()] == p);
            }
        }
        assert(t.no_duplicates()) by {
            assert forall|i: int, j: int| 0 <= i < t.len() && 0 <= j < t.len() && i != j implies t[i]
                != t[j] by {
                if i < first.len() && j >= first.len() {
                    assert(first.contains(first[i]));
                    assert(mid.is_free(second[j - first.len()]));
                } else if j < first.len() && i >= first.len() {
                    assert(first.contains(first[j]));
                    assert(mid.is_free(second[i - first.len()]));
                }
            }
        }
        assert forall|i: int| 0 <= i < t.len() implies before.is_free(#[trigger] t[i]) by {
            if i >= first.len() {
                assert(mid.is_free(second[i - first.len()]));
            }
        }
        assert forall|i: int| 0 <= i < t.len() implies self.page(#[trigger] t[i])
            == zero_page() by {
            if i < first.len() {
                assert(mid.page(first[i]) == zero_page());
                assert(before.is_free(first[i]));
                if second.contains(first[i]) {
                    let j = choose|j: int| 0 <= j < second.len() && second[j] == first[i];
                    assert(self.page(second[j]) == zero_page());
                }
            } else {
                assert(self.page(second[i - first.len()]) == zero_page());
            }
        }
    }

    /// The frames that were handed back, oldest first.
    pub fn recycled_frames(&self) -> (r: &Vec<usize>)
        ensures
            r@ == self.recycled(),
    {
        &self.recycled
    }

    /// Whether the frame number lies in the managed range.
    pub fn contains(&self, ppn: usize) -> (r: bool)
        ensures
            r == self.in_range(ppn),
    {
        self.base <= ppn && ppn < self.end
    }
}

} // verus!

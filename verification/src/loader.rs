//! Application images: what `exec` and `spawn` load into a new address
//! space. An image is a list of segments in ascending order of address,
//! no two of them in one page.

use vstd::prelude::*;
use crate::config::{PAGE_SIZE, TRAP_CONTEXT_VPN, USER_STACK_PAGES};
use crate::mm::memory_set::{ceil_page, floor_page, va_ceil, va_floor, MapPermission};
use crate::mm::page_table::{NodeMap, Nodes};

verus! {

/// One piece of an application image: bytes to be loaded at an address,
/// in an area of a given size and permission.
pub struct Segment {
    /// Where the area starts.
    pub start_va: usize,
    /// Where the area ends.
    pub end_va: usize,
    /// What the area allows, besides user access.
    pub perm: MapPermission,
    /// The bytes at the start of the area; the rest of it is zero.
    pub data: Vec<u8>,
}

/// An application that `exec` and `spawn` can load.
pub struct AppImage {
    /// The name by which the application is found.
    pub name: Vec<u8>,
    /// Where the application starts to run.
    pub entry: usize,
    /// The pieces of the image.
    pub segments: Vec<Segment>,
}

impl AppImage {
    /// The first page above the segments with index below `n`.
    pub open spec fn top_of(&self, n: int) -> usize {
        if n <= 0 {
            0
        } else {
            va_ceil(self.segments@[n - 1].end_va)
        }
    }

    /// Where the user stack of the image starts: one page above the
    /// segments.
    pub open spec fn stack_bottom(&self) -> int {
        self.top_of(self.segments@.len() as int) + 1
    }

    /// Where the user stack of the image ends, and its heap starts.
    pub open spec fn stack_top(&self) -> int {
        self.stack_bottom() + USER_STACK_PAGES
    }

    /// Whether the image can be laid out: every segment holds its data,
    /// the segments are in ascending order with no two in one page, the
    /// stack above them ends below the trap context, at an address that
    /// can be written down, and the cost can be written down too.
    pub open spec fn wf(&self) -> bool {
        &&& self.segments_wf(self.segments@.len() as int)
        &&& self.stack_top() <= TRAP_CONTEXT_VPN
        &&& self.stack_top() * PAGE_SIZE <= usize::MAX
        &&& self.cost() <= usize::MAX
    }

    /// Whether the segments with index below `n` can be laid out.
    pub open spec fn segments_wf(&self, n: int) -> bool {
        forall|i: int|
            0 <= i < n ==> {
                &&& (#[trigger] self.segments@[i]).start_va + self.segments@[i].data@.len()
                    <= self.segments@[i].end_va
                &&& self.top_of(i) <= va_floor(self.segments@[i].start_va)
                &&& va_ceil(self.segments@[i].end_va) <= TRAP_CONTEXT_VPN
            }
    }

    /// The page-table nodes that the segments with index below `n` need.
    pub open spec fn nodes_upto(&self, n: int) -> Nodes
        decreases n,
    {
        if n <= 0 {
            Nodes::none()
        } else {
            self.nodes_upto(n - 1).with_span(
                va_floor(self.segments@[n - 1].start_va),
                va_ceil(self.segments@[n - 1].end_va),
            )
        }
    }

    /// How many frames the segments with index below `n` cost: their
    /// pages, and the page-table nodes that they need, each node once.
    pub open spec fn segments_cost(&self, n: int) -> int
        decreases n,
    {
        if n <= 0 {
            0
        } else {
            self.segments_cost(n - 1) + (va_ceil(self.segments@[n - 1].end_va) - va_floor(
                self.segments@[n - 1].start_va,
            )) + self.nodes_upto(n - 1).missing(
                va_floor(self.segments@[n - 1].start_va),
                va_ceil(self.segments@[n - 1].end_va),
            )
        }
    }

    /// How many frames the user stack costs above the segments: its pages
    /// and the page-table nodes that the segments have not brought.
    pub open spec fn stack_cost(&self) -> int {
        USER_STACK_PAGES + self.nodes_upto(self.segments@.len() as int).missing(
            self.stack_bottom() as usize,
            self.stack_top() as usize,
        )
    }

    /// How many frames the trap context costs above the segments and the
    /// stack: its page and the page-table nodes that are still missing.
    pub open spec fn trap_cost(&self) -> int {
        1 + self.nodes_upto(self.segments@.len() as int).with_span(
            self.stack_bottom() as usize,
            self.stack_top() as usize,
        ).missing(TRAP_CONTEXT_VPN, (TRAP_CONTEXT_VPN + 1) as usize)
    }

    /// How many frames an address space for the image costs: the root of
    /// its page table, the segments, the stack and the trap context, with
    /// every page-table node counted once.
    pub open spec fn cost(&self) -> int {
        1 + self.segments_cost(self.segments@.len() as int) + self.stack_cost() + self.trap_cost()
    }

    /// Checks `wf` and computes `cost`; `None` exactly when the image
    /// cannot be laid out.
    pub fn check(&self) -> (r: Option<usize>)
        ensures
            r.is_some() == self.wf(),
            r.is_some() ==> r.unwrap() == self.cost(),
    {
        let n: usize = self.segments.len();
        let mut top: usize = 0;
        let mut i: usize = 0;
        while i < n
            invariant
                i <= n,
                n == self.segments@.len(),
                top == self.top_of(i as int),
                top <= TRAP_CONTEXT_VPN,
                self.segments_wf(i as int),
            decreases n - i,
        {
            let seg = &self.segments[i];
            if seg.data.len() > usize::MAX - seg.start_va || seg.start_va + seg.data.len()
                > seg.end_va {
                proof {
                    assert(!(self.segments@[i as int].start_va + self.segments@[i as int].data@.len()
                        <= self.segments@[i as int].end_va));
                }
                return None;
            }
            let start: usize = floor_page(seg.start_va);
            let end: usize = ceil_page(seg.end_va);
            if top > start || end > TRAP_CONTEXT_VPN {
                proof {
                    assert(!(self.top_of(i as int) <= va_floor(self.segments@[i as int].start_va)
                        && va_ceil(self.segments@[i as int].end_va) <= TRAP_CONTEXT_VPN));
                }
                return None;
            }
            top = end;
            i = i + 1;
        }
        if top + 1 + USER_STACK_PAGES > TRAP_CONTEXT_VPN {
            return None;
        }
        let bottom: usize = top + 1;
        let stack_top: usize = bottom + USER_STACK_PAGES;
        if stack_top > usize::MAX / PAGE_SIZE {
            return None;
        }
        let mut seen = NodeMap::new();
        let mut cost: usize = 0;
        let mut k: usize = 0;
        proof {
            self.lemma_cost_rest();
        }
        while k < n
            invariant
                k <= n,
                n == self.segments@.len(),
                self.segments_wf(n as int),
                cost == self.segments_cost(k as int),
                seen.wf(),
                seen.nodes() == self.nodes_upto(k as int),
                self.stack_cost() >= 0,
                self.trap_cost() >= 0,
            decreases n - k,
        {
            let seg = &self.segments[k];
            let start: usize = floor_page(seg.start_va);
            let end: usize = ceil_page(seg.end_va);
            proof {
                assert(self.segments@[k as int].start_va + self.segments@[k as int].data@.len()
                    <= self.segments@[k as int].end_va);
            }
            let nodes: usize = seen.cover(start, end);
            let term: usize = (end - start) + nodes;
            if cost > usize::MAX - term {
                proof {
                    self.lemma_cost_grows(k as int + 1, n as int);
                }
                return None;
            }
            cost = cost + term;
            k = k + 1;
        }
        let stack_nodes: usize = seen.cover(bottom, stack_top);
        let trap_nodes: usize = seen.cover(TRAP_CONTEXT_VPN, TRAP_CONTEXT_VPN + 1);
        let fixed: usize = 1 + USER_STACK_PAGES + stack_nodes + 1 + trap_nodes;
        if cost > usize::MAX - fixed {
            return None;
        }
        Some(cost + fixed)
    }

    /// The cost grows with the segments counted.
    pub proof fn lemma_cost_grows(&self, i: int, n: int)
        requires
            0 <= i <= n <= self.segments@.len(),
            self.segments_wf(n),
        ensures
            0 <= self.segments_cost(i) <= self.segments_cost(n),
        decreases n,
    {
        if i < n {
            self.lemma_cost_grows(i, n - 1);
            assert(self.segments@[n - 1].start_va + self.segments@[n - 1].data@.len()
                <= self.segments@[n - 1].end_va);
            self.nodes_upto(n - 1).lemma_missing_bound(
                va_floor(self.segments@[n - 1].start_va),
                va_ceil(self.segments@[n - 1].end_va),
            );
        } else if n > 0 {
            self.lemma_cost_grows(i - 1, n - 1);
            assert(self.segments@[n - 1].start_va + self.segments@[n - 1].data@.len()
                <= self.segments@[n - 1].end_va);
            self.nodes_upto(n - 1).lemma_missing_bound(
                va_floor(self.segments@[n - 1].start_va),
                va_ceil(self.segments@[n - 1].end_va),
            );
        }
    }

    /// The stack and the trap context cost at least their pages.
    pub proof fn lemma_cost_rest(&self)
        ensures
            self.stack_cost() >= USER_STACK_PAGES,
            self.trap_cost() >= 1,
    {
        let nodes = self.nodes_upto(self.segments@.len() as int);
        nodes.lemma_missing_bound(self.stack_bottom() as usize, self.stack_top() as usize);
        nodes.with_span(self.stack_bottom() as usize, self.stack_top() as usize).lemma_missing_bound(
            TRAP_CONTEXT_VPN,
            (TRAP_CONTEXT_VPN + 1) as usize,
        );
    }

    /// The byte that the segments with index below `n` put at the address
    /// `va`: that of the data of the last of them that has data there, and
    /// zero where none has.
    pub open spec fn byte_upto(&self, va: usize, n: int) -> u8
        decreases n,
    {
        if n <= 0 {
            0
        } else if self.segments@[n - 1].start_va <= va < self.segments@[n - 1].start_va
            + self.segments@[n - 1].data@.len() {
            self.segments@[n - 1].data@[va - self.segments@[n - 1].start_va]
        } else {
            self.byte_upto(va, n - 1)
        }
    }

    /// The byte that the image puts at the address `va`.
    pub open spec fn byte_at(&self, va: usize) -> u8 {
        self.byte_upto(va, self.segments@.len() as int)
    }

    /// The tops of the segments rise.
    pub proof fn lemma_tops(&self, i: int, n: int)
        requires
            0 <= i <= n <= self.segments@.len(),
            self.segments_wf(n),
        ensures
            self.top_of(i) <= self.top_of(n),
        decreases n - i,
    {
        if i < n {
            self.lemma_tops(i, n - 1);
            assert(self.segments@[n - 1].start_va + self.segments@[n - 1].data@.len()
                <= self.segments@[n - 1].end_va);
            assert(self.top_of(n - 1) <= va_floor(self.segments@[n - 1].start_va));
        }
    }

    /// Above the segments the image puts zero bytes.
    pub proof fn lemma_byte_above(&self, va: usize, n: int)
        requires
            0 <= n <= self.segments@.len(),
            self.segments_wf(n),
            va_floor(va) >= self.top_of(n),
        ensures
            self.byte_upto(va, n) == 0,
        decreases n,
    {
        if n > 0 {
            self.lemma_tops(n - 1, n);
            assert(self.segments@[n - 1].start_va + self.segments@[n - 1].data@.len()
                <= self.segments@[n - 1].end_va);
            self.lemma_byte_above(va, n - 1);
        }
    }
}

} // verus!

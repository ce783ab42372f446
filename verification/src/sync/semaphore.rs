//! Counting semaphores.

use vstd::prelude::*;
use std::collections::VecDeque;

verus! {

/// A counter of free instances with a queue of waiting threads. A
/// negative count is the number of threads that wait.
pub struct Semaphore {
    count: isize,
    wait_queue: VecDeque<usize>,
}

impl Semaphore {
    /// The count: free instances, or minus the number of threads waiting.
    pub closed spec fn count(&self) -> int {
        self.count as int
    }

    /// The threads that wait, first come first.
    pub closed spec fn waiters(&self) -> Seq<usize> {
        self.wait_queue@
    }

    /// Well-formedness: as many threads wait as the count is below zero.
    pub open spec fn wf(&self) -> bool {
        self.waiters().len() == (if self.count() < 0 {
            -self.count()
        } else {
            0
        })
    }

    /// A semaphore with `res_count` free instances and nobody waiting.
    pub fn new(res_count: usize) -> (s: Self)
        requires
            res_count <= isize::MAX,
        ensures
            s.wf(),
            s.count() == res_count,
            s.waiters() == Seq::<usize>::empty(),
    {
        Semaphore { count: res_count as isize, wait_queue: VecDeque::new() }
    }

    /// The count.
    pub fn value(&self) -> (c: isize)
        ensures
            c == self.count(),
    {
        self.count
    }

    /// How many threads wait.
    pub fn waiting(&self) -> (n: usize)
        ensures
            n == self.waiters().len(),
    {
        self.wait_queue.len()
    }

    /// Adds one to the count. Where the result is zero or less, the first
    /// waiting thread leaves the queue and is returned, to be woken.
    pub fn up(&mut self) -> (woken: Option<usize>)
        requires
            old(self).wf(),
            old(self).count() < isize::MAX,
        ensures
            final(self).wf(),
            final(self).count() == old(self).count() + 1,
            match woken {
                Some(tid) => {
                    &&& old(self).count() < 0
                    &&& tid == old(self).waiters()[0]
                    &&& final(self).waiters() == old(self).waiters().drop_first()
                },
                None => {
                    &&& old(self).count() >= 0
                    &&& final(self).waiters() == old(self).waiters()
                },
            },
    {
        self.count = self.count + 1;
        if self.count <= 0 {
            let woken = self.wait_queue.pop_front();
            assert(self.wait_queue@ =~= old(self).waiters().drop_first());
            woken
        } else {
            None
        }
    }

    /// Takes one from the count for thread `tid`. Where the result is
    /// below zero, the thread joins the end of the queue and has to wait:
    /// `true` is returned.
    pub fn down(&mut self, tid: usize) -> (blocked: bool)
        requires
            old(self).wf(),
            old(self).count() > isize::MIN,
        ensures
            final(self).wf(),
            final(self).count() == old(self).count() - 1,
            blocked == (old(self).count() <= 0),
            blocked ==> final(self).waiters() == old(self).waiters().push(tid),
            !blocked ==> final(self).waiters() == old(self).waiters(),
    {
        self.count = self.count - 1;
        if self.count < 0 {
            self.wait_queue.push_back(tid);
            true
        } else {
            false
        }
    }
}

} // verus!

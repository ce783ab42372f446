//! Condition variables.

use vstd::prelude::*;
use std::collections::VecDeque;

verus! {

/// A queue of threads that wait to be signalled.
pub struct Condvar {
    wait_queue: VecDeque<usize>,
}

impl Condvar {
    /// The threads that wait, first come first.
    pub closed spec fn waiters(&self) -> Seq<usize> {
        self.wait_queue@
    }

    /// A condition variable with nobody waiting.
    pub fn new() -> (c: Self)
        ensures
            c.waiters() == Seq::<usize>::empty(),
    {
        Condvar { wait_queue: VecDeque::new() }
    }

    /// How many threads wait.
    pub fn waiting(&self) -> (n: usize)
        ensures
            n == self.waiters().len(),
    {
        self.wait_queue.len()
    }

    /// Takes the first waiting thread out of the queue and returns it, to
    /// be woken; `None`, and no change, where nobody waits.
    pub fn signal(&mut self) -> (woken: Option<usize>)
        ensures
            match woken {
                Some(tid) => {
                    &&& old(self).waiters().len() > 0
                    &&& tid == old(self).waiters()[0]
                    &&& final(self).waiters() == old(self).waiters().drop_first()
                },
                None => {
                    &&& old(self).waiters().len() == 0
                    &&& final(self).waiters() == old(self).waiters()
                },
            },
    {
        let woken = self.wait_queue.pop_front();
        if woken.is_some() {
            assert(self.wait_queue@ =~= old(self).waiters().drop_first());
        }
        woken
    }

    /// Puts thread `tid` at the end of the queue. The caller gives up its
    /// mutex before, blocks after, and takes the mutex again once woken.
    pub fn wait(&mut self, tid: usize)
        ensures
            final(self).waiters() == old(self).waiters().push(tid),
    {
        self.wait_queue.push_back(tid);
    }
}

} // verus!

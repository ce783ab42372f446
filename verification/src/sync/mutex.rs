//! Mutexes: one that spins and one that blocks.
//!
//! A mutex does not switch tasks itself. `lock` decides what the calling
//! thread has to do next, and `unlock` names the thread to wake; the
//! scheduler acts on both.

use vstd::prelude::*;
use std::collections::VecDeque;

verus! {

/// What a thread that called `lock` has to do next.
#[derive(Clone, Copy, Debug)]
pub enum LockOutcome {
    /// The mutex was free and is now held by the caller.
    Acquired,
    /// The mutex is held and the process detects deadlocks: the attempt is
    /// given up.
    WouldDeadlock,
    /// The mutex is held: the caller yields and tries again.
    MustYield,
    /// The mutex is held: the caller waits in the queue of the mutex.
    MustBlock,
}

/// A lock with at most one holder.
pub trait Mutex {
    /// Whether the mutex is held.
    spec fn locked(&self) -> bool;

    /// The threads that wait for the mutex, first come first.
    spec fn waiters(&self) -> Seq<usize>;

    /// Whether a thread that finds the mutex held waits in its queue.
    spec fn blocking(&self) -> bool;

    /// Tries to take the mutex for thread `tid` of a process that detects
    /// deadlocks or does not. A free mutex is taken. A held one is left as
    /// it is, except that a blocking mutex puts the thread at the end of its
    /// queue when deadlocks are not detected.
    fn lock(&mut self, tid: usize, detect: bool) -> (r: LockOutcome)
        ensures
            final(self).blocking() == old(self).blocking(),
            !old(self).locked() ==> r is Acquired && final(self).locked() && final(self).waiters()
                == old(self).waiters(),
            old(self).locked() ==> final(self).locked(),
            old(self).locked() && detect ==> r is WouldDeadlock && final(self).waiters() == old(self).waiters(),
            old(self).locked() && !detect && !old(self).blocking() ==> r is MustYield && final(self).waiters() == old(self).waiters(),
            old(self).locked() && !detect && old(self).blocking() ==> r is MustBlock && final(self).waiters() == old(self).waiters().push(tid),
    ;

    /// Gives the mutex up. Where a thread waits, the first in the queue
    /// leaves it and is returned: the mutex passes to it and stays held.
    /// Otherwise the mutex is free afterwards.
    fn unlock(&mut self) -> (woken: Option<usize>)
        requires
            old(self).blocking() ==> old(self).locked(),
        ensures
            final(self).blocking() == old(self).blocking(),
            match woken {
                Some(tid) => {
                    &&& old(self).waiters().len() > 0
                    &&& tid == old(self).waiters()[0]
                    &&& final(self).waiters() == old(self).waiters().drop_first()
                    &&& final(self).locked()
                },
                None => {
                    &&& old(self).waiters().len() == 0
                    &&& final(self).waiters() == old(self).waiters()
                    &&& !final(self).locked()
                },
            },
    ;
}

/// A mutex whose contenders yield and retry.
pub struct MutexSpin {
    locked: bool,
}

impl MutexSpin {
    /// A free mutex.
    pub fn new() -> (m: Self)
        ensures
            !m.locked(),
            !m.blocking(),
            m.waiters() == Seq::<usize>::empty(),
    {
        MutexSpin { locked: false }
    }

    /// Whether the mutex is held.
    pub fn is_locked(&self) -> (b: bool)
        ensures
            b == self.locked(),
    {
        self.locked
    }
}

impl Mutex for MutexSpin {
    closed spec fn locked(&self) -> bool {
        self.locked
    }

    open spec fn waiters(&self) -> Seq<usize> {
        Seq::empty()
    }

    open spec fn blocking(&self) -> bool {
        false
    }

    fn lock(&mut self, tid: usize, detect: bool) -> (r: LockOutcome) {
        if self.locked {
            if detect {
                LockOutcome::WouldDeadlock
            } else {
                LockOutcome::MustYield
            }
        } else {
            self.locked = true;
            LockOutcome::Acquired
        }
    }

    fn unlock(&mut self) -> (woken: Option<usize>) {
        self.locked = false;
        None
    }
}

/// The state of a blocking mutex.
pub struct MutexBlockingInner {
    locked: bool,
    wait_queue: VecDeque<usize>,
}

/// A mutex whose contenders wait in a queue.
pub struct MutexBlocking {
    inner: MutexBlockingInner,
}

impl MutexBlocking {
    /// A free mutex with nobody waiting.
    pub fn new() -> (m: Self)
        ensures
            !m.locked(),
            m.blocking(),
            m.waiters() == Seq::<usize>::empty(),
    {
        MutexBlocking { inner: MutexBlockingInner { locked: false, wait_queue: VecDeque::new() } }
    }

    /// Whether the mutex is held.
    pub fn is_locked(&self) -> (b: bool)
        ensures
            b == self.locked(),
    {
        self.inner.locked
    }

    /// How many threads wait for the mutex.
    pub fn waiting(&self) -> (n: usize)
        ensures
            n == self.waiters().len(),
    {
        self.inner.wait_queue.len()
    }
}

impl Mutex for MutexBlocking {
    closed spec fn locked(&self) -> bool {
        self.inner.locked
    }

    closed spec fn waiters(&self) -> Seq<usize> {
        self.inner.wait_queue@
    }

    open spec fn blocking(&self) -> bool {
        true
    }

    fn lock(&mut self, tid: usize, detect: bool) -> (r: LockOutcome) {
        if self.inner.locked {
            if detect {
                LockOutcome::WouldDeadlock
            } else {
                self.inner.wait_queue.push_back(tid);
                LockOutcome::MustBlock
            }
        } else {
            self.inner.locked = true;
            LockOutcome::Acquired
        }
    }

    fn unlock(&mut self) -> (woken: Option<usize>) {
        match self.inner.wait_queue.pop_front() {
            Some(tid) => {
                assert(old(self).waiters().drop_first() =~= self.inner.wait_queue@);
                Some(tid)
            },
            None => {
                self.inner.locked = false;
                None
            },
        }
    }
}

} // verus!

//! Synchronisation: mutexes, semaphores, condition variables, and the
//! banker's check that guards them against deadlock.

pub mod deadlock;
pub mod mutex;
pub mod semaphore;
pub mod condvar;

//! A verified model of a small preemptive operating-system kernel:
//! physical frames, page tables and address spaces, tasks and scheduling,
//! synchronisation with deadlock detection, and a flat filesystem.

pub mod config;
pub mod mm;
pub mod sync;
pub mod codec;
pub mod fs;
pub mod task;
pub mod loader;
pub mod kernel;
pub mod syscall;

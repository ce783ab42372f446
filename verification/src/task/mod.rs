//! Tasks and processes.

pub mod task;
pub mod process;

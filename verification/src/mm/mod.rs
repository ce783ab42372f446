//! Memory management: frames, page tables, address spaces.

pub mod frame_allocator;
pub mod page_table;
pub mod memory_set;

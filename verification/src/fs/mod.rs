//! The flat filesystem: directory entries, inodes, and open files.

pub mod layout;
pub mod inode;
pub mod file;

//! Mounting an image that stands on a block device, and what a virtual filesystem asks of it.

pub mod directory;
pub mod errno;
pub mod fs;
pub mod inode;
pub mod source;
pub mod vfs;

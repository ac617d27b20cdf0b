//! A verified reader for EROFS images.
//!
//! The bottom layer reads what stands on disk: directory blocks ([`dir`]), the maps of compressed
//! files ([`zmap`]), compression configurations and LZ4 blocks ([`compression`]). Above it
//! [`data`] hands out the bytes of files and areas block by block, [`operations`] looks up paths
//! and attributes, and [`mount`] is what a virtual filesystem asks of a mounted image.
//!
//! Devices, collections of inodes and the like are traits. The specification functions of these
//! traits have a body that says nothing, so that code that is not verified can implement them; an
//! implementation that is verified says there what it does.

use vstd::prelude::*;

pub mod alloc_helper;
pub mod bytes;
pub mod compression;
pub mod data;
pub mod dir;
pub mod errnos;
pub mod inode;
pub mod map;
pub mod mount;
pub mod operations;
pub mod superblock;
pub mod xattrs;
pub mod zmap;

verus! {

/// A byte offset into an image or a file.
pub type Off = u64;

/// The number of an on-disk inode.
pub type Nid = u64;

/// The number of a block.
pub type Blk = u32;

} // verus!

//! Extended attributes.

use vstd::prelude::*;

verus! {

/// The shared attributes of an inode.
#[derive(Debug)]
pub struct XAttrSharedEntries {
    /// A filter over the names of the attributes.
    pub name_filter: u32,
    /// Where the shared attributes stand.
    pub shared_indexes: Vec<u32>,
}

/// A name prefix that attributes can refer to.
#[derive(Debug)]
pub struct XAttrInfix(pub Vec<u8>);

/// The value of an attribute: copied into the caller's buffer, or a vector of its own.
#[derive(Debug)]
pub enum XAttrValue {
    Buffer(usize),
    Owned(Vec<u8>),
}

} // verus!

//! Where the bytes of a file stand on the device.

use crate::errnos::{Errno, PosixResult};
use crate::Off;
use vstd::prelude::*;

verus! {

/// A run of bytes.
#[derive(Debug, Clone, Copy, PartialEq, Eq, Structural)]
pub struct Segment {
    pub start: Off,
    pub len: Off,
}

/// What kind of area a mapping leads to.
#[derive(Debug, Clone, Copy, PartialEq, Eq, Structural)]
pub enum MapType {
    Meta,
    Normal,
}

/// How the bytes of a mapping are encoded.
#[derive(Debug, Clone, Copy, PartialEq, Eq, Structural)]
pub enum Algorithm {
    /// As they are.
    Raw,
    /// An LZ4 block.
    Lz4,
    /// As they are, from the start of a physical cluster.
    Shifted,
}

/// A run of a file and the run of the device that holds it.
#[derive(Debug, Clone, Copy, PartialEq, Eq, Structural)]
pub struct Mapping {
    pub logical: Segment,
    pub physical: Segment,
    pub algorithm_format: u16,
    pub device_id: u16,
    pub map_type: MapType,
    pub algorithm: Algorithm,
}

/// What asking for a mapping ends in.
pub type MapResult = PosixResult<Mapping>;

impl Mapping {
    /// The end of the logical run is an offset.
    pub open spec fn valid(self) -> bool {
        self.logical.start + self.logical.len <= u64::MAX
    }

    /// The end of the logical run.
    pub open spec fn logical_end(self) -> int {
        self.logical.start + self.logical.len
    }
}

/// The mappings of a file, from some offset on, one after the other. A failure is final: it is
/// reported again however often one asks.
pub trait MapIter {
    /// The mappings to come.
    open spec fn upcoming(&self) -> Seq<Mapping> {
        arbitrary()
    }

    /// What follows them: the end of the file, or a failure.
    open spec fn failure(&self) -> Option<Errno> {
        arbitrary()
    }

    /// Hands out the next mapping.
    fn next(&mut self) -> (r: Option<MapResult>)
        ensures
            final(self).failure() == old(self).failure(),
            if old(self).upcoming().len() > 0 {
                &&& r == Some(Ok::<Mapping, Errno>(old(self).upcoming()[0]))
                &&& final(self).upcoming() == old(self).upcoming().skip(1)
            } else {
                &&& final(self).upcoming() == old(self).upcoming()
                &&& r == match old(self).failure() {
                    Some(e) => Some(Err::<Mapping, Errno>(e)),
                    None => None,
                }
            },
    ;
}

} // verus!

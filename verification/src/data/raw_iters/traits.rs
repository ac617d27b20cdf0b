//! What the iterators over the bytes of an image have in common.

use crate::data::raw_iters::stream::Stream;
use crate::data::{BlockBuffer, Buffer};
use crate::errnos::PosixResult;
use crate::Off;
use vstd::prelude::*;

verus! {

/// Hands out the bytes of a file in the order of its mappings. The first buffer starts at the
/// offset that was asked for, and each of the others where the one before it ends; none of them
/// reaches over the end of a block.
pub trait BufferMapIter<'a> {
    /// Everything that is to be handed out has an address.
    open spec fn valid(&self) -> bool {
        arbitrary()
    }

    /// What is to be handed out.
    open spec fn stream(&self) -> Stream {
        arbitrary()
    }

    /// Hands out the next buffer.
    fn next(&mut self) -> (r: Option<PosixResult<BlockBuffer<'a>>>)
        requires
            old(self).valid(),
        ensures
            final(self).valid(),
            old(self).stream().hands_out(r, final(self).stream()),
    ;
}

/// Hands out the bytes of an area of the image. Bytes can be skipped.
pub trait ContinuousBufferIter<'a> {
    /// Everything that is to be handed out has an address.
    open spec fn valid(&self) -> bool {
        arbitrary()
    }

    /// What is to be handed out.
    open spec fn stream(&self) -> Stream {
        arbitrary()
    }

    /// Where the next buffer starts.
    open spec fn place(&self) -> int {
        arbitrary()
    }

    /// How many bytes are left.
    open spec fn left(&self) -> int {
        arbitrary()
    }

    /// Hands out the next buffer. A failure leaves everything as it was.
    fn next(&mut self) -> (r: Option<PosixResult<BlockBuffer<'a>>>)
        requires
            old(self).valid(),
        ensures
            final(self).valid(),
            old(self).stream().hands_out(r, final(self).stream()),
            match r {
                Some(Ok(buf)) => {
                    &&& final(self).place() == old(self).place() + buf.bytes().len()
                    &&& final(self).left() == old(self).left() - buf.bytes().len()
                },
                _ => {
                    &&& final(self).stream() == old(self).stream()
                    &&& final(self).place() == old(self).place()
                    &&& final(self).left() == old(self).left()
                },
            },
    ;

    /// Skips the next `offset` bytes.
    fn advance_off(&mut self, offset: Off)
        requires
            old(self).valid(),
            offset <= old(self).left(),
        ensures
            final(self).valid(),
            final(self).place() == old(self).place() + offset,
            final(self).left() == old(self).left() - offset,
    ;

    /// Whether nothing is left.
    fn eof(&self) -> (r: bool)
        ensures
            r == (self.left() == 0),
    ;
}

} // verus!

//! Where the bytes of an image come from, and the buffers that they are handed out in.

use crate::errnos::{Errno, PosixResult};
use crate::Off;
use vstd::prelude::*;

pub mod raw_iters;

verus! {

/// What a device answers to a request: the device's number, an offset and a length give the bytes
/// that it delivers, at most as many as were asked for, or an error. An EROFS image is read-only,
/// so the answer to a request does not change while the image is in use.
pub type Image = spec_fn(i32, Off, nat) -> PosixResult<Seq<u8>>;

/// A buffer that starts as `old` once a request was answered by `got`: what was delivered stands
/// in front, and the rest stays.
pub open spec fn overlaid(old: Seq<u8>, got: PosixResult<Seq<u8>>) -> Seq<u8> {
    match got {
        Ok(b) => b + old.skip(b.len() as int),
        Err(_) => old,
    }
}

/// How many bytes were delivered.
pub open spec fn delivered(got: PosixResult<Seq<u8>>) -> PosixResult<u64> {
    match got {
        Ok(b) => Ok(b.len() as u64),
        Err(e) => Err(e),
    }
}

/// A device that holds an image.
pub trait Backend {
    /// What the device answers to a request.
    open spec fn image(&self) -> Image {
        arbitrary()
    }

    /// Fills `data` from `offset` on and returns how many bytes were delivered; the bytes behind
    /// them keep their values.
    fn fill(&self, data: &mut [u8], device_id: i32, offset: Off) -> (r: PosixResult<u64>)
        requires
            old(data)@.len() <= isize::MAX,
        ensures
            r == delivered((self.image())(device_id, offset, old(data)@.len())),
            final(data)@ == overlaid(
                old(data)@,
                (self.image())(device_id, offset, old(data)@.len()),
            ),
            (self.image())(device_id, offset, old(data)@.len()) matches Ok(b) ==> b.len() <= old(
                data,
            )@.len(),
    ;
}

/// A device that is read into memory block by block.
pub trait FileBackend: Backend {

}

/// A device that is at hand in memory.
pub trait MemoryBackend<'a>: Backend {
    /// The bytes that are borrowed for a request.
    open spec fn window(&self, device_id: i32, offset: Off, len: Off) -> PosixResult<Seq<u8>> {
        arbitrary()
    }

    /// Borrows the `len` bytes from `offset` on.
    fn as_buf(&'a self, device_id: i32, offset: Off, len: Off) -> (r: PosixResult<RefBuffer<'a>>)
        ensures
            match self.window(device_id, offset, len) {
                Ok(b) => b.len() == len && (r matches Ok(buf) && buf.bytes() == b),
                Err(e) => r == Err::<RefBuffer<'a>, Errno>(e),
            },
    ;
}

/// A run of bytes that was read.
pub trait Buffer {
    /// The bytes.
    open spec fn bytes(&self) -> Seq<u8> {
        arbitrary()
    }

    /// The bytes.
    fn content(&self) -> (r: &[u8])
        ensures
            r@ == self.bytes(),
    ;
}

/// A buffer that holds a copy.
#[derive(Debug)]
pub struct TempBuffer {
    block: Vec<u8>,
    start: usize,
    maxsize: usize,
}

impl TempBuffer {
    #[verifier::type_invariant]
    closed spec fn inv(&self) -> bool {
        self.start <= self.maxsize <= self.block@.len()
    }

    /// A buffer of the bytes of `block` from `start` to `maxsize`.
    pub fn new(block: Vec<u8>, start: usize, maxsize: usize) -> (r: Self)
        requires
            start <= maxsize <= block@.len(),
        ensures
            r.bytes() == block@.subrange(start as int, maxsize as int),
    {
        TempBuffer { block, start, maxsize }
    }
}

impl Buffer for TempBuffer {
    closed spec fn bytes(&self) -> Seq<u8> {
        self.block@.subrange(self.start as int, self.maxsize as int)
    }

    fn content(&self) -> (r: &[u8]) {
        proof {
            use_type_invariant(self);
        }
        &self.block.as_slice()[self.start..self.maxsize]
    }
}

/// A buffer that is borrowed from a device in memory.
#[derive(Debug)]
pub struct RefBuffer<'a> {
    buf: &'a [u8],
}

impl<'a> RefBuffer<'a> {
    /// A buffer of the bytes of `buf`.
    pub fn new(buf: &'a [u8]) -> (r: Self)
        ensures
            r.bytes() == buf@,
    {
        RefBuffer { buf }
    }
}

impl<'a> Buffer for RefBuffer<'a> {
    closed spec fn bytes(&self) -> Seq<u8> {
        self.buf@
    }

    fn content(&self) -> (r: &[u8]) {
        self.buf
    }
}

/// A buffer of either kind.
#[derive(Debug)]
pub enum BlockBuffer<'a> {
    Ref(RefBuffer<'a>),
    Temp(TempBuffer),
}

impl<'a> Buffer for BlockBuffer<'a> {
    open spec fn bytes(&self) -> Seq<u8> {
        match self {
            BlockBuffer::Ref(b) => b.bytes(),
            BlockBuffer::Temp(b) => b.bytes(),
        }
    }

    fn content(&self) -> (r: &[u8]) {
        match self {
            BlockBuffer::Ref(b) => b.content(),
            BlockBuffer::Temp(b) => b.content(),
        }
    }
}

/// What a device delivers stands in front of what was there, and behind it everything stays. A
/// failure leaves everything as it was.
pub proof fn law_filling_keeps_the_rest(before: Seq<u8>, got: PosixResult<Seq<u8>>)
    requires
        got matches Ok(b) ==> b.len() <= before.len() <= u64::MAX,
    ensures
        ({
            let after = overlaid(before, got);
            &&& after.len() == before.len()
            &&& match got {
                Ok(b) => {
                    &&& delivered(got) == Ok::<u64, Errno>(b.len() as u64)
                    &&& after.take(b.len() as int) == b
                    &&& after.skip(b.len() as int) == before.skip(b.len() as int)
                },
                Err(e) => delivered(got) == Err::<u64, Errno>(e) && after == before,
            }
        }),
{
    if let Ok(b) = got {
        let after = overlaid(before, got);
        assert(after.take(b.len() as int) =~= b);
        assert(after.skip(b.len() as int) =~= before.skip(b.len() as int));
    }
}

} // verus!

//! Iterators that read a device into memory.

use crate::alloc_helper;
use crate::bytes;
use crate::compression::CompressionInfo;
use crate::data::raw_iters::decoded::{BufferState, Chunk, MapBufferState};
use crate::data::raw_iters::decoded;
use crate::data::raw_iters::stream;
use crate::data::raw_iters::stream::{Fetch, FileWalk, Stream};
use crate::data::raw_iters::traits::{BufferMapIter, ContinuousBufferIter};
use crate::data::{BlockBuffer, Buffer, FileBackend, TempBuffer};
use crate::errnos::{Errno, PosixResult};
use crate::map::MapIter;
use crate::superblock::SuperBlock;
use crate::Off;
use vstd::prelude::*;

verus! {

/// Hands out the bytes of a file, read into memory.
pub struct TempBufferMapIter<'a, B: FileBackend, M: MapIter> {
    sb: &'a SuperBlock,
    backend: &'a B,
    map_iter: M,
    state: MapBufferState<'a>,
}

impl<'a, B: FileBackend, M: MapIter> TempBufferMapIter<'a, B, M> {
    /// How far handing out has come.
    pub closed spec fn walk(&self) -> FileWalk {
        FileWalk {
            sb: *self.sb,
            image: self.backend.image(),
            fetch: stream::reading(self.backend.image()),
            copying: true,
            state: self.state.state(),
            maps: self.map_iter.upcoming(),
            failure: self.map_iter.failure(),
        }
    }

    /// The bytes of a file from `offset` on, which is where the mappings start.
    pub fn new(
        sb: &'a SuperBlock,
        backend: &'a B,
        compr: Option<&'a CompressionInfo>,
        map_iter: M,
        offset: Off,
    ) -> (r: Self)
        requires
            sb.valid(),
            stream::fits(*sb, offset as int, map_iter.upcoming()),
        ensures
            r.valid(),
            r.walk() == (FileWalk {
                sb: *sb,
                image: backend.image(),
                fetch: stream::reading(backend.image()),
                copying: true,
                state: BufferState {
                    compr: decoded::deref(compr),
                    pending: offset,
                    current: None,
                },
                maps: map_iter.upcoming(),
                failure: map_iter.failure(),
            }),
            r.stream() == r.walk().stream(),
    {
        TempBufferMapIter { sb, backend, map_iter, state: MapBufferState::new(compr, offset) }
    }

    /// Gets hold of the bytes of a chunk. They take memory, and where there is none, that is the
    /// answer.
    fn materialize(&self, chunk: Chunk) -> (r: PosixResult<BlockBuffer<'a>>)
        requires
            self.state.valid(),
            stream::holdable(chunk),
        ensures
            match stream::chunk_bytes(
                self.state.state(),
                stream::reading(self.backend.image()),
                chunk,
            ) {
                Ok(b) => match r {
                    Ok(buf) => buf.bytes() == b,
                    Err(e) => e == Errno::ENOMEM && alloc_helper::memory_refused(),
                },
                Err(e) => r == Err::<BlockBuffer<'a>, Errno>(e) || r == Err::<
                    BlockBuffer<'a>,
                    Errno,
                >(Errno::ENOMEM) && alloc_helper::memory_refused(),
            },
    {
        match chunk {
            Chunk::Raw { device_id, start, len } => {
                let mut block: Vec<u8> = alloc_helper::zeroed(len as usize)?;
                self.backend.fill(block.as_mut_slice(), device_id, start)?;
                let ghost whole = block@;
                assert(whole.subrange(0, len as int) =~= whole);
                Ok(BlockBuffer::Temp(TempBuffer::new(block, 0, len as usize)))
            },
            Chunk::Decoded { from, len } => {
                let data: Vec<u8> = self.state.take(from, len)?;
                let size: usize = data.len();
                let ghost whole = data@;
                assert(whole.subrange(0, size as int) =~= whole);
                Ok(BlockBuffer::Temp(TempBuffer::new(data, 0, size)))
            },
        }
    }

    /// Hands out the next buffer, if there is one.
    fn try_next(&mut self) -> (r: PosixResult<Option<BlockBuffer<'a>>>)
        requires
            old(self).valid(),
        ensures
            final(self).valid(),
            old(self).walk().answers(
                match r {
                    Ok(Some(buf)) => Some(Ok(buf)),
                    Ok(None) => None,
                    Err(e) => Some(Err(e)),
                },
                final(self).walk(),
            ),
    {
        match stream::fetch_chunk(&mut self.state, self.sb, self.backend, &mut self.map_iter)? {
            None => Ok(None),
            Some(chunk) => {
                let buf = self.materialize(chunk)?;
                Ok(Some(buf))
            },
        }
    }
}

impl<'a, B: FileBackend, M: MapIter> BufferMapIter<'a> for TempBufferMapIter<'a, B, M> {
    closed spec fn valid(&self) -> bool {
        &&& self.sb.valid()
        &&& self.state.valid()
        &&& self.walk().ready()
    }

    closed spec fn stream(&self) -> Stream {
        self.walk().stream()
    }

    fn next(&mut self) -> (r: Option<PosixResult<BlockBuffer<'a>>>)
        ensures
            old(self).walk().answers(r, final(self).walk()),
    {
        let ghost before = self.walk();
        let r = match self.try_next() {
            Ok(Some(buf)) => Some(Ok(buf)),
            Ok(None) => None,
            Err(e) => Some(Err(e)),
        };
        proof {
            stream::lemma_answers(before, r, self.walk());
        }
        r
    }
}

/// Hands out the bytes of an area of the first device, read into memory.
pub struct ContinuousTempBufferIter<'a, B: FileBackend> {
    sb: &'a SuperBlock,
    backend: &'a B,
    offset: Off,
    len: Off,
}

impl<'a, B: FileBackend> ContinuousTempBufferIter<'a, B> {
    /// The geometry of the image, and how its bytes are got hold of.
    pub closed spec fn area(&self) -> (SuperBlock, Fetch) {
        (*self.sb, stream::reading(self.backend.image()))
    }

    /// The `len` bytes from `offset` on.
    pub fn new(sb: &'a SuperBlock, backend: &'a B, offset: Off, len: Off) -> (r: Self)
        requires
            sb.valid(),
            offset + len <= u64::MAX,
        ensures
            r.valid(),
            r.place() == offset,
            r.left() == len,
            r.area() == (*sb, stream::reading(backend.image())),
    {
        ContinuousTempBufferIter { sb, backend, offset, len }
    }

    /// Reads the next buffer.
    fn try_yield(&mut self) -> (r: PosixResult<BlockBuffer<'a>>)
        requires
            old(self).valid(),
            old(self).left() > 0,
        ensures
            final(self).valid(),
            final(self).area() == old(self).area(),
            old(self).stream().hands_out(Some(r), final(self).stream()),
            match r {
                Ok(buf) => {
                    &&& final(self).place() == old(self).place() + buf.bytes().len()
                    &&& final(self).left() == old(self).left() - buf.bytes().len()
                },
                Err(_) => *final(self) == *old(self),
            },
    {
        let accessor = self.sb.blk_access(self.offset);
        let len: Off = bytes::min_u64(self.len, accessor.len);
        let mut block: Vec<u8> = alloc_helper::zeroed(len as usize)?;
        self.backend.fill(block.as_mut_slice(), 0, self.offset)?;
        let ghost whole = block@;
        assert(whole.subrange(0, len as int) =~= whole);
        self.offset = self.offset + len;
        self.len = self.len - len;
        proof {
            stream::lemma_behind(self.stream(), whole);
        }
        Ok(BlockBuffer::Temp(TempBuffer::new(block, 0, len as usize)))
    }
}

impl<'a, B: FileBackend> ContinuousBufferIter<'a> for ContinuousTempBufferIter<'a, B> {
    closed spec fn valid(&self) -> bool {
        &&& self.sb.valid()
        &&& self.offset + self.len <= u64::MAX
    }

    open spec fn stream(&self) -> Stream {
        stream::area_stream(self.area().0, self.area().1, self.place(), self.left())
    }

    closed spec fn place(&self) -> int {
        self.offset as int
    }

    closed spec fn left(&self) -> int {
        self.len as int
    }

    fn next(&mut self) -> (r: Option<PosixResult<BlockBuffer<'a>>>)
        ensures
            final(self).area() == old(self).area(),
            old(self).left() == 0 ==> r is None,
    {
        if self.len == 0 {
            return None;
        }
        Some(self.try_yield())
    }

    fn advance_off(&mut self, offset: Off)
        ensures
            final(self).area() == old(self).area(),
    {
        self.offset = self.offset + offset;
        self.len = self.len - offset;
    }

    fn eof(&self) -> (r: bool) {
        self.len == 0
    }
}

} // verus!

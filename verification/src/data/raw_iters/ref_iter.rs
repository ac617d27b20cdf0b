//! Iterators over a device that is at hand in memory.

use crate::alloc_helper;
use crate::bytes;
use crate::compression::CompressionInfo;
use crate::data::raw_iters::decoded::{BufferState, Chunk, MapBufferState};
use crate::data::raw_iters::decoded;
use crate::data::raw_iters::stream;
use crate::data::raw_iters::stream::{Fetch, FileWalk, Stream};
use crate::data::raw_iters::traits::{BufferMapIter, ContinuousBufferIter};
use crate::data::{BlockBuffer, Buffer, MemoryBackend, TempBuffer};
use crate::errnos::{Errno, PosixResult};
use crate::map::MapIter;
use crate::superblock::SuperBlock;
use crate::Off;
use vstd::prelude::*;

verus! {

/// What borrowing from a device in memory gets hold of.
pub open spec fn borrowing<'a, B: MemoryBackend<'a>>(backend: &B) -> Fetch {
    |device_id: i32, start: Off, len: Off| backend.window(device_id, start, len)
}

/// Hands out the bytes of a file, borrowed where they are not compressed.
pub struct RefMapIter<'a, B: MemoryBackend<'a>, M: MapIter> {
    sb: &'a SuperBlock,
    backend: &'a B,
    map_iter: M,
    state: MapBufferState<'a>,
}

impl<'a, B: MemoryBackend<'a>, M: MapIter> RefMapIter<'a, B, M> {
    /// How far handing out has come.
    pub closed spec fn walk(&self) -> FileWalk {
        FileWalk {
            sb: *self.sb,
            image: self.backend.image(),
            fetch: borrowing(self.backend),
            copying: false,
            state: self.state.state(),
            maps: self.map_iter.upcoming(),
            failure: self.map_iter.failure(),
        }
    }

    /// The bytes of a file from `offset` on, which is where the mappings start.
    pub fn new(
        sb: &'a SuperBlock,
        backend: &'a B,
        compr: Option<&'a CompressionInfo>,
        map_iter: M,
        offset: Off,
    ) -> (r: Self)
        requires
            sb.blkszbits < 64,
            stream::fits(*sb, offset as int, map_iter.upcoming()),
        ensures
            r.valid(),
            r.walk() == (FileWalk {
                sb: *sb,
                image: backend.image(),
                fetch: borrowing(backend),
                copying: false,
                state: BufferState {
                    compr: decoded::deref(compr),
                    pending: offset,
                    current: None,
                },
                maps: map_iter.upcoming(),
                failure: map_iter.failure(),
            }),
            r.stream() == r.walk().stream(),
    {
        RefMapIter { sb, backend, map_iter, state: MapBufferState::new(compr, offset) }
    }

    /// Gets hold of the bytes of a chunk. They take memory, and where there is none, that is the
    /// answer.
    fn materialize(&self, chunk: Chunk) -> (r: PosixResult<BlockBuffer<'a>>)
        requires
            self.state.valid(),
        ensures
            match stream::chunk_bytes(
                self.state.state(),
                borrowing(self.backend),
                chunk,
            ) {
                Ok(b) => match r {
                    Ok(buf) => buf.bytes() == b,
                    Err(e) => e == Errno::ENOMEM && alloc_helper::memory_refused() && chunk
                        is Decoded,
                },
                Err(e) => r == Err::<BlockBuffer<'a>, Errno>(e),
            },
    {
        match chunk {
            Chunk::Raw { device_id, start, len } => {
                let buf = self.backend.as_buf(device_id, start, len)?;
                Ok(BlockBuffer::Ref(buf))
            },
            Chunk::Decoded { from, len } => {
                let data: Vec<u8> = self.state.take(from, len)?;
                let size: usize = data.len();
                let ghost whole = data@;
                assert(whole.subrange(0, size as int) =~= whole);
                Ok(BlockBuffer::Temp(TempBuffer::new(data, 0, size)))
            },
        }
    }

    /// Hands out the next buffer, if there is one.
    fn try_next(&mut self) -> (r: PosixResult<Option<BlockBuffer<'a>>>)
        requires
            old(self).valid(),
        ensures
            final(self).valid(),
            old(self).walk().answers(
                match r {
                    Ok(Some(buf)) => Some(Ok(buf)),
                    Ok(None) => None,
                    Err(e) => Some(Err(e)),
                },
                final(self).walk(),
            ),
    {
        match stream::fetch_chunk(&mut self.state, self.sb, self.backend, &mut self.map_iter)? {
            None => Ok(None),
            Some(chunk) => {
                let buf = self.materialize(chunk)?;
                Ok(Some(buf))
            },
        }
    }
}

impl<'a, B: MemoryBackend<'a>, M: MapIter> BufferMapIter<'a> for RefMapIter<'a, B, M> {
    closed spec fn valid(&self) -> bool {
        &&& self.state.valid()
        &&& self.walk().ready()
    }

    closed spec fn stream(&self) -> Stream {
        self.walk().stream()
    }

    fn next(&mut self) -> (r: Option<PosixResult<BlockBuffer<'a>>>)
        ensures
            old(self).walk().answers(r, final(self).walk()),
    {
        let ghost before = self.walk();
        let r = match self.try_next() {
            Ok(Some(buf)) => Some(Ok(buf)),
            Ok(None) => None,
            Err(e) => Some(Err(e)),
        };
        proof {
            stream::lemma_answers(before, r, self.walk());
        }
        r
    }
}

/// Hands out the bytes of an area of the first device, borrowed.
pub struct ContinuousRefIter<'a, B: MemoryBackend<'a>> {
    sb: &'a SuperBlock,
    backend: &'a B,
    offset: Off,
    len: Off,
}

impl<'a, B: MemoryBackend<'a>> ContinuousRefIter<'a, B> {
    /// The geometry of the image, and how its bytes are got hold of.
    pub closed spec fn area(&self) -> (SuperBlock, Fetch) {
        (*self.sb, borrowing(self.backend))
    }

    /// The `len` bytes from `offset` on.
    pub fn new(sb: &'a SuperBlock, backend: &'a B, offset: Off, len: Off) -> (r: Self)
        requires
            sb.blkszbits < 64,
            offset + len <= u64::MAX,
        ensures
            r.valid(),
            r.place() == offset,
            r.left() == len,
            r.area() == (*sb, borrowing(backend)),
    {
        ContinuousRefIter { sb, backend, offset, len }
    }
}

impl<'a, B: MemoryBackend<'a>> ContinuousBufferIter<'a> for ContinuousRefIter<'a, B> {
    closed spec fn valid(&self) -> bool {
        &&& self.sb.blkszbits < 64
        &&& self.offset + self.len <= u64::MAX
    }

    open spec fn stream(&self) -> Stream {
        stream::area_stream(self.area().0, self.area().1, self.place(), self.left())
    }

    closed spec fn place(&self) -> int {
        self.offset as int
    }

    closed spec fn left(&self) -> int {
        self.len as int
    }

    fn next(&mut self) -> (r: Option<PosixResult<BlockBuffer<'a>>>)
        ensures
            final(self).area() == old(self).area(),
            old(self).stream().buffers.len() > 0 ==> r matches Some(Ok(_)),
            r matches Some(Err(e)) ==> old(self).stream().failure == Some(e),
    {
        if self.len == 0 {
            return None;
        }
        let accessor = self.sb.blk_access(self.offset);
        let len: Off = bytes::min_u64(accessor.len, self.len);
        match self.backend.as_buf(0, self.offset, len) {
            Err(e) => Some(Err(e)),
            Ok(buf) => {
                self.offset = self.offset + len;
                self.len = self.len - len;
                proof {
                    stream::lemma_behind(self.stream(), buf.bytes());
                }
                Some(Ok(BlockBuffer::Ref(buf)))
            },
        }
    }

    fn advance_off(&mut self, offset: Off)
        ensures
            final(self).area() == old(self).area(),
    {
        self.offset = self.offset + offset;
        self.len = self.len - offset;
    }

    fn eof(&self) -> (r: bool) {
        self.len == 0
    }
}

/// What is borrowed is what the device has at that place, without a copy and without a change.
pub proof fn law_borrowing_is_looking_through_the_window<'a, B: MemoryBackend<'a>>(
    backend: &B,
    device_id: i32,
    start: Off,
    len: Off,
)
    ensures
        borrowing(backend)(device_id, start, len) == backend.window(device_id, start, len),
{
}

} // verus!

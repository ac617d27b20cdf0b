//! What is handed out over time: the buffers that are to come, and what follows them.

use crate::alloc_helper;
use crate::bytes;
use crate::data;
use crate::data::raw_iters::decoded::{BufferState, Chunk, MapBufferState};
use crate::data::raw_iters::decoded;
use crate::data::{Backend, BlockBuffer, Buffer, Image};
use crate::errnos::{Errno, PosixResult};
use crate::map::{Algorithm, MapIter, Mapping};
use crate::superblock;
use crate::superblock::SuperBlock;
use crate::Off;
use vstd::prelude::*;

verus! {

/// The contents of the buffers to come, and what follows them: the end, or a failure.
#[verifier::ext_equal]
pub struct Stream {
    pub buffers: Seq<Seq<u8>>,
    pub failure: Option<Errno>,
}

impl Stream {
    /// Nothing to come but the end or a failure.
    pub open spec fn ending(failure: Option<Errno>) -> Stream {
        Stream { buffers: Seq::empty(), failure }
    }

    /// A buffer, and then the rest.
    pub open spec fn behind(self, buffer: Seq<u8>) -> Stream {
        Stream { buffers: seq![buffer] + self.buffers, failure: self.failure }
    }

    /// What is left once the first buffer is handed out.
    pub open spec fn tail(self) -> Stream {
        Stream { buffers: self.buffers.skip(1), failure: self.failure }
    }

    /// All bytes to come.
    pub open spec fn content(self) -> Seq<u8> {
        self.buffers.flatten()
    }

    /// Asking for the next buffer is answered by `r`, and `rest` is to come then. Buffers take
    /// memory, and where there is none, that is the answer at any time. What is to come after a
    /// failure is up to who hands out.
    pub open spec fn hands_out(
        self,
        r: Option<PosixResult<BlockBuffer<'_>>>,
        rest: Stream,
    ) -> bool {
        match r {
            Some(Ok(buf)) => {
                &&& self.buffers.len() > 0
                &&& buf.bytes() == self.buffers[0]
                &&& rest == self.tail()
            },
            Some(Err(e)) => {
                ||| e == Errno::ENOMEM && alloc_helper::memory_refused()
                ||| self.buffers.len() == 0 && self.failure == Some(e)
            },
            None => self.buffers.len() == 0 && self.failure is None && rest == self,
        }
    }
}

/// A buffer before the rest is handed out first, and the rest stays.
pub proof fn lemma_behind(s: Stream, buffer: Seq<u8>)
    ensures
        s.behind(buffer).buffers.len() == s.buffers.len() + 1,
        s.behind(buffer).buffers[0] == buffer,
        s.behind(buffer).tail() == s,
        s.behind(buffer).content() == buffer + s.content(),
{
    let b = s.behind(buffer).buffers;
    assert(b.skip(1) =~= s.buffers);
    assert(b.drop_first() =~= s.buffers);
    assert(b.first() == buffer);
}

/// All bytes to come are those of the first buffer, and then those of the rest.
pub proof fn lemma_content(s: Stream)
    ensures
        s.buffers.len() > 0 ==> s.content() == s.buffers[0] + s.tail().content(),
        s.buffers.len() == 0 ==> s.content() == Seq::<u8>::empty(),
{
    if s.buffers.len() > 0 {
        assert(s.buffers.drop_first() =~= s.buffers.skip(1));
    }
}

/// How a range of a device is got hold of: the device's number, where it starts and its length
/// give the bytes or an error.
pub type Fetch = spec_fn(i32, Off, Off) -> PosixResult<Seq<u8>>;

/// The bytes of a chunk, once the state has moved past it.
pub open spec fn chunk_bytes(st: BufferState, fetch: Fetch, chunk: Chunk) -> PosixResult<
    Seq<u8>,
> {
    match chunk {
        Chunk::Raw { device_id, start, len } => fetch(device_id, start, len),
        Chunk::Decoded { from, len } => match st.current {
            None => Err(Errno::EUCLEAN),
            Some((map, data)) => {
                let place = from - map.logical.start;
                if place < 0 || place > data.len() {
                    Err(Errno::EUCLEAN)
                } else {
                    Ok(
                        data.subrange(
                            place,
                            place + bytes::least(data.len() - place, len as int),
                        ),
                    )
                }
            },
        },
    }
}

/// How far the place to hand out next can come with the extent at hand.
pub open spec fn horizon(st: BufferState) -> int {
    match st.current {
        Some((map, _)) => bytes::greatest(st.pending as int, map.logical_end()),
        None => st.pending as int,
    }
}

/// Whether the mappings to come stay within the address space, if the place to hand out next is
/// at most `place`.
pub open spec fn fits(sb: SuperBlock, place: int, maps: Seq<Mapping>) -> bool
    decreases maps.len(),
{
    if maps.len() == 0 {
        true
    } else if maps[0].algorithm == Algorithm::Raw {
        let len = BufferState::raw_len(sb, maps[0]);
        if maps[0].logical.start <= place {
            place + len <= u64::MAX && fits(sb, place + len, maps.skip(1))
        } else {
            fits(sb, place, maps.skip(1))
        }
    } else {
        &&& maps[0].valid()
        &&& fits(sb, bytes::greatest(place, maps[0].logical_end()), maps.skip(1))
    }
}

/// What fits behind a later place fits behind an earlier one.
pub proof fn lemma_fits_earlier(sb: SuperBlock, place: int, earlier: int, maps: Seq<Mapping>)
    requires
        sb.blkszbits < 64,
        fits(sb, place, maps),
        earlier <= place,
    ensures
        fits(sb, earlier, maps),
    decreases maps.len(),
{
    if maps.len() > 0 {
        let map = maps[0];
        let rest = maps.skip(1);
        if map.algorithm == Algorithm::Raw {
            superblock::lemma_block_split(map.physical.start, sb.blkszbits);
            let len = BufferState::raw_len(sb, map);
            if map.logical.start <= earlier {
                lemma_fits_earlier(sb, place + len, earlier + len, rest);
            } else if map.logical.start <= place {
                lemma_fits_earlier(sb, place + len, earlier, rest);
            } else {
                lemma_fits_earlier(sb, place, earlier, rest);
            }
        } else {
            lemma_fits_earlier(
                sb,
                bytes::greatest(place, map.logical_end()),
                bytes::greatest(earlier, map.logical_end()),
                rest,
            );
        }
    }
}

/// The next chunk of a file: from the extent at hand as long as there is one, and then from the
/// mappings to come.
pub open spec fn next_chunk(
    st: BufferState,
    sb: SuperBlock,
    image: Image,
    maps: Seq<Mapping>,
    failure: Option<Errno>,
) -> (BufferState, Seq<Mapping>, PosixResult<Option<Chunk>>)
    decreases maps.len(),
{
    let (on, r) = st.advance(sb, image);
    if r != Ok::<Option<Chunk>, Errno>(None) {
        (on, maps, r)
    } else if maps.len() == 0 {
        (
            on,
            maps,
            match failure {
                Some(e) => Err(e),
                None => Ok(None),
            },
        )
    } else {
        let (fed, r) = on.feed(sb, image, maps[0]);
        if r != Ok::<Option<Chunk>, Errno>(None) {
            (fed, maps.skip(1), r)
        } else {
            next_chunk(fed, sb, image, maps.skip(1), failure)
        }
    }
}

/// How much of the extent at hand is still to be handed out.
pub open spec fn extent_left(st: BufferState) -> int {
    match st.current {
        Some((map, _)) => bytes::greatest(map.logical_end() - st.pending, 0),
        None => 0,
    }
}

/// With every chunk, either a mapping is used up or there is less left of the extent at hand.
pub proof fn lemma_next_chunk_progress(
    st: BufferState,
    sb: SuperBlock,
    image: Image,
    maps: Seq<Mapping>,
    failure: Option<Errno>,
)
    ensures
        ({
            let (next, rest, r) = next_chunk(st, sb, image, maps, failure);
            &&& rest.len() <= maps.len()
            &&& r matches Ok(Some(_)) ==> {
                ||| rest.len() < maps.len()
                ||| rest == maps && extent_left(next) < extent_left(st)
            }
        }),
    decreases maps.len(),
{
    let (on, r) = st.advance(sb, image);
    if r != Ok::<Option<Chunk>, Errno>(None) {
        let size = sb.spec_blksz();
        let nr = st.pending as int / size;
        vstd::arithmetic::power2::lemma_pow2_pos(sb.blkszbits as nat);
        vstd::arithmetic::div_mod::lemma_fundamental_div_mod(st.pending as int, size);
        assert((nr + 1) * size == size * nr + size) by (nonlinear_arith);
    } else if maps.len() > 0 {
        let (fed, r) = on.feed(sb, image, maps[0]);
        lemma_next_chunk_progress(fed, sb, image, maps.skip(1), failure);
    }
}

/// Everything is within the address space.
pub open spec fn ready(st: BufferState, sb: SuperBlock, maps: Seq<Mapping>) -> bool {
    &&& sb.blkszbits < 64
    &&& st.valid()
    &&& fits(sb, horizon(st), maps)
}

/// Handing out on from the extent at hand stays within the address space.
proof fn lemma_advance_ready(
    st: BufferState,
    sb: SuperBlock,
    image: Image,
    maps: Seq<Mapping>,
)
    requires
        ready(st, sb, maps),
    ensures
        ready(st.advance(sb, image).0, sb, maps),
        ready(st.dropped(), sb, maps),
{
    decoded::law_advance_is_contiguous(st, sb, image);
    lemma_fits_earlier(sb, horizon(st), horizon(st.advance(sb, image).0), maps);
    lemma_fits_earlier(sb, horizon(st), horizon(st.dropped()), maps);
}

/// A mapping to come can be taken, and taking it stays within the address space.
proof fn lemma_feed_ready(st: BufferState, sb: SuperBlock, image: Image, maps: Seq<Mapping>)
    requires
        ready(st, sb, maps),
        st.current is None,
        maps.len() > 0,
    ensures
        st.takes(sb, maps[0]),
        ready(st.feed(sb, image, maps[0]).0, sb, maps.skip(1)),
        ready(st, sb, maps.skip(1)),
{
    let map = maps[0];
    let rest = maps.skip(1);
    decoded::law_feed_is_contiguous(st, sb, image, map);
    superblock::lemma_block_split(map.physical.start, sb.blkszbits);
    let place = horizon(st);
    let bound = if map.algorithm == Algorithm::Raw {
        if map.logical.start <= place {
            place + BufferState::raw_len(sb, map)
        } else {
            place
        }
    } else {
        bytes::greatest(place, map.logical_end())
    };
    lemma_fits_earlier(sb, bound, horizon(st.feed(sb, image, map).0), rest);
    lemma_fits_earlier(sb, bound, place, rest);
}

/// The chunks of a file follow one another without a gap: each is not empty, lies within a block,
/// and moves the place to hand out next by its length. A decoded chunk starts at that place, and
/// all of it is at hand.
pub proof fn law_chunks_are_contiguous(
    st: BufferState,
    sb: SuperBlock,
    image: Image,
    maps: Seq<Mapping>,
    failure: Option<Errno>,
)
    requires
        ready(st, sb, maps),
    ensures
        ({
            let (next, rest, r) = next_chunk(st, sb, image, maps, failure);
            &&& ready(next, sb, rest)
            &&& next.compr == st.compr
            &&& match r {
                Ok(Some(Chunk::Raw { start, len, .. })) => {
                    &&& 0 < len <= sb.spec_blksz()
                    &&& (start + len - 1) / sb.spec_blksz() == start as int / sb.spec_blksz()
                    &&& next.pending == st.pending + len
                },
                Ok(Some(Chunk::Decoded { from, len })) => {
                    &&& 0 < len <= sb.spec_blksz()
                    &&& (from + len - 1) / sb.spec_blksz() == from as int / sb.spec_blksz()
                    &&& from == st.pending
                    &&& next.pending == st.pending + len
                    &&& next.current matches Some((map, data)) && map.logical.start <= from && from
                        + len <= map.logical.start + data.len()
                },
                _ => next.pending == st.pending,
            }
        }),
    decreases maps.len(),
{
    superblock::lemma_block_split(st.pending, sb.blkszbits);
    lemma_advance_ready(st, sb, image, maps);
    decoded::law_advance_is_contiguous(st, sb, image);
    let size = sb.spec_blksz();
    let nr = st.pending as int / size;
    assert((nr + 1) * size == nr * size + size) by (nonlinear_arith);
    let (on, r) = st.advance(sb, image);
    if r == Ok::<Option<Chunk>, Errno>(None) && maps.len() > 0 {
        lemma_feed_ready(on, sb, image, maps);
        decoded::law_feed_is_contiguous(on, sb, image, maps[0]);
        superblock::lemma_block_split(maps[0].physical.start, sb.blkszbits);
        let (fed, r) = on.feed(sb, image, maps[0]);
        if r == Ok::<Option<Chunk>, Errno>(None) {
            law_chunks_are_contiguous(fed, sb, image, maps.skip(1), failure);
        }
    }
}

/// Whether an extent has to be decoded to find the next chunk.
pub open spec fn must_decode(st: BufferState, sb: SuperBlock, maps: Seq<Mapping>) -> bool {
    ||| st.must_decode(sb)
    ||| {
        &&& st.current matches Some((map, _)) ==> st.pending >= map.logical_end()
        &&& maps.len() > 0
        &&& st.feed_decodes(sb, maps[0])
    }
}

/// Whether looking for the next chunk can come to the point where it takes memory, with `last` and
/// `left` as the state and the mappings to come if there is none: an extent that cannot be read is
/// dropped, and a mapping that was taken off is used up.
pub open spec fn decoding_refused(
    st: BufferState,
    sb: SuperBlock,
    image: Image,
    maps: Seq<Mapping>,
    last: BufferState,
    left: Seq<Mapping>,
) -> bool
    decreases maps.len(),
{
    let (on, r) = st.advance(sb, image);
    ||| st.must_decode(sb) && last == st.dropped() && left == maps
    ||| {
        &&& r == Ok::<Option<Chunk>, Errno>(None)
        &&& maps.len() > 0
        &&& {
            let (fed, r) = on.feed(sb, image, maps[0]);
            ||| on.feed_decodes(sb, maps[0]) && last == on && left == maps.skip(1)
            ||| {
                &&& r == Ok::<Option<Chunk>, Errno>(None)
                &&& decoding_refused(fed, sb, image, maps.skip(1), last, left)
            }
        }
    }
}

/// Memory is only taken where an extent has to be decoded.
proof fn lemma_decoding_refused(
    st: BufferState,
    sb: SuperBlock,
    image: Image,
    maps: Seq<Mapping>,
    last: BufferState,
    left: Seq<Mapping>,
)
    requires
        decoding_refused(st, sb, image, maps, last, left),
    ensures
        must_decode(st, sb, maps),
{
}

/// Whether a chunk can be held in memory.
pub open spec fn holdable(chunk: Chunk) -> bool {
    chunk matches Chunk::Raw { len, .. } ==> len <= 0x4000_0000
}

/// Finds the next chunk of a file. Decoding takes memory, and where there is none, that is the
/// answer.
pub fn fetch_chunk<B: Backend + ?Sized, M: MapIter>(
    state: &mut MapBufferState<'_>,
    sb: &SuperBlock,
    backend: &B,
    maps: &mut M,
) -> (r: PosixResult<Option<Chunk>>)
    requires
        old(state).valid(),
        ready(old(state).state(), *sb, old(maps).upcoming()),
    ensures
        final(state).valid(),
        ready(final(state).state(), *sb, final(maps).upcoming()),
        final(state).state().compr == old(state).state().compr,
        final(maps).failure() == old(maps).failure(),
        r matches Ok(Some(chunk)) ==> sb.valid() ==> holdable(chunk),
        ({
            ||| (final(state).state(), final(maps).upcoming(), r) == next_chunk(
                old(state).state(),
                *sb,
                backend.image(),
                old(maps).upcoming(),
                old(maps).failure(),
            )
            ||| {
                &&& r == Err::<Option<Chunk>, Errno>(Errno::ENOMEM)
                &&& alloc_helper::memory_refused()
                &&& must_decode(old(state).state(), *sb, old(maps).upcoming())
                &&& decoding_refused(
                    old(state).state(),
                    *sb,
                    backend.image(),
                    old(maps).upcoming(),
                    final(state).state(),
                    final(maps).upcoming(),
                )
            }
        }),
{
    let ghost image = backend.image();
    let ghost target = next_chunk(
        state.state(),
        *sb,
        image,
        maps.upcoming(),
        maps.failure(),
    );
    loop
        invariant
            state.valid(),
            ready(state.state(), *sb, maps.upcoming()),
            state.state().compr == old(state).state().compr,
            maps.failure() == old(maps).failure(),
            image == backend.image(),
            target == next_chunk(
                old(state).state(),
                *sb,
                image,
                old(maps).upcoming(),
                old(maps).failure(),
            ),
            target == next_chunk(state.state(), *sb, image, maps.upcoming(), maps.failure()),
            forall|last: BufferState, left: Seq<Mapping>| #[trigger]
                decoding_refused(state.state(), *sb, image, maps.upcoming(), last, left)
                    ==> decoding_refused(
                    old(state).state(),
                    *sb,
                    image,
                    old(maps).upcoming(),
                    last,
                    left,
                ),
        decreases maps.upcoming().len(),
    {
        let ghost before = state.state();
        let ghost queue = maps.upcoming();
        proof {
            lemma_advance_ready(before, *sb, image, queue);
            decoded::law_advance_is_contiguous(before, *sb, image);
            assert forall|last: BufferState, left: Seq<Mapping>| #[trigger]
                decoding_refused(before, *sb, image, queue, last, left) implies must_decode(
                old(state).state(),
                *sb,
                old(maps).upcoming(),
            ) by {
                lemma_decoding_refused(
                    old(state).state(),
                    *sb,
                    image,
                    old(maps).upcoming(),
                    last,
                    left,
                );
            }
            assert(before.must_decode(*sb) ==> decoding_refused(
                before,
                *sb,
                image,
                queue,
                before.dropped(),
                queue,
            ));
        }
        if let Some(chunk) = state.advance(sb, backend)? {
            return Ok(Some(chunk));
        }
        let ghost on = state.state();
        match maps.next() {
            Some(Ok(map)) => {
                let ghost rest = maps.upcoming();
                proof {
                    lemma_feed_ready(on, *sb, image, queue);
                    decoded::law_feed_is_contiguous(on, *sb, image, map);
                    if sb.valid() {
                        superblock::lemma_block_size(sb.blkszbits);
                    }
                    superblock::lemma_block_split(map.physical.start, sb.blkszbits);
                    assert(on.feed_decodes(*sb, map) ==> decoding_refused(
                        before,
                        *sb,
                        image,
                        queue,
                        on,
                        rest,
                    ));
                }
                if let Some(chunk) = state.feed(sb, backend, map)? {
                    return Ok(Some(chunk));
                }
                assert forall|last: BufferState, left: Seq<Mapping>| #[trigger]
                    decoding_refused(state.state(), *sb, image, rest, last, left) implies
                    decoding_refused(before, *sb, image, queue, last, left) by {}
            },
            Some(Err(e)) => {
                return Err(e);
            },
            None => {
                return Ok(None);
            },
        }
    }
}

/// What is to be handed out of a file: the bytes of one chunk after the other, until the end or
/// a failure.
pub open spec fn map_stream(
    st: BufferState,
    sb: SuperBlock,
    image: Image,
    fetch: Fetch,
    maps: Seq<Mapping>,
    failure: Option<Errno>,
) -> Stream
    decreases maps.len(), extent_left(st),
{
    let (next, rest, r) = next_chunk(st, sb, image, maps, failure);
    match r {
        Err(e) => Stream::ending(Some(e)),
        Ok(None) => Stream::ending(None),
        Ok(Some(chunk)) => match chunk_bytes(next, fetch, chunk) {
            Err(e) => Stream::ending(Some(e)),
            Ok(b) => {
                proof {
                    lemma_next_chunk_progress(st, sb, image, maps, failure);
                }
                map_stream(next, sb, image, fetch, rest, failure).behind(b)
            },
        },
    }
}

/// Handing out a chunk hands out the first buffer, and the rest follows from where that leaves
/// off. Where there is no chunk, there is no buffer either.
pub proof fn lemma_stream_step(
    st: BufferState,
    sb: SuperBlock,
    image: Image,
    fetch: Fetch,
    maps: Seq<Mapping>,
    failure: Option<Errno>,
)
    requires
        ready(st, sb, maps),
    ensures
        ({
            let whole = map_stream(st, sb, image, fetch, maps, failure);
            let (next, rest, r) = next_chunk(st, sb, image, maps, failure);
            match r {
                Err(e) => whole == Stream::ending(Some(e)),
                Ok(None) => {
                    &&& whole == Stream::ending(None)
                    &&& map_stream(next, sb, image, fetch, rest, failure) == whole
                },
                Ok(Some(chunk)) => match chunk_bytes(next, fetch, chunk) {
                    Err(e) => whole == Stream::ending(Some(e)),
                    Ok(b) => {
                        &&& whole.buffers.len() > 0
                        &&& whole.buffers[0] == b
                        &&& whole.tail() == map_stream(next, sb, image, fetch, rest, failure)
                    },
                },
            }
        }),
{
    let (next, rest, r) = next_chunk(st, sb, image, maps, failure);
    if let Ok(Some(chunk)) = r {
        if let Ok(b) = chunk_bytes(next, fetch, chunk) {
            lemma_behind(map_stream(next, sb, image, fetch, rest, failure), b);
        }
    } else if r == Ok::<Option<Chunk>, Errno>(None) {
        lemma_exhausted(st, sb, image, maps, failure);
    }
}

/// Where nothing is left, nothing is left the next time.
proof fn lemma_exhausted(
    st: BufferState,
    sb: SuperBlock,
    image: Image,
    maps: Seq<Mapping>,
    failure: Option<Errno>,
)
    ensures
        ({
            let (next, rest, r) = next_chunk(st, sb, image, maps, failure);
            r == Ok::<Option<Chunk>, Errno>(None) ==> next_chunk(
                next,
                sb,
                image,
                rest,
                failure,
            ) == (next, rest, r)
        }),
    decreases maps.len(),
{
    let (on, r) = st.advance(sb, image);
    if r == Ok::<Option<Chunk>, Errno>(None) && maps.len() > 0 {
        let (fed, r) = on.feed(sb, image, maps[0]);
        if r == Ok::<Option<Chunk>, Errno>(None) {
            lemma_exhausted(fed, sb, image, maps.skip(1), failure);
        }
    }
}

/// How far handing out a file has come, and what it depends on.
#[verifier::ext_equal]
pub struct FileWalk {
    pub sb: SuperBlock,
    pub image: Image,
    /// How what is not compressed is got hold of.
    pub fetch: Fetch,
    /// Whether what is not compressed is copied into memory.
    pub copying: bool,
    pub state: BufferState,
    /// The mappings to come.
    pub maps: Seq<Mapping>,
    /// What follows them.
    pub failure: Option<Errno>,
}

impl FileWalk {
    /// Everything that is to be handed out has an address.
    pub open spec fn ready(self) -> bool {
        ready(self.state, self.sb, self.maps)
    }

    /// What is to be handed out.
    pub open spec fn stream(self) -> Stream {
        map_stream(self.state, self.sb, self.image, self.fetch, self.maps, self.failure)
    }

    /// The same file, at another place.
    pub open spec fn at(self, state: BufferState, maps: Seq<Mapping>) -> FileWalk {
        FileWalk { state, maps, ..self }
    }

    /// The next chunk, and where that leads.
    pub open spec fn chunk(self) -> (FileWalk, PosixResult<Option<Chunk>>) {
        let (state, maps, r) = next_chunk(
            self.state,
            self.sb,
            self.image,
            self.maps,
            self.failure,
        );
        (self.at(state, maps), r)
    }

    /// The next buffer, and where that leads. A failure is passed by: an extent that cannot be
    /// decoded is dropped, and a mapping or a chunk that fails is used up. Only the failure behind
    /// the mappings stays.
    pub open spec fn next(self) -> (FileWalk, PosixResult<Option<Seq<u8>>>) {
        let (after, r) = self.chunk();
        (
            after,
            match r {
                Err(e) => Err(e),
                Ok(None) => Ok(None),
                Ok(Some(chunk)) => match chunk_bytes(after.state, self.fetch, chunk) {
                    Err(e) => Err(e),
                    Ok(b) => Ok(Some(b)),
                },
            },
        )
    }

    /// Whether asking for the next buffer can come to the point where it takes memory, and leads to
    /// `after` if there is none: an extent is decoded, or a chunk is copied.
    pub open spec fn refused(self, after: FileWalk) -> bool {
        ||| {
            &&& decoding_refused(
                self.state,
                self.sb,
                self.image,
                self.maps,
                after.state,
                after.maps,
            )
            &&& after == self.at(after.state, after.maps)
        }
        ||| {
            &&& self.chunk().1 matches Ok(Some(chunk))
            &&& self.copying || chunk is Decoded
            &&& after == self.chunk().0
        }
    }

    /// Whether asking for the next buffer is answered by `r` and leads to `after`.
    pub open spec fn answers(
        self,
        r: Option<PosixResult<BlockBuffer<'_>>>,
        after: FileWalk,
    ) -> bool {
        match r {
            Some(Ok(buf)) => self.next() == (after, Ok::<Option<Seq<u8>>, Errno>(Some(buf.bytes()))),
            None => self.next() == (after, Ok::<Option<Seq<u8>>, Errno>(None)),
            Some(Err(e)) => {
                ||| self.next() == (after, Err::<Option<Seq<u8>>, Errno>(e))
                ||| e == Errno::ENOMEM && alloc_helper::memory_refused() && self.refused(after)
            },
        }
    }
}

/// What answers a question for the next buffer is handed out of the stream.
pub proof fn lemma_answers(
    walk: FileWalk,
    r: Option<PosixResult<BlockBuffer<'_>>>,
    after: FileWalk,
)
    requires
        walk.ready(),
        walk.answers(r, after),
    ensures
        walk.stream().hands_out(r, after.stream()),
{
    lemma_stream_step(
        walk.state,
        walk.sb,
        walk.image,
        walk.fetch,
        walk.maps,
        walk.failure,
    );
}

/// The failure behind the mappings is final: it comes again however often one asks.
pub proof fn law_failure_of_the_mappings_is_final(walk: FileWalk, e: Errno)
    requires
        walk.maps.len() == 0,
        walk.state.advance(walk.sb, walk.image).1 == Ok::<Option<Chunk>, Errno>(None),
        walk.failure == Some(e),
    ensures
        ({
            let (after, r) = walk.next();
            &&& r == Err::<Option<Seq<u8>>, Errno>(e)
            &&& after.next() == (after, r)
            &&& after.stream() == walk.stream()
        }),
{
    let (after, _) = walk.next();
    assert(after.state.advance(walk.sb, walk.image) == (
        after.state,
        Ok::<Option<Chunk>, Errno>(None),
    ));
}

/// What reading into zeroed memory gets hold of: the bytes that are delivered, and zeros where
/// the device delivers less.
pub open spec fn reading(image: Image) -> Fetch {
    |device_id: i32, start: Off, len: Off|
        match image(device_id, start, len as nat) {
            Ok(b) => Ok(data::overlaid(alloc_helper::zeros(len as nat), Ok(b))),
            Err(e) => Err(e),
        }
}

/// How much of an area is handed out at once: up to the end of the block or of the area.
pub open spec fn piece(sb: SuperBlock, offset: int, left: int) -> int {
    bytes::least(sb.spec_blksz() - offset % sb.spec_blksz(), left)
}

/// What is to be handed out of the `left` bytes of the first device from `offset` on: block by
/// block, until the end or a failure.
pub open spec fn area_stream(sb: SuperBlock, fetch: Fetch, offset: int, left: int) -> Stream
    decreases left,
{
    let len = piece(sb, offset, left);
    if left <= 0 || len <= 0 {
        Stream::ending(None)
    } else {
        match fetch(0, offset as Off, len as Off) {
            Err(e) => Stream::ending(Some(e)),
            Ok(b) => area_stream(sb, fetch, offset + len, left - len).behind(b),
        }
    }
}

/// The block of a place ends no later than the last block before a later place.
proof fn lemma_block_end(pending: Off, end: int, sb: SuperBlock)
    requires
        sb.blkszbits < 64,
        pending < end,
    ensures
        (pending as int / sb.spec_blksz() + 1) * sb.spec_blksz() <= bytes::round_up(
            end,
            sb.spec_blksz(),
        ),
        pending < (pending as int / sb.spec_blksz() + 1) * sb.spec_blksz(),
{
    superblock::lemma_block_split(pending, sb.blkszbits);
    let size = sb.spec_blksz();
    let nr = pending as int / size;
    let last = (end + size - 1) / size;
    assert((nr + 1) * size == nr * size + size) by (nonlinear_arith);
    assert(nr < last) by {
        vstd::arithmetic::div_mod::lemma_div_is_ordered(pending + size, end + size - 1, size);
        vstd::arithmetic::div_mod::lemma_div_plus_one(pending as int, size);
        assert(size + pending == pending + size);
    }
    assert((nr + 1) * size <= last * size) by (nonlinear_arith)
        requires
            nr + 1 <= last,
            size > 0,
    ;
}

/// The rest of the extent at hand is handed out as it decodes as a whole, and what the mappings
/// to come lead to follows from its end on.
#[verifier::rlimit(80)]
#[verifier::spinoff_prover]
pub proof fn law_rest_of_extent_is_handed_out(
    st: BufferState,
    sb: SuperBlock,
    image: Image,
    fetch: Fetch,
    maps: Seq<Mapping>,
    failure: Option<Errno>,
    target: Off,
)
    requires
        ready(st, sb, maps),
        st.current matches Some((map, data)) && {
            &&& decoded::extent_data(sb, st.compr, image, map, target) == Ok::<Seq<u8>, Errno>(
                data,
            )
            &&& decoded::extent_data(sb, st.compr, image, map, map.logical.len) is Ok
            &&& st.pending <= map.logical_end()
            &&& bytes::round_up(map.logical_end(), sb.spec_blksz()) <= u64::MAX
        },
    ensures
        ({
            let (map, _) = st.current->0;
            let whole = decoded::extent_data(sb, st.compr, image, map, map.logical.len)->Ok_0;
            let behind = BufferState {
                pending: map.logical_end() as Off,
                current: None,
                ..st
            };
            let rest = map_stream(behind, sb, image, fetch, maps, failure);
            let all = map_stream(st, sb, image, fetch, maps, failure);
            &&& all.content() == whole.skip(st.pending - map.logical.start) + rest.content()
            &&& all.failure == rest.failure
        }),
    decreases extent_left(st),
{
    let (map, data) = st.current->0;
    let whole = decoded::extent_data(sb, st.compr, image, map, map.logical.len)->Ok_0;
    let behind = BufferState { pending: map.logical_end() as Off, current: None, ..st };
    let start = map.logical.start as int;
    decoded::law_extent_front(sb, st.compr, image, map, target);
    decoded::law_advance_is_contiguous(st, sb, image);
    lemma_advance_ready(st, sb, image, maps);
    lemma_stream_step(st, sb, image, fetch, maps, failure);
    let all = map_stream(st, sb, image, fetch, maps, failure);
    if st.pending >= map.logical_end() {
        assert(st.dropped() =~= behind);
        assert(next_chunk(st, sb, image, maps, failure) == next_chunk(
            behind,
            sb,
            image,
            maps,
            failure,
        ));
        let rest = map_stream(behind, sb, image, fetch, maps, failure);
        assert(all == rest);
        assert(whole.skip(st.pending - start) + rest.content() =~= rest.content());
    } else {
        lemma_block_end(st.pending, map.logical_end(), sb);
        let end = st.chunk_end(sb, map);
        let goal = st.goal(map, data, end);
        decoded::law_extent_front(sb, st.compr, image, map, goal);
        let (next, r) = st.advance(sb, image);
        let len = (end - st.pending) as Off;
        let chunk = Chunk::Decoded { from: st.pending, len };
        assert(r == Ok::<Option<Chunk>, Errno>(Some(chunk)));
        let b = whole.subrange(st.pending - start, end - start);
        let (_, more) = next.current->0;
        assert(more == whole.take(more.len() as int));
        assert(more.subrange(st.pending - start, end - start) =~= b);
        assert(chunk_bytes(next, fetch, chunk) == Ok::<Seq<u8>, Errno>(b));
        let done = if end <= start + data.len() {
            target
        } else {
            goal
        };
        law_rest_of_extent_is_handed_out(next, sb, image, fetch, maps, failure, done);
        let tail = map_stream(next, sb, image, fetch, maps, failure);
        lemma_behind(tail, b);
        assert(all == tail.behind(b));
        assert(BufferState { pending: map.logical_end() as Off, current: None, ..next } =~= behind);
        let rest = map_stream(behind, sb, image, fetch, maps, failure);
        assert(b + (whole.skip(end - start) + rest.content()) =~= whole.skip(st.pending - start)
            + rest.content());
    }
}

/// A compressed extent is handed out as it decodes as a whole, from the place that was asked for
/// on, and what the other mappings lead to follows from its end on. This is so for every extent
/// whose last block has an end in the address space; before the last address there is no chunk.
pub proof fn law_extent_is_handed_out(
    st: BufferState,
    sb: SuperBlock,
    image: Image,
    fetch: Fetch,
    maps: Seq<Mapping>,
    failure: Option<Errno>,
)
    requires
        ready(st, sb, maps),
        st.current is None,
        maps.len() > 0,
        maps[0].algorithm != Algorithm::Raw,
        maps[0].logical.start <= st.pending <= maps[0].logical_end(),
        decoded::extent_data(sb, st.compr, image, maps[0], maps[0].logical.len) is Ok,
        bytes::round_up(maps[0].logical_end(), sb.spec_blksz()) <= u64::MAX,
    ensures
        ({
            let map = maps[0];
            let whole = decoded::extent_data(sb, st.compr, image, map, map.logical.len)->Ok_0;
            let behind = BufferState { pending: map.logical_end() as Off, ..st };
            let rest = map_stream(behind, sb, image, fetch, maps.skip(1), failure);
            let all = map_stream(st, sb, image, fetch, maps, failure);
            &&& all.content() == whole.skip(st.pending - map.logical.start) + rest.content()
            &&& all.failure == rest.failure
        }),
{
    let map = maps[0];
    let goal = st.first_goal(sb, map);
    lemma_feed_ready(st, sb, image, maps);
    decoded::law_extent_front(sb, st.compr, image, map, goal);
    let (fed, r) = st.feed(sb, image, map);
    law_rest_of_extent_is_handed_out(fed, sb, image, fetch, maps.skip(1), failure, goal);
    assert(next_chunk(st, sb, image, maps, failure) == next_chunk(
        fed,
        sb,
        image,
        maps.skip(1),
        failure,
    ));
    lemma_stream_step(st, sb, image, fetch, maps, failure);
    lemma_stream_step(fed, sb, image, fetch, maps.skip(1), failure);
    assert(map_stream(st, sb, image, fetch, maps, failure) == map_stream(
        fed,
        sb,
        image,
        fetch,
        maps.skip(1),
        failure,
    ));
    assert(BufferState { pending: map.logical_end() as Off, current: None, ..fed }
        =~= BufferState { pending: map.logical_end() as Off, ..st });
}

/// A mapping that is not compressed is handed out as it is got hold of, up to the end of its
/// block, and what the other mappings lead to follows behind that.
pub proof fn law_raw_mapping_is_handed_out(
    st: BufferState,
    sb: SuperBlock,
    image: Image,
    fetch: Fetch,
    maps: Seq<Mapping>,
    failure: Option<Errno>,
)
    requires
        ready(st, sb, maps),
        st.current is None,
        maps.len() > 0,
        maps[0].algorithm == Algorithm::Raw,
        maps[0].logical.start <= st.pending,
        maps[0].physical.len > 0,
    ensures
        ({
            let map = maps[0];
            let len = BufferState::raw_len(sb, map);
            let behind = BufferState { pending: (st.pending + len) as Off, ..st };
            let rest = map_stream(behind, sb, image, fetch, maps.skip(1), failure);
            let all = map_stream(st, sb, image, fetch, maps, failure);
            &&& st.pending + len <= u64::MAX
            &&& match fetch(map.device_id as i32, map.physical.start, len as Off) {
                Ok(b) => all == rest.behind(b) && all.content() == b + rest.content(),
                Err(e) => all == Stream::ending(Some(e)),
            }
        }),
{
    let map = maps[0];
    let len = BufferState::raw_len(sb, map);
    superblock::lemma_block_split(map.physical.start, sb.blkszbits);
    lemma_feed_ready(st, sb, image, maps);
    lemma_stream_step(st, sb, image, fetch, maps, failure);
    let behind = BufferState { pending: (st.pending + len) as Off, ..st };
    if let Ok(b) = fetch(map.device_id as i32, map.physical.start, len as Off) {
        lemma_behind(map_stream(behind, sb, image, fetch, maps.skip(1), failure), b);
    }
}

/// No buffer of a file is empty or larger than a block, as long as what is got hold of is as long
/// as was asked for.
pub proof fn law_buffers_are_pieces_of_blocks(
    st: BufferState,
    sb: SuperBlock,
    image: Image,
    fetch: Fetch,
    maps: Seq<Mapping>,
    failure: Option<Errno>,
)
    requires
        ready(st, sb, maps),
        forall|device_id: i32, start: Off, len: Off|
            (#[trigger] fetch(device_id, start, len)) matches Ok(b) ==> b.len() == len,
    ensures
        ({
            let buffers = map_stream(st, sb, image, fetch, maps, failure).buffers;
            forall|i: int|
                0 <= i < buffers.len() ==> 0 < (#[trigger] buffers[i]).len() <= sb.spec_blksz()
        }),
    decreases maps.len(), extent_left(st),
{
    let (next, rest, r) = next_chunk(st, sb, image, maps, failure);
    law_chunks_are_contiguous(st, sb, image, maps, failure);
    lemma_next_chunk_progress(st, sb, image, maps, failure);
    if let Ok(Some(chunk)) = r {
        if let Ok(b) = chunk_bytes(next, fetch, chunk) {
            law_buffers_are_pieces_of_blocks(next, sb, image, fetch, rest, failure);
            let tail = map_stream(next, sb, image, fetch, rest, failure);
            let buffers = tail.behind(b).buffers;
            assert forall|i: int| 0 <= i < buffers.len() implies 0 < (
            #[trigger] buffers[i]).len() <= sb.spec_blksz() by {
                if i > 0 {
                    assert(buffers[i] == tail.buffers[i - 1]);
                }
            }
        }
    }
}

/// The bytes of an area are handed out as they stand on the device.
pub proof fn law_area_is_handed_out(
    sb: SuperBlock,
    fetch: Fetch,
    device: Seq<u8>,
    offset: int,
    left: int,
)
    requires
        sb.blkszbits < 64,
        0 <= offset,
        0 <= left,
        offset + left <= device.len() <= u64::MAX,
        forall|at: Off, len: Off|
            at + len <= device.len() ==> #[trigger] fetch(0, at, len) == Ok::<Seq<u8>, Errno>(
                device.subrange(at as int, at + len),
            ),
    ensures
        area_stream(sb, fetch, offset, left).content() == device.subrange(offset, offset + left),
        area_stream(sb, fetch, offset, left).failure is None,
    decreases left,
{
    superblock::lemma_block_split(offset as u64, sb.blkszbits);
    let len = piece(sb, offset, left);
    let all = area_stream(sb, fetch, offset, left);
    if left > 0 {
        law_area_is_handed_out(sb, fetch, device, offset + len, left - len);
        let b = device.subrange(offset, offset + len);
        assert(fetch(0, offset as Off, len as Off) == Ok::<Seq<u8>, Errno>(b));
        lemma_behind(area_stream(sb, fetch, offset + len, left - len), b);
        assert(b + device.subrange(offset + len, offset + left) =~= device.subrange(
            offset,
            offset + left,
        ));
    } else {
        assert(all.content() =~= device.subrange(offset, offset + left));
    }
}

/// Reading into memory gets hold of the bytes that are there, and of zeros where the device
/// delivers less. A failure to read is handed on.
pub proof fn law_reading_fills_up_with_zeros(image: Image, device_id: i32, start: Off, len: Off)
    requires
        image(device_id, start, len as nat) matches Ok(b) ==> b.len() <= len,
    ensures
        match image(device_id, start, len as nat) {
            Ok(b) => {
                &&& reading(image)(device_id, start, len) matches Ok(got)
                &&& got.len() == len
                &&& got.take(b.len() as int) == b
                &&& forall|k: int| b.len() <= k < len ==> got[k] == 0
            },
            Err(e) => reading(image)(device_id, start, len) == Err::<Seq<u8>, Errno>(e),
        },
{
    if let Ok(b) = image(device_id, start, len as nat) {
        let got = reading(image)(device_id, start, len)->Ok_0;
        assert(got.take(b.len() as int) =~= b);
    }
}

/// The buffers of an area follow one another without a gap, and each ends with its block or with
/// the area: the first one is what stands from the start of the area on.
pub proof fn law_buffers_of_an_area_end_with_blocks(
    sb: SuperBlock,
    fetch: Fetch,
    offset: Off,
    left: Off,
    len: Off,
)
    requires
        sb.blkszbits < 64,
        0 < len <= left,
        offset + left <= u64::MAX,
        len <= vstd::arithmetic::power2::pow2(sb.blkszbits as nat) - offset as int
            % vstd::arithmetic::power2::pow2(sb.blkszbits as nat) as int,
        len == left || (offset + len) % vstd::arithmetic::power2::pow2(sb.blkszbits as nat) as int
            == 0,
    ensures
        area_stream(sb, fetch, offset as int, left as int) == match fetch(0, offset, len) {
            Err(e) => Stream::ending(Some(e)),
            Ok(b) => area_stream(sb, fetch, offset + len, left - len).behind(b),
        },
{
    let unit = sb.spec_blksz();
    superblock::lemma_block_split(offset, sb.blkszbits);
    let place = offset as int % unit;
    if len != left {
        // The only place up to the end of the block that a block ends with is that end.
        assert(len == unit - place) by {
            let nr = offset as int / unit;
            if place + len < unit {
                vstd::arithmetic::div_mod::lemma_fundamental_div_mod_converse(
                    offset + len,
                    unit,
                    nr,
                    place + len,
                );
            }
        }
    }
    assert(piece(sb, offset as int, left as int) == len);
}

/// An extent that cannot be decoded is an error, and is passed by: the next question is answered
/// from the mapping behind it. The same holds of a mapping that leaves a gap.
pub proof fn law_failing_mapping_is_passed_by(walk: FileWalk, e: Errno)
    requires
        walk.state.current is None,
        walk.maps.len() > 0,
        ({
            ||| walk.maps[0].logical.start > walk.state.pending && e == Errno::EUCLEAN
            ||| {
                &&& walk.maps[0].logical.start <= walk.state.pending
                &&& walk.maps[0].algorithm != Algorithm::Raw
                &&& forall|target: Off| #[trigger]
                    decoded::extent_data(
                        walk.sb,
                        walk.state.compr,
                        walk.image,
                        walk.maps[0],
                        target,
                    ) == Err::<Seq<u8>, Errno>(e)
            }
        }),
    ensures
        walk.next() == (
            FileWalk { maps: walk.maps.skip(1), ..walk },
            Err::<Option<Seq<u8>>, Errno>(e),
        ),
{
    let (fed, r) = walk.state.feed(walk.sb, walk.image, walk.maps[0]);
    assert(walk.state.advance(walk.sb, walk.image) == (
        walk.state,
        Ok::<Option<Chunk>, Errno>(None),
    ));
    assert(r == Err::<Option<Chunk>, Errno>(e));
    assert(fed == walk.state);
}

/// Where there are no mappings left and no failure follows them, the file has been handed out.
pub proof fn law_end_of_the_mappings_is_the_end(walk: FileWalk)
    requires
        walk.state.current is None,
        walk.maps.len() == 0,
        walk.failure is None,
    ensures
        walk.next() == (walk, Ok::<Option<Seq<u8>>, Errno>(None)),
        walk.stream().buffers.len() == 0,
        walk.stream().failure is None,
{
}

} // verus!

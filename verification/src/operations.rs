//! Operations on the inodes of a mounted image.

use crate::alloc_helper;
use crate::bytes;
use crate::data::raw_iters::stream;
use crate::data::raw_iters::stream::Stream;
use crate::data::raw_iters::traits::ContinuousBufferIter;
use crate::data::{BlockBuffer, Buffer};
use crate::errnos::{Errno, PosixResult};
use crate::inode::{Inode, InodeCollection};
use crate::superblock::FileSystem;
use crate::superblock;
use crate::xattrs::{XAttrInfix, XAttrValue};
use crate::Nid;
use vstd::prelude::*;
use vstd::string::StringSliceAdditionalSpecFns;
use vstd::utf8;

verus! {

/// Gets hold of an inode.
pub fn read_inode<'a, I, C, F>(
    filesystem: &'a F,
    collection: &'a mut C,
    nid: Nid,
) -> (r: PosixResult<&'a mut I>) where
    I: Inode,
    C: InodeCollection<I = I>,
    F: FileSystem<I>,

    ensures
        match r {
            Ok(inode) => {
                &&& old(collection).holds(filesystem, nid) == Ok::<I, Errno>(*inode)
                &&& final(collection).holds(filesystem, nid) == Ok::<I, Errno>(*final(inode))
            },
            Err(e) => {
                &&& old(collection).holds(filesystem, nid) == Err::<I, Errno>(e) || e
                    == Errno::ENOMEM && alloc_helper::memory_refused()
                &&& final(collection).holds(filesystem, nid) == old(collection).holds(
                    filesystem,
                    nid,
                )
            },
        },
        forall|other: Nid|
            other != nid ==> #[trigger] final(collection).holds(filesystem, other) == old(
                collection,
            ).holds(filesystem, other),
{
    collection.iget(nid, filesystem)
}

/// Where the first slash of `path` stands from `i` on, or where it ends.
pub open spec fn slash_from(path: Seq<u8>, i: int) -> int
    decreases path.len() - i,
{
    if i >= path.len() || path[i] == 0x2f {
        i
    } else {
        slash_from(path, i + 1)
    }
}

/// A slash is not before where one looks from, and not behind the end.
pub proof fn lemma_slash_from(path: Seq<u8>, i: int)
    requires
        0 <= i <= path.len(),
    ensures
        i <= slash_from(path, i) <= path.len(),
        slash_from(path, i) < path.len() ==> path[slash_from(path, i)] == 0x2f,
    decreases path.len() - i,
{
    if i < path.len() && path[i] != 0x2f {
        lemma_slash_from(path, i + 1);
    }
}

/// The parts of a path between its slashes, without the empty ones.
pub open spec fn components(path: Seq<u8>) -> Seq<Seq<u8>>
    decreases path.len(),
{
    let i = slash_from(path, 0);
    let rest = if 0 <= i < path.len() {
        components(path.skip(i + 1))
    } else {
        Seq::empty()
    };
    if i == 0 {
        rest
    } else {
        seq![path.take(i)] + rest
    }
}

/// Splits a path at its first slash.
fn split_component(path: &str) -> (r: (&str, Option<&str>))
    ensures
        ({
            let s = path.spec_bytes();
            let i = slash_from(s, 0);
            &&& 0 <= i <= s.len()
            &&& r.0.spec_bytes() == s.take(i)
            &&& match r.1 {
                Some(rest) => i < s.len() && rest.spec_bytes() == s.skip(i + 1),
                None => i == s.len(),
            }
        }),
{
    let s: &[u8] = path.as_bytes();
    let mut i: usize = 0;
    proof {
        lemma_slash_from(s@, 0);
    }
    while i < s.len() && s[i] != 0x2f
        invariant
            i <= s.len(),
            slash_from(s@, 0) == slash_from(s@, i as int),
        decreases s.len() - i,
    {
        i = i + 1;
    }
    if i == s.len() {
        assert(s@.take(i as int) =~= s@);
        return (path, None);
    }
    proof {
        utf8::encode_utf8_valid_utf8(path@);
        utf8::is_char_boundary_iff_not_is_continuation_byte(s@, i as int);
    }
    let (part, tail) = path.split_at(i);
    let ghost t = tail.spec_bytes();
    proof {
        utf8::encode_utf8_valid_utf8(tail@);
        assert(t[0] == 0x2f);
        assert(utf8::is_char_boundary(t, 1)) by {
            reveal_with_fuel(utf8::is_char_boundary, 2);
        }
    }
    let (_, rest) = tail.split_at(1);
    assert(part.spec_bytes() =~= s@.take(i as int));
    assert(rest.spec_bytes() =~= s@.skip(i + 1));
    (part, Some(rest))
}

/// What the answer of a directory that was searched for a name comes to: a name that is not there
/// is an error.
pub open spec fn answered(answer: PosixResult<Option<Nid>>) -> PosixResult<Nid> {
    match answer {
        Ok(Some(nid)) => Ok(nid),
        Ok(None) => Err(Errno::ENOENT),
        Err(e) => Err(e),
    }
}

/// What the answer of a directory that was searched for a name comes to.
pub fn found_nid(answer: PosixResult<Option<Nid>>) -> (r: PosixResult<Nid>)
    ensures
        r == answered(answer),
{
    match answer {
        Ok(Some(nid)) => Ok(nid),
        Ok(None) => Err(Errno::ENOENT),
        Err(e) => Err(e),
    }
}

/// How far following a path has come: the inode that was reached, and what is left of the path.
#[derive(Debug, Clone, Copy)]
pub struct Walk<'p> {
    pub nid: Nid,
    pub rest: Option<&'p str>,
}

impl<'p> Walk<'p> {
    /// The parts that are left.
    pub open spec fn parts(&self) -> Seq<Seq<u8>> {
        match self.rest {
            Some(path) => components(path.spec_bytes()),
            None => Seq::empty(),
        }
    }

    /// Begins to follow a path from the inode `nid` on.
    pub fn new(nid: Nid, path: &'p str) -> (r: Self)
        ensures
            r.nid == nid,
            r.parts() == components(path.spec_bytes()),
    {
        Walk { nid, rest: Some(path) }
    }

    /// Takes the next part off the path.
    pub fn next_part(&mut self) -> (r: Option<&'p str>)
        ensures
            final(self).nid == old(self).nid,
            match r {
                None => old(self).parts().len() == 0 && final(self).parts().len() == 0,
                Some(part) => old(self).parts() == seq![part.spec_bytes()] + final(self).parts(),
            },
    {
        loop
            invariant
                self.nid == old(self).nid,
                self.parts() == old(self).parts(),
            decreases
                    match self.rest {
                        Some(path) => path.spec_bytes().len() + 1,
                        None => 0,
                    },
        {
            let path: &'p str = match self.rest {
                None => {
                    return None;
                },
                Some(path) => path,
            };
            let (part, more) = split_component(path);
            self.rest = more;
            assert(part@.len() == 0 <==> part.spec_bytes().len() == 0);
            if !part.is_empty() {
                return Some(part);
            }
        }
    }

    /// Goes on to the inode that the directory at hand answered with, when it was searched for the
    /// part that was taken off the path.
    pub fn step(&mut self, answer: PosixResult<Option<Nid>>) -> (r: PosixResult<()>)
        ensures
            match answered(answer) {
                Ok(nid) => r == Ok::<(), Errno>(()) && *final(self) == (Walk {
                    nid,
                    rest: old(self).rest,
                }),
                Err(e) => r == Err::<(), Errno>(e) && *final(self) == *old(self),
            },
    {
        self.nid = found_nid(answer)?;
        Ok(())
    }
}

/// The inode that a path leads to from the inode `nid` on: every part is looked for in the
/// directory that the parts before it lead to.
pub open spec fn resolved<I: Inode, C: InodeCollection<I = I>, F: FileSystem<I>>(
    filesystem: &F,
    collection: &C,
    nid: Nid,
    parts: Seq<Seq<u8>>,
) -> PosixResult<Nid>
    decreases parts.len(),
{
    if parts.len() == 0 {
        Ok(nid)
    } else {
        match collection.holds(filesystem, nid) {
            Err(e) => Err(e),
            Ok(dir) => match answered(filesystem.entry(dir, parts[0])) {
                Err(e) => Err(e),
                Ok(next) => resolved(filesystem, collection, next, parts.skip(1)),
            },
        }
    }
}

/// Gets hold of the inode that a path leads to from the inode `nid` on.
pub fn lookup<'a, I, C, F>(
    filesystem: &'a F,
    collection: &'a mut C,
    nid: Nid,
    name: &str,
) -> (r: PosixResult<&'a mut I>) where
    I: Inode,
    C: InodeCollection<I = I>,
    F: FileSystem<I>,

    ensures
        match r {
            Ok(inode) => {
                &&& resolved(
                    filesystem,
                    old(collection),
                    nid,
                    components(name.spec_bytes()),
                ) matches Ok(end)
                &&& old(collection).holds(filesystem, end) == Ok::<I, Errno>(*inode)
                &&& final(collection).holds(filesystem, end) == Ok::<I, Errno>(*final(inode))
                &&& forall|other: Nid|
                    other != end ==> #[trigger] final(collection).holds(filesystem, other) == old(
                        collection,
                    ).holds(filesystem, other)
            },
            Err(e) => {
                &&& e == Errno::ENOMEM && alloc_helper::memory_refused() || match resolved(
                    filesystem,
                    old(collection),
                    nid,
                    components(name.spec_bytes()),
                ) {
                    Err(failure) => e == failure,
                    Ok(end) => old(collection).holds(filesystem, end) == Err::<I, Errno>(e),
                }
                &&& forall|other: Nid| #[trigger]
                    final(collection).holds(filesystem, other) == old(collection).holds(
                        filesystem,
                        other,
                    )
            },
        },
{
    let mut walk = Walk::new(nid, name);
    let ghost target = resolved(filesystem, collection, nid, components(name.spec_bytes()));
    loop
        invariant
            forall|other: Nid| #[trigger]
                collection.holds(filesystem, other) == old(collection).holds(filesystem, other),
            target == resolved(
                filesystem,
                old(collection),
                nid,
                components(name.spec_bytes()),
            ),
            target == resolved(filesystem, old(collection), walk.nid, walk.parts()),
        ensures
            walk.parts().len() == 0,
        decreases walk.parts().len(),
    {
        let part: &str = match walk.next_part() {
            None => {
                break;
            },
            Some(part) => part,
        };
        assert((seq![part.spec_bytes()] + walk.parts()).skip(1) =~= walk.parts());
        let inode = read_inode(filesystem, collection, walk.nid)?;
        walk.step(filesystem.find_nid(inode, part))?;
    }
    read_inode(filesystem, collection, walk.nid)
}

/// Gets hold of the inode that the directory `inode` has under `name`.
pub fn dir_lookup<'a, I, C, F>(
    filesystem: &'a F,
    collection: &'a mut C,
    inode: &I,
    name: &str,
) -> (r: PosixResult<&'a mut I>) where
    I: Inode,
    C: InodeCollection<I = I>,
    F: FileSystem<I>,

    ensures
        match r {
            Ok(found) => {
                &&& answered(filesystem.entry(*inode, name.spec_bytes())) matches Ok(nid)
                &&& old(collection).holds(filesystem, nid) == Ok::<I, Errno>(*found)
                &&& final(collection).holds(filesystem, nid) == Ok::<I, Errno>(*final(found))
                &&& forall|other: Nid|
                    other != nid ==> #[trigger] final(collection).holds(filesystem, other) == old(
                        collection,
                    ).holds(filesystem, other)
            },
            Err(e) => {
                &&& e == Errno::ENOMEM && alloc_helper::memory_refused() || match answered(
                    filesystem.entry(*inode, name.spec_bytes()),
                ) {
                    Err(failure) => e == failure,
                    Ok(nid) => old(collection).holds(filesystem, nid) == Err::<I, Errno>(e),
                }
                &&& forall|other: Nid| #[trigger]
                    final(collection).holds(filesystem, other) == old(collection).holds(
                        filesystem,
                        other,
                    )
            },
        },
{
    let nid: Nid = found_nid(filesystem.find_nid(inode, name))?;
    read_inode(filesystem, collection, nid)
}

/// Looks up an attribute of an inode, in the caller's room if there is one.
pub fn get_xattr<I, F>(
    filesystem: &F,
    inode: &I,
    index: u32,
    name: &[u8],
    buffer: &mut Option<&mut [u8]>,
) -> (r: PosixResult<XAttrValue>) where I: Inode, F: FileSystem<I>
    ensures
        filesystem.xattr_answer(
            *inode,
            index,
            name@,
            superblock::room(*old(buffer)),
            r,
            superblock::room(*final(buffer)),
        ),
{
    filesystem.get_xattr(inode, index, name, buffer)
}

/// Lists the names of the attributes of an inode in the caller's room.
pub fn list_xattrs<I, F>(filesystem: &F, inode: &I, buffer: &mut [u8]) -> (r: PosixResult<
    usize,
>) where I: Inode, F: FileSystem<I>
    ensures
        filesystem.xattrs_answer(*inode, old(buffer)@, r, final(buffer)@),
{
    filesystem.list_xattrs(inode, buffer)
}

/// The prefixes in a buffer from `cur` on: the length of each stands before it, and each starts at
/// a multiple of four. A prefix that reaches over the end of the buffer is corrupt, and what is
/// too short for a length is ignored.
pub open spec fn infixes_from(buf: Seq<u8>, cur: int) -> PosixResult<Seq<Seq<u8>>>
    decreases buf.len() + 4 - cur,
{
    if cur + 2 > buf.len() {
        Ok(Seq::empty())
    } else {
        let end = cur + 2 + bytes::le16(buf, cur);
        if end > buf.len() {
            Err(Errno::EUCLEAN)
        } else {
            match infixes_from(buf, bytes::round_up(end, 4)) {
                Err(e) => Err(e),
                Ok(rest) => Ok(seq![buf.subrange(cur + 2, end)] + rest),
            }
        }
    }
}

/// The prefixes in a buffer from `cur` on that are there as a whole, up to the first one that
/// reaches over the end of the buffer.
pub open spec fn whole_infixes(buf: Seq<u8>, cur: int) -> Seq<Seq<u8>>
    decreases buf.len() + 4 - cur,
{
    let end = cur + 2 + bytes::le16(buf, cur);
    if cur + 2 > buf.len() || end > buf.len() {
        Seq::empty()
    } else {
        seq![buf.subrange(cur + 2, end)] + whole_infixes(buf, bytes::round_up(end, 4))
    }
}

/// The prefixes in the buffers of a stream, one buffer after the other.
pub open spec fn infixes(stream: Stream) -> PosixResult<Seq<Seq<u8>>>
    decreases stream.buffers.len(),
{
    if stream.buffers.len() == 0 {
        match stream.failure {
            Some(e) => Err(e),
            None => Ok(Seq::empty()),
        }
    } else {
        match infixes_from(stream.buffers[0], 0) {
            Err(e) => Err(e),
            Ok(first) => match infixes(stream.tail()) {
                Err(e) => Err(e),
                Ok(rest) => Ok(first + rest),
            },
        }
    }
}

/// The bytes of prefixes.
pub open spec fn infix_bytes(list: Seq<XAttrInfix>) -> Seq<Seq<u8>> {
    list.map_values(|infix: XAttrInfix| infix.0@)
}

/// Whether reading the prefixes of a stream can come to the point where it takes memory and `rest`
/// is yet to come: a buffer is asked for, or the prefixes of the last one are noted, of which at
/// least one is there as a whole.
pub open spec fn infixes_want_memory(stream: Stream, rest: Stream) -> bool
    decreases stream.buffers.len(),
{
    ||| rest == stream
    ||| {
        &&& stream.buffers.len() > 0
        &&& whole_infixes(stream.buffers[0], 0).len() > 0
        &&& rest == stream.tail()
    }
    ||| {
        &&& stream.buffers.len() > 0
        &&& infixes_from(stream.buffers[0], 0) is Ok
        &&& infixes_want_memory(stream.tail(), rest)
    }
}

/// Whether `r` tells how noting the prefixes in a buffer ended, with `after` noted where there was
/// `before`. All that are there as a whole are noted, or as many as there is memory for.
pub open spec fn infixes_noted(
    buf: Seq<u8>,
    before: Seq<Seq<u8>>,
    r: PosixResult<()>,
    after: Seq<Seq<u8>>,
) -> bool {
    let whole = whole_infixes(buf, 0);
    match r {
        Ok(()) => infixes_from(buf, 0) is Ok && after == before + whole,
        Err(e) => {
            ||| infixes_from(buf, 0) == Err::<Seq<Seq<u8>>, Errno>(e) && after == before + whole
            ||| {
                &&& e == Errno::ENOMEM
                &&& alloc_helper::memory_refused()
                &&& exists|n: int|
                    0 <= n < whole.len() && after == before + #[trigger] whole.take(n)
            }
        },
    }
}

/// Where no prefix reaches over the end of the buffer, all of them are there as a whole.
proof fn lemma_whole_infixes(buf: Seq<u8>, cur: int)
    ensures
        infixes_from(buf, cur) matches Ok(all) ==> all == whole_infixes(buf, cur),
        infixes_from(buf, cur) matches Err(e) ==> e == Errno::EUCLEAN,
    decreases buf.len() + 4 - cur,
{
    let end = cur + 2 + bytes::le16(buf, cur);
    if cur + 2 <= buf.len() && end <= buf.len() {
        lemma_whole_infixes(buf, bytes::round_up(end, 4));
    }
}

/// Finds the end of the prefix at `cur`, and where the next one starts. Where the buffer ends
/// first, so does the list.
pub fn next_infix(buf: &[u8], cur: usize) -> (r: PosixResult<Option<(usize, usize)>>)
    requires
        cur <= buf.len(),
    ensures
        if cur + 2 > buf.len() {
            r == Ok::<Option<(usize, usize)>, Errno>(None)
        } else {
            let end = cur + 2 + bytes::le16(buf@, cur as int);
            if end > buf.len() {
                r == Err::<Option<(usize, usize)>, Errno>(Errno::EUCLEAN)
            } else {
                r matches Ok(Some((e, next))) && e == end && next == bytes::least(
                    bytes::round_up(end, 4),
                    buf.len() as int,
                )
            }
        },
{
    let left: usize = buf.len() - cur;
    if left < 2 {
        return Ok(None);
    }
    let size: usize = bytes::read_le16(buf, cur) as usize;
    if size > left - 2 {
        return Err(Errno::EUCLEAN);
    }
    let end: usize = cur + 2 + size;
    let pad: usize = (4 - end % 4) % 4;
    let next: usize = if pad > buf.len() - end {
        buf.len()
    } else {
        end + pad
    };
    Ok(Some((end, next)))
}

/// Notes the prefixes in a buffer. They take memory, and where there is none, that is the answer.
pub fn push_infixes(buf: &[u8], result: &mut Vec<XAttrInfix>) -> (r: PosixResult<()>)
    ensures
        infixes_noted(buf@, infix_bytes(old(result)@), r, infix_bytes(final(result)@)),
{
    let mut cur: usize = 0;
    let ghost before = infix_bytes(result@);
    let ghost whole = whole_infixes(buf@, 0);
    let ghost mut done: Seq<Seq<u8>> = Seq::empty();
    assert(before + done =~= before);
    assert(whole =~= done + whole);
    loop
        invariant
            cur <= buf.len(),
            before == infix_bytes(old(result)@),
            infix_bytes(result@) == before + done,
            whole == whole_infixes(buf@, 0),
            whole == done + whole_infixes(buf@, cur as int),
            (infixes_from(buf@, 0) is Ok) == (infixes_from(buf@, cur as int) is Ok),
        decreases buf.len() - cur,
    {
        let ghost rest = whole_infixes(buf@, cur as int);
        proof {
            lemma_whole_infixes(buf@, 0);
            lemma_whole_infixes(buf@, cur as int);
            assert(whole.take(done.len() as int) =~= done);
        }
        let (end, next) = match next_infix(buf, cur)? {
            None => {
                assert(done + rest =~= done);
                return Ok(());
            },
            Some(place) => place,
        };
        assert(rest.len() > 0);
        let data: &[u8] = &buf[cur + 2..end];
        let infix: Vec<u8> = alloc_helper::copied(data)?;
        let ghost had = result@;
        alloc_helper::push_vec(result, XAttrInfix(infix))?;
        proof {
            assert(data@ =~= buf@.subrange(cur + 2, end as int));
            assert(infix_bytes(result@) =~= infix_bytes(had).push(data@));
            assert(before + done.push(data@) =~= (before + done).push(data@));
            let ahead = bytes::round_up(end as int, 4);
            assert(infixes_from(buf@, ahead) is Ok == infixes_from(buf@, next as int) is Ok);
            assert(whole_infixes(buf@, ahead) == whole_infixes(buf@, next as int));
            assert(whole =~= done.push(data@) + whole_infixes(buf@, next as int));
            done = done.push(data@);
        }
        cur = next;
    }
}

/// Notes what an iterator answered when it was asked for the next buffer: the prefixes in it. Says
/// whether there was one.
pub fn take_infixes(
    answer: Option<PosixResult<BlockBuffer<'_>>>,
    result: &mut Vec<XAttrInfix>,
) -> (r: PosixResult<bool>)
    ensures
        match answer {
            None => r == Ok::<bool, Errno>(false) && *final(result) == *old(result),
            Some(Err(e)) => r == Err::<bool, Errno>(e) && *final(result) == *old(result),
            Some(Ok(buf)) => infixes_noted(
                buf.bytes(),
                infix_bytes(old(result)@),
                match r {
                    Ok(more) => Ok(()),
                    Err(e) => Err(e),
                },
                infix_bytes(final(result)@),
            ) && (r matches Ok(more) ==> more),
        },
{
    match answer {
        None => Ok(false),
        Some(Err(e)) => Err(e),
        Some(Ok(buffer)) => {
            push_infixes(buffer.content(), result)?;
            Ok(true)
        },
    }
}

/// Reads the prefixes that attributes can refer to. They take memory, and where there is none,
/// that is the answer.
pub fn get_xattr_infixes<'a, T: ContinuousBufferIter<'a> + ?Sized>(iter: &mut T) -> (r:
    PosixResult<Vec<XAttrInfix>>)
    requires
        old(iter).valid(),
    ensures
        match r {
            Ok(list) => infixes(old(iter).stream()) == Ok::<Seq<Seq<u8>>, Errno>(
                infix_bytes(list@),
            ),
            Err(e) => {
                ||| infixes(old(iter).stream()) == Err::<Seq<Seq<u8>>, Errno>(e)
                ||| e == Errno::ENOMEM && alloc_helper::memory_refused() && infixes_want_memory(
                    old(iter).stream(),
                    final(iter).stream(),
                )
            },
        },
{
    let mut result: Vec<XAttrInfix> = Vec::new();
    let ghost whole = iter.stream();
    proof {
        assert(infix_bytes(result@) =~= Seq::empty());
        assert(infixes(whole) matches Ok(all) ==> all =~= infix_bytes(result@) + all);
    }
    loop
        invariant
            iter.valid(),
            whole == old(iter).stream(),
            infixes(whole) == match infixes(iter.stream()) {
                Ok(rest) => Ok::<Seq<Seq<u8>>, Errno>(infix_bytes(result@) + rest),
                Err(e) => Err(e),
            },
            forall|rest: Stream| #[trigger]
                infixes_want_memory(iter.stream(), rest) ==> infixes_want_memory(whole, rest),
        decreases iter.stream().buffers.len(),
    {
        let ghost before = infix_bytes(result@);
        let ghost ahead = iter.stream();
        let answer = iter.next();
        let ghost rest = iter.stream();
        proof {
            if ahead.buffers.len() > 0 {
                lemma_whole_infixes(ahead.buffers[0], 0);
            }
            assert(infixes_want_memory(ahead, ahead));
            assert(answer matches Some(Ok(_)) && whole_infixes(ahead.buffers[0], 0).len() > 0
                ==> infixes_want_memory(ahead, rest));
        }
        if !take_infixes(answer, &mut result)? {
            assert(infix_bytes(result@) + Seq::<Seq<u8>>::empty() =~= infix_bytes(result@));
            return Ok(result);
        }
        proof {
            let first = infixes_from(ahead.buffers[0], 0)->Ok_0;
            if let Ok(more) = infixes(rest) {
                assert(before + (first + more) =~= (before + first) + more);
            }
            assert forall|r: Stream| #[trigger] infixes_want_memory(rest, r) implies
                infixes_want_memory(ahead, r) by {}
        }
    }
}

/// The parts of a path are not empty and hold no slash.
pub proof fn law_components_are_names(path: Seq<u8>)
    ensures
        forall|i: int|
            0 <= i < components(path).len() ==> (#[trigger] components(path)[i]).len() > 0
                && !components(path)[i].contains(0x2f),
    decreases path.len(),
{
    lemma_slash_from(path, 0);
    let i = slash_from(path, 0);
    if i < path.len() {
        law_components_are_names(path.skip(i + 1));
    }
    if i > 0 {
        lemma_no_slash_before(path, 0);
        let rest = if i < path.len() {
            components(path.skip(i + 1))
        } else {
            Seq::empty()
        };
        let all = components(path);
        assert forall|k: int| 0 <= k < all.len() implies (#[trigger] all[k]).len() > 0
            && !all[k].contains(0x2f) by {
            if k > 0 {
                assert(all[k] == rest[k - 1]);
            }
        }
    } else if path.len() > 0 {
        assert(components(path) == components(path.skip(1)));
    } else {
        assert(components(path).len() == 0);
    }
}

/// A name is a path of one part, which is the name itself, whatever bytes other than slashes it is
/// made of.
pub proof fn law_name_is_a_path_of_one_part(name: Seq<u8>)
    requires
        name.len() > 0,
        !name.contains(0x2f),
    ensures
        components(name) == seq![name],
{
    lemma_slash_from(name, 0);
    assert(slash_from(name, 0) == name.len());
    assert(name.take(name.len() as int) =~= name);
    assert(components(name) =~= seq![name]);
}

/// Names with a slash behind each.
pub open spec fn joined(names: Seq<Seq<u8>>) -> Seq<u8>
    decreases names.len(),
{
    if names.len() == 0 {
        Seq::empty()
    } else {
        names[0] + seq![0x2fu8] + joined(names.skip(1))
    }
}

/// A path of names with slashes between them is taken apart into these names, all of them and in
/// their order, with or without a slash before the first and behind the last.
pub proof fn law_joined_names_are_taken_apart(names: Seq<Seq<u8>>)
    requires
        forall|i: int|
            0 <= i < names.len() ==> (#[trigger] names[i]).len() > 0 && !names[i].contains(0x2f),
    ensures
        components(joined(names)) == names,
        components(seq![0x2fu8] + joined(names)) == names,
        names.len() > 0 ==> components(joined(names).drop_last()) == names,
    decreases names.len(),
{
    let path = joined(names);
    if names.len() > 0 {
        let rest = names.skip(1);
        assert forall|i: int| 0 <= i < rest.len() implies (#[trigger] rest[i]).len() > 0
            && !rest[i].contains(0x2f) by {
            assert(rest[i] == names[i + 1]);
        }
        law_joined_names_are_taken_apart(rest);
        assert(names[0].len() > 0 && !names[0].contains(0x2f));
        law_name_is_a_path_of_one_part(names[0]);
        law_components_of_joined_path(names[0], joined(rest));
        assert(seq![names[0]] + rest =~= names);
        if rest.len() > 0 {
            law_components_of_joined_path(names[0], joined(rest).drop_last());
            assert(path.drop_last() =~= names[0] + seq![0x2fu8] + joined(rest).drop_last());
        } else {
            assert(path.drop_last() =~= names[0]);
            assert(names =~= seq![names[0]]);
        }
    } else {
        assert(slash_from(path, 0) == 0);
        assert(components(path) =~= names);
    }
    let nothing = Seq::<u8>::empty();
    assert(slash_from(nothing, 0) == 0);
    assert(components(nothing) =~= Seq::<Seq<u8>>::empty());
    law_components_of_joined_path(nothing, path);
    assert(nothing + seq![0x2fu8] + path =~= seq![0x2fu8] + path);
    assert(Seq::<Seq<u8>>::empty() + components(path) =~= components(path));
}

/// There is no slash before the first one.
proof fn lemma_no_slash_before(path: Seq<u8>, i: int)
    requires
        0 <= i <= path.len(),
    ensures
        forall|k: int| i <= k < slash_from(path, i) ==> path[k] != 0x2f,
    decreases path.len() - i,
{
    if i < path.len() && path[i] != 0x2f {
        lemma_no_slash_before(path, i + 1);
        assert forall|k: int| i <= k < slash_from(path, i) implies path[k] != 0x2f by {
            if k > i {
                assert(i + 1 <= k < slash_from(path, i + 1));
            }
        }
    }
}

/// Where the first slash stands depends on nothing behind it.
proof fn lemma_slash_from_prefix(a: Seq<u8>, b: Seq<u8>, i: int)
    requires
        0 <= i <= a.len(),
    ensures
        slash_from(a + seq![0x2fu8] + b, i) == slash_from(a, i),
    decreases a.len() - i,
{
    let s = a + seq![0x2fu8] + b;
    if i < a.len() {
        assert(s[i] == a[i]);
        if a[i] != 0x2f {
            lemma_slash_from_prefix(a, b, i + 1);
        }
    } else {
        assert(s[i] == 0x2f);
    }
}

/// A slash separates: the parts of a path that is put together with a slash are those of the two
/// halves. So a slash in front, at the end or doubled makes no difference.
pub proof fn law_components_of_joined_path(a: Seq<u8>, b: Seq<u8>)
    ensures
        components(a + seq![0x2fu8] + b) == components(a) + components(b),
    decreases a.len(),
{
    let s = a + seq![0x2fu8] + b;
    let i = slash_from(a, 0);
    lemma_slash_from(a, 0);
    lemma_slash_from_prefix(a, b, 0);
    assert(s.take(i) =~= a.take(i));
    if i < a.len() {
        let rest = a.skip(i + 1);
        law_components_of_joined_path(rest, b);
        assert(s.skip(i + 1) =~= rest + seq![0x2fu8] + b);
    } else {
        assert(s.skip(i + 1) =~= b);
    }
    assert(components(s) =~= components(a) + components(b));
}

/// Looking up a path is looking up its front and then, from there, the rest of it.
pub proof fn law_lookup_in_steps<I: Inode, C: InodeCollection<I = I>, F: FileSystem<I>>(
    filesystem: &F,
    collection: &C,
    nid: Nid,
    front: Seq<Seq<u8>>,
    rest: Seq<Seq<u8>>,
)
    ensures
        resolved(filesystem, collection, nid, front + rest) == match resolved(
            filesystem,
            collection,
            nid,
            front,
        ) {
            Ok(dir) => resolved(filesystem, collection, dir, rest),
            Err(e) => Err(e),
        },
    decreases front.len(),
{
    if front.len() == 0 {
        assert(front + rest =~= rest);
    } else {
        assert((front + rest).skip(1) =~= front.skip(1) + rest);
        assert((front + rest)[0] == front[0]);
        if let Ok(dir) = collection.holds(filesystem, nid) {
            if let Ok(Some(next)) = filesystem.entry(dir, front[0]) {
                law_lookup_in_steps(filesystem, collection, next, front.skip(1), rest);
            }
        }
    }
}

/// A prefix as it stands in the image: its length, its bytes, and zeros up to a multiple of four.
pub open spec fn packed_infix(infix: Seq<u8>) -> Seq<u8> {
    let len = infix.len() as int;
    seq![(len % 256) as u8, (len / 256) as u8] + infix + alloc_helper::zeros(
        (bytes::round_up(2 + len, 4) - 2 - len) as nat,
    )
}

/// Prefixes as they stand in the image, one after the other.
pub open spec fn packed_infixes(list: Seq<Seq<u8>>) -> Seq<u8>
    decreases list.len(),
{
    if list.len() == 0 {
        Seq::empty()
    } else {
        packed_infix(list[0]) + packed_infixes(list.skip(1))
    }
}

/// Reading gives back the prefixes that an image was written with.
pub proof fn law_packed_infixes_are_read_back(list: Seq<Seq<u8>>)
    requires
        forall|i: int| 0 <= i < list.len() ==> (#[trigger] list[i]).len() <= 0xffff,
    ensures
        infixes_from(packed_infixes(list), 0) == Ok::<Seq<Seq<u8>>, Errno>(list),
{
    lemma_read_back(Seq::empty(), list);
    assert(Seq::<u8>::empty() + packed_infixes(list) =~= packed_infixes(list));
}

/// Reading gives back the prefixes behind what was read before.
proof fn lemma_read_back(before: Seq<u8>, list: Seq<Seq<u8>>)
    requires
        before.len() % 4 == 0,
        forall|i: int| 0 <= i < list.len() ==> (#[trigger] list[i]).len() <= 0xffff,
    ensures
        infixes_from(before + packed_infixes(list), before.len() as int) == Ok::<
            Seq<Seq<u8>>,
            Errno,
        >(list),
    decreases list.len(),
{
    let buf = before + packed_infixes(list);
    let cur = before.len() as int;
    if list.len() > 0 {
        let infix = list[0];
        let len = infix.len() as int;
        let one = packed_infix(infix);
        let rest = list.skip(1);
        assert(buf =~= (before + one) + packed_infixes(rest));
        assert(bytes::le16(buf, cur) == len) by {
            assert(buf[cur] == one[0]);
            assert(buf[cur + 1] == one[1]);
        }
        assert(buf.subrange(cur + 2, cur + 2 + len) =~= infix) by {
            assert forall|k: int| 0 <= k < len implies buf[cur + 2 + k] == infix[k] by {
                assert(buf[cur + 2 + k] == one[2 + k]);
            }
        }
        lemma_read_back(before + one, rest);
        assert(seq![infix] + rest =~= list);
    } else {
        assert(list =~= Seq::empty());
    }
}

/// Behind prefixes that are there as a whole, reading goes on with what follows them.
proof fn lemma_read_on(before: Seq<u8>, list: Seq<Seq<u8>>, more: Seq<u8>)
    requires
        before.len() % 4 == 0,
        forall|i: int| 0 <= i < list.len() ==> (#[trigger] list[i]).len() <= 0xffff,
    ensures
        ({
            let buf = before + packed_infixes(list) + more;
            let cur = before.len() as int;
            let next = (before + packed_infixes(list)).len() as int;
            &&& next % 4 == 0
            &&& infixes_from(buf, cur) == match infixes_from(buf, next) {
                Ok(rest) => Ok::<Seq<Seq<u8>>, Errno>(list + rest),
                Err(e) => Err::<Seq<Seq<u8>>, Errno>(e),
            }
            &&& whole_infixes(buf, cur) == list + whole_infixes(buf, next)
        }),
    decreases list.len(),
{
    let buf = before + packed_infixes(list) + more;
    let cur = before.len() as int;
    let next = (before + packed_infixes(list)).len() as int;
    if list.len() > 0 {
        let infix = list[0];
        let len = infix.len() as int;
        let one = packed_infix(infix);
        let rest = list.skip(1);
        assert(buf =~= (before + one) + packed_infixes(rest) + more);
        assert(before + packed_infixes(list) =~= (before + one) + packed_infixes(rest));
        assert(bytes::le16(buf, cur) == len) by {
            assert(buf[cur] == one[0]);
            assert(buf[cur + 1] == one[1]);
        }
        assert(buf.subrange(cur + 2, cur + 2 + len) =~= infix) by {
            assert forall|k: int| 0 <= k < len implies buf[cur + 2 + k] == infix[k] by {
                assert(buf[cur + 2 + k] == one[2 + k]);
            }
        }
        lemma_read_on(before + one, rest, more);
        assert(seq![infix] + (rest + whole_infixes(buf, next)) =~= list + whole_infixes(
            buf,
            next,
        ));
        if let Ok(r) = infixes_from(buf, next) {
            assert(seq![infix] + (rest + r) =~= list + r);
        }
    } else {
        assert(before + packed_infixes(list) =~= before);
        assert(list =~= Seq::empty());
        assert(list + whole_infixes(buf, next) =~= whole_infixes(buf, next));
        if let Ok(r) = infixes_from(buf, next) {
            assert(list + r =~= r);
        }
    }
}

/// A prefix that reaches over the end of a buffer is corrupt, whatever stands before it. Those
/// before it are noted all the same.
pub proof fn law_prefix_that_is_cut_off_is_corrupt(list: Seq<Seq<u8>>, size: u16, given: Seq<u8>)
    requires
        forall|i: int| 0 <= i < list.len() ==> (#[trigger] list[i]).len() <= 0xffff,
        given.len() < size,
    ensures
        ({
            let buf = packed_infixes(list) + (bytes::packed16(size) + given);
            &&& infixes_from(buf, 0) == Err::<Seq<Seq<u8>>, Errno>(Errno::EUCLEAN)
            &&& whole_infixes(buf, 0) == list
        }),
{
    let front = packed_infixes(list);
    let more = bytes::packed16(size) + given;
    let buf = front + more;
    lemma_read_on(Seq::empty(), list, more);
    assert(Seq::<u8>::empty() + front + more =~= buf);
    let next = front.len() as int;
    assert(buf[next] == more[0]);
    assert(buf[next + 1] == more[1]);
    assert(bytes::le16(buf, next) == size);
    assert(list + whole_infixes(buf, next) =~= list);
}

/// The last prefix of a buffer may go without its padding, and a byte behind the padded ones, which
/// is too short for a length, has no say.
pub proof fn law_end_of_a_buffer_of_prefixes(list: Seq<Seq<u8>>, infix: Seq<u8>, byte: u8)
    requires
        forall|i: int| 0 <= i < list.len() ==> (#[trigger] list[i]).len() <= 0xffff,
        infix.len() <= 0xffff,
    ensures
        infixes_from(packed_infixes(list) + seq![byte], 0) == Ok::<Seq<Seq<u8>>, Errno>(list),
        infixes_from(
            packed_infixes(list) + (bytes::packed16(infix.len() as u16) + infix),
            0,
        ) == Ok::<Seq<Seq<u8>>, Errno>(list.push(infix)),
{
    let front = packed_infixes(list);
    let next = front.len() as int;
    let none = Seq::<u8>::empty();
    lemma_read_on(none, list, seq![byte]);
    assert(none + front + seq![byte] =~= front + seq![byte]);
    assert(list + Seq::<Seq<u8>>::empty() =~= list);

    let len = infix.len() as int;
    let more = bytes::packed16(len as u16) + infix;
    let buf = front + more;
    lemma_read_on(none, list, more);
    assert(none + front + more =~= buf);
    assert(buf[next] == more[0]);
    assert(buf[next + 1] == more[1]);
    assert(bytes::le16(buf, next) == len);
    assert(buf.subrange(next + 2, next + 2 + len) =~= infix);
    let end = bytes::round_up(next + 2 + len, 4);
    assert(infixes_from(buf, end) == Ok::<Seq<Seq<u8>>, Errno>(Seq::empty()));
    assert(seq![infix] + Seq::<Seq<u8>>::empty() =~= seq![infix]);
    assert(list + seq![infix] =~= list.push(infix));
}

/// The prefixes of a stream are those of its buffers, one buffer after the other. A failure behind
/// the buffers is what reading ends in.
pub proof fn law_prefixes_of_a_stream(list: Seq<Seq<u8>>, rest: Stream)
    requires
        forall|i: int| 0 <= i < list.len() ==> (#[trigger] list[i]).len() <= 0xffff,
    ensures
        infixes(rest.behind(packed_infixes(list))) == match infixes(rest) {
            Ok(others) => Ok::<Seq<Seq<u8>>, Errno>(list + others),
            Err(e) => Err::<Seq<Seq<u8>>, Errno>(e),
        },
        rest.buffers.len() == 0 ==> infixes(rest) == match rest.failure {
            Some(e) => Err::<Seq<Seq<u8>>, Errno>(e),
            None => Ok::<Seq<Seq<u8>>, Errno>(Seq::empty()),
        },
{
    law_packed_infixes_are_read_back(list);
    stream::lemma_behind(rest, packed_infixes(list));
}

/// A path without parts leads to where one starts, and a path of one name to what the directory has
/// under that name. A name that is not there is an error, and a failure is handed on.
pub proof fn law_path_leads_where_the_directory_says<
    I: Inode,
    C: InodeCollection<I = I>,
    F: FileSystem<I>,
>(filesystem: &F, collection: &C, nid: Nid, name: Seq<u8>)
    requires
        !name.contains(0x2f),
    ensures
        ({
            let r = resolved(filesystem, collection, nid, components(name));
            if name.len() == 0 {
                r == Ok::<Nid, Errno>(nid)
            } else {
                match collection.holds(filesystem, nid) {
                    Err(e) => r == Err::<Nid, Errno>(e),
                    Ok(dir) => match filesystem.entry(dir, name) {
                        Err(e) => r == Err::<Nid, Errno>(e),
                        Ok(None) => r == Err::<Nid, Errno>(Errno::ENOENT),
                        Ok(Some(child)) => r == Ok::<Nid, Errno>(child),
                    },
                }
            }
        }),
{
    if name.len() == 0 {
        assert(slash_from(name, 0) == 0);
        assert(components(name) =~= Seq::<Seq<u8>>::empty());
    } else {
        law_name_is_a_path_of_one_part(name);
        let parts = seq![name];
        assert(parts.skip(1) =~= Seq::<Seq<u8>>::empty());
        reveal_with_fuel(resolved, 2);
    }
}

/// What is noted of a buffer: all of its prefixes if it is sound, and else those that are there as
/// a whole. Where memory is wanting, those that there was memory for. What was noted before stays.
pub proof fn law_noted_prefixes(
    buf: Seq<u8>,
    before: Seq<Seq<u8>>,
    r: PosixResult<()>,
    after: Seq<Seq<u8>>,
)
    requires
        infixes_noted(buf, before, r, after),
    ensures
        after.take(before.len() as int) == before,
        r is Ok ==> infixes_from(buf, 0) == Ok::<Seq<Seq<u8>>, Errno>(
            after.skip(before.len() as int),
        ),
        r matches Err(e) ==> e != Errno::ENOMEM ==> {
            &&& infixes_from(buf, 0) == Err::<Seq<Seq<u8>>, Errno>(e)
            &&& after.skip(before.len() as int) == whole_infixes(buf, 0)
        },
        r is Err ==> after.skip(before.len() as int) == whole_infixes(buf, 0).take(
            after.len() - before.len(),
        ),
{
    let whole = whole_infixes(buf, 0);
    let n = before.len() as int;
    lemma_whole_infixes(buf, 0);
    if after == before + whole {
        assert(after.skip(n) =~= whole);
        assert(after.take(n) =~= before);
        assert(whole.take(whole.len() as int) =~= whole);
    } else {
        let m = choose|m: int| 0 <= m < whole.len() && after == before + #[trigger] whole.take(m);
        assert(after.skip(n) =~= whole.take(m));
        assert(after.take(n) =~= before);
    }
}

} // verus!

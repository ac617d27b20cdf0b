//! The inodes of a mounted image.

use crate::alloc_helper;
use crate::bytes;
use crate::data::raw_iters::stream;
use crate::data::raw_iters::stream::Stream;
use crate::data::raw_iters::traits::BufferMapIter;
use crate::data::{BlockBuffer, Buffer};
use crate::errnos::{Errno, PosixResult};
use crate::inode::{Inode, InodeInfo, Type};
use crate::mount::errno;
use crate::mount::errno::{from_erofs_errno, SystemError};
use crate::mount::fs::ErofsFileSystem;
use crate::mount::vfs::{FileType, InodeId, InodeMode, Metadata, PosixTimeSpec};
use crate::superblock::{FileSystem, SuperBlock};
use crate::xattrs::XAttrSharedEntries;
use crate::Nid;
use vstd::prelude::*;

verus! {

/// An inode as the reader knows it.
#[derive(Debug)]
pub struct ErofsSysInode {
    pub info: InodeInfo,
    pub nid: Nid,
    pub xattrs: XAttrSharedEntries,
}

impl Inode for ErofsSysInode {
    open spec fn spec_info(&self) -> InodeInfo {
        self.info
    }

    open spec fn spec_nid(&self) -> Nid {
        self.nid
    }

    open spec fn spec_xattrs(&self) -> XAttrSharedEntries {
        self.xattrs
    }

    fn new(
        _sb: &SuperBlock,
        info: InodeInfo,
        nid: Nid,
        xattrs_shared_entries: XAttrSharedEntries,
    ) -> (r: Self)
        ensures
            r == (ErofsSysInode { info, nid, xattrs: xattrs_shared_entries }),
    {
        ErofsSysInode { info, nid, xattrs: xattrs_shared_entries }
    }

    fn info(&self) -> (r: &InodeInfo) {
        &self.info
    }

    fn nid(&self) -> (r: Nid) {
        self.nid
    }

    fn xattrs_shared_entries(&self) -> (r: &XAttrSharedEntries) {
        &self.xattrs
    }
}

/// An inode as the virtual filesystem knows it.
#[derive(Debug, Clone, Copy)]
pub struct ErofsInode {
    pub info: InodeInfo,
    pub ino: InodeId,
    pub nid: Nid,
}

/// What the virtual filesystem calls a type of inodes.
pub open spec fn file_type(t: Type) -> FileType {
    match t {
        Type::Regular => FileType::File,
        Type::Directory => FileType::Dir,
        Type::Link => FileType::SymLink,
        Type::Character => FileType::CharDevice,
        Type::Block => FileType::BlockDevice,
        Type::Fifo => FileType::Pipe,
        Type::Socket => FileType::Socket,
        Type::Unknown => FileType::File,
    }
}

/// What the virtual filesystem calls a type of inodes.
pub fn erofs_type_to_file_type(t: Type) -> (r: FileType)
    ensures
        r == file_type(t),
{
    match t {
        Type::Regular => FileType::File,
        Type::Directory => FileType::Dir,
        Type::Link => FileType::SymLink,
        Type::Character => FileType::CharDevice,
        Type::Block => FileType::BlockDevice,
        Type::Fifo => FileType::Pipe,
        Type::Socket => FileType::Socket,
        Type::Unknown => FileType::File,
    }
}

/// What reading `want` bytes of a stream ends in: the first bytes of it, all of it where it is
/// shorter, or its failure where that comes first. At least one buffer is asked for.
pub open spec fn read_out(s: Stream, want: int) -> PosixResult<Seq<u8>> {
    if s.buffers.len() > 0 && s.content().len() >= want {
        Ok(s.content().take(want))
    } else {
        match s.failure {
            Some(e) => Err(e),
            None => Ok(s.content()),
        }
    }
}

/// Copies a buffer that was handed out to the place `pos` of `buf`, as far as it is within the
/// first `want` bytes. Says where the copy ends.
pub fn copy_block(data: &[u8], buf: &mut [u8], pos: usize, want: usize) -> (r: usize)
    requires
        pos <= want <= old(buf)@.len(),
    ensures
        r == pos + bytes::least(data@.len() as int, want - pos),
        final(buf)@ == old(buf)@.take(pos as int) + data@.take(r - pos) + old(buf)@.skip(r as int),
{
    let n: usize = if data.len() < want - pos {
        data.len()
    } else {
        want - pos
    };
    let ghost had = buf@;
    let mut i: usize = 0;
    while i < n
        invariant
            i <= n <= data.len(),
            pos + n <= want <= had.len(),
            buf@.len() == had.len(),
            had == old(buf)@,
            buf@ =~= had.take(pos as int) + data@.take(i as int) + had.skip(pos + i),
        decreases n - i,
    {
        buf[pos + i] = data[i];
        i = i + 1;
    }
    pos + n
}

/// Copies what an iterator answered when it was asked for the next buffer: the buffer, if there is
/// one. Says where the copy ends; `None` means that nothing is left. A failure is handed on.
pub fn take_block(
    answer: Option<PosixResult<BlockBuffer<'_>>>,
    buf: &mut [u8],
    pos: usize,
    want: usize,
) -> (r: PosixResult<Option<usize>>)
    requires
        pos <= want <= old(buf)@.len(),
    ensures
        match answer {
            None => r == Ok::<Option<usize>, Errno>(None) && final(buf)@ == old(buf)@,
            Some(Err(e)) => r == Err::<Option<usize>, Errno>(e) && final(buf)@ == old(buf)@,
            Some(Ok(block)) => {
                let end = pos + bytes::least(block.bytes().len() as int, want - pos);
                &&& r == Ok::<Option<usize>, Errno>(Some(end as usize))
                &&& final(buf)@ == old(buf)@.take(pos as int) + block.bytes().take(end - pos)
                    + old(buf)@.skip(end)
            },
        },
{
    match answer {
        None => Ok(None),
        Some(Err(e)) => Err(e),
        Some(Ok(block)) => Ok(Some(copy_block(block.content(), buf, pos, want))),
    }
}

/// Copies the first `want` bytes that an iterator hands out. The buffers take memory, and where
/// there is none, that is the answer. Whatever happens, what was copied by then is the front of
/// what is handed out, and the rest of `buf` stays.
pub fn read_blocks<'a, T: BufferMapIter<'a>>(iter: &mut T, buf: &mut [u8], want: usize) -> (r:
    PosixResult<usize>)
    requires
        old(iter).valid(),
        want <= old(buf)@.len(),
    ensures
        match r {
            Ok(n) => {
                &&& read_out(old(iter).stream(), want as int) matches Ok(d)
                &&& n == d.len()
                &&& final(buf)@ == d + old(buf)@.skip(n as int)
            },
            Err(e) => {
                &&& e == Errno::ENOMEM && alloc_helper::memory_refused() || read_out(
                    old(iter).stream(),
                    want as int,
                ) == Err::<Seq<u8>, Errno>(e)
                &&& exists|n: int|
                    0 <= n <= want && n <= old(iter).stream().content().len() && final(buf)@
                        == #[trigger] old(iter).stream().content().take(n) + old(buf)@.skip(n)
            },
        },
{
    let ghost whole = iter.stream();
    let ghost before = buf@;
    let mut pos: usize = 0;
    assert(whole.content().take(0) + before.skip(0) =~= before);
    assert(whole.content().skip(0) =~= whole.content());
    loop
        invariant
            iter.valid(),
            whole == old(iter).stream(),
            before == old(buf)@,
            pos <= want <= before.len(),
            pos <= whole.content().len(),
            whole.content().skip(pos as int) == iter.stream().content(),
            iter.stream().failure == whole.failure,
            pos == want ==> iter.stream() == whole,
            buf@ == whole.content().take(pos as int) + before.skip(pos as int),
        decreases iter.stream().buffers.len(),
    {
        let ghost ahead = iter.stream();
        proof {
            stream::lemma_content(ahead);
            stream::lemma_content(whole);
            assert(whole.content().skip(pos as int).len() == whole.content().len() - pos);
        }
        let ghost start = pos;
        let ghost had = buf@;
        let answer = iter.next();
        let ghost data = ahead.buffers[0];
        pos = match take_block(answer, buf, pos, want)? {
            None => {
                assert(whole.content().take(pos as int) =~= whole.content());
                return Ok(pos);
            },
            Some(end) => end,
        };
        let ghost n = pos - start;
        proof {
            let content = whole.content();
            let rest = ahead.tail().content();
            assert(ahead.content().len() == data.len() + rest.len());
            assert forall|k: int| 0 <= k < n implies content[start + k] == data[k] by {
                assert(content.skip(start as int)[k] == (data + rest)[k]);
            }
            assert forall|k: int| 0 <= k < buf@.len() implies buf@[k] == (content.take(pos as int)
                + before.skip(pos as int))[k] by {
                assert(had[k] == (content.take(start as int) + before.skip(start as int))[k]);
                if start <= k < pos {
                    assert(content[start + (k - start)] == data[k - start]);
                }
            }
            assert(buf@ =~= content.take(pos as int) + before.skip(pos as int));
            if n == data.len() {
                assert forall|k: int| 0 <= k < rest.len() implies content.skip(pos as int)[k]
                    == rest[k] by {
                    assert(content.skip(start as int)[n + k] == (data + rest)[n + k]);
                }
                assert(content.skip(pos as int) =~= rest);
            }
        }
        if pos == want {
            return Ok(want);
        }
    }
}

/// Reads the first `want` bytes of a file out of what the filesystem answered when it was asked for
/// the bytes of the file. A failure is handed on.
pub fn read_answered<'a, T: BufferMapIter<'a>>(
    answer: PosixResult<T>,
    buf: &mut [u8],
    want: usize,
) -> (r: Result<usize, SystemError>)
    requires
        answer matches Ok(iter) ==> iter.valid(),
        want <= old(buf)@.len(),
    ensures
        match answer {
            Err(e) => {
                &&& r == Err::<usize, SystemError>(errno::system_error(e))
                &&& final(buf)@ == old(buf)@
            },
            Ok(iter) => match r {
                Ok(n) => {
                    &&& read_out(iter.stream(), want as int) matches Ok(d)
                    &&& n == d.len()
                    &&& final(buf)@ == d + old(buf)@.skip(n as int)
                },
                Err(e) => {
                    &&& e == SystemError::ENOMEM && alloc_helper::memory_refused() || {
                        &&& read_out(iter.stream(), want as int) matches Err(failure)
                        &&& e == errno::system_error(failure)
                    }
                    &&& exists|n: int|
                        0 <= n <= want && n <= iter.stream().content().len() && final(buf)@
                            == #[trigger] iter.stream().content().take(n) + old(buf)@.skip(n)
                },
            },
        },
{
    let mut blocks = match answer {
        Err(e) => {
            return Err(from_erofs_errno(e));
        },
        Ok(blocks) => blocks,
    };
    match read_blocks(&mut blocks, buf, want) {
        Ok(n) => Ok(n),
        Err(e) => Err(from_erofs_errno(e)),
    }
}

/// What a read leaves in the buffer is the file: if the filesystem hands out the bytes of `whole`
/// from every offset on, a read that ends well has put the bytes from its offset on in front of the
/// buffer, as many as are wanted, there is room for and are left, and has left the rest as it was.
/// A read that does not end well wants for memory, and what it has put in front are these bytes
/// too.
pub proof fn law_read_puts_the_bytes_of_the_file<FS: FileSystem<ErofsSysInode>>(
    inode: &ErofsInode,
    fs: &ErofsFileSystem<FS>,
    whole: Seq<u8>,
    offset: usize,
    len: usize,
    before: Seq<u8>,
    r: Result<usize, SystemError>,
    after: Seq<u8>,
)
    requires
        whole.len() == inode.info.spec_file_size(),
        whole.len() <= usize::MAX,
        forall|o: u64|
            o < whole.len() ==> {
                &&& #[trigger] fs.inner.contents(inode.nid, inode.info, o) matches Ok(s)
                &&& s.content() == whole.skip(o as int)
                &&& s.failure is None
            },
        inode.reads(fs, offset, len, before, r, after),
    ensures
        match r {
            Ok(n) => if offset < whole.len() {
                &&& n <= len && n <= before.len() && n <= whole.len() - offset
                &&& n == len || n == before.len() || n == whole.len() - offset
                &&& after == whole.subrange(offset as int, offset + n) + before.skip(n as int)
            } else {
                n == 0 && after == before
            },
            Err(e) => {
                &&& e == SystemError::ENOMEM
                &&& offset < whole.len()
                &&& exists|n: int|
                    0 <= n <= len && n <= before.len() && offset + n <= whole.len() && after
                        == #[trigger] whole.subrange(offset as int, offset + n) + before.skip(n)
            },
        },
{
    if offset < whole.len() {
        let answer = fs.inner.contents(inode.nid, inode.info, offset as u64);
        assert(answer is Ok);
        let s = answer->Ok_0;
        stream::lemma_content(s);
        assert(s.content() == whole.skip(offset as int));
        let want = inode.readable(offset, len, before.len() as int);
        assert(want <= s.content().len());
        match r {
            Ok(n) => {
                assert(s.content().take(want) =~= whole.subrange(offset as int, offset + want));
            },
            Err(_) => {
                let n = choose|n: int|
                    0 <= n <= want && n <= s.content().len() && after
                        == #[trigger] s.content().take(n) + before.skip(n);
                assert(s.content().take(n) =~= whole.subrange(offset as int, offset + n));
                assert(after == whole.subrange(offset as int, offset + n) + before.skip(n));
            },
        }
    }
}

/// A read of a file that fails somewhere is answered from what comes before the failure, if that is
/// enough, and else by the failure. What cannot be handed out at all is answered by the reason, and
/// nothing is copied.
pub proof fn law_read_of_a_failing_file<FS: FileSystem<ErofsSysInode>>(
    inode: &ErofsInode,
    fs: &ErofsFileSystem<FS>,
    offset: usize,
    len: usize,
    before: Seq<u8>,
    r: Result<usize, SystemError>,
    after: Seq<u8>,
)
    requires
        inode.info.spec_file_size() <= usize::MAX,
        offset < inode.info.spec_file_size(),
        inode.reads(fs, offset, len, before, r, after),
    ensures
        match fs.inner.contents(inode.nid, inode.info, offset as u64) {
            Err(e) => {
                &&& after == before
                &&& r == Err::<usize, SystemError>(errno::system_error(e)) || r == Err::<
                    usize,
                    SystemError,
                >(SystemError::ENOMEM)
            },
            Ok(s) => match r {
                Ok(n) => {
                    &&& n <= s.content().len()
                    &&& after == s.content().take(n as int) + before.skip(n as int)
                    &&& n == len || n == before.len() || n == inode.info.spec_file_size() - offset
                        || s.failure is None && n == s.content().len()
                },
                Err(e) => e == SystemError::ENOMEM || (s.failure matches Some(failure) && e
                    == errno::system_error(failure) && {
                    ||| s.buffers.len() == 0
                    ||| {
                        &&& s.content().len() < len
                        &&& s.content().len() < before.len()
                        &&& s.content().len() < inode.info.spec_file_size() - offset
                    }
                }),
            },
        },
{
}

/// Every type of inodes has its counterpart, and what is of no known type passes for a file.
pub proof fn law_types_have_counterparts(t: Type)
    ensures
        file_type(t) == FileType::Dir <==> t == Type::Directory,
        file_type(t) == FileType::SymLink <==> t == Type::Link,
        file_type(t) == FileType::CharDevice <==> t == Type::Character,
        file_type(t) == FileType::BlockDevice <==> t == Type::Block,
        file_type(t) == FileType::Pipe <==> t == Type::Fifo,
        file_type(t) == FileType::Socket <==> t == Type::Socket,
        file_type(t) == FileType::File <==> t == Type::Regular || t == Type::Unknown,
{
}

/// The times of an inode: the long form holds the time of the last change, the short form none.
pub open spec fn time_of(info: InodeInfo) -> PosixTimeSpec {
    match info {
        InodeInfo::Extended(ext) => PosixTimeSpec {
            tv_sec: ext.i_mtime as i64,
            tv_nsec: ext.i_mtime_nsec as i64,
        },
        InodeInfo::Compact(_) => PosixTimeSpec { tv_sec: 0, tv_nsec: 0 },
    }
}

impl ErofsInode {
    /// How many bytes of a file can be read from `offset` on, if `len` are wanted and there is
    /// room for `room`.
    pub open spec fn readable(&self, offset: usize, len: usize, room: int) -> int {
        bytes::least(
            bytes::least(len as int, room),
            (self.info.spec_file_size() as usize) - offset,
        )
    }

    /// Whether a request to read at most `len` bytes from `offset` on is answered by `r`, and
    /// leaves `after` where the room was `before`. Behind the end of the file there is nothing.
    /// Reading takes memory, and where there is none, that is the answer at any time.
    pub open spec fn reads<FS: FileSystem<ErofsSysInode>>(
        &self,
        fs: &ErofsFileSystem<FS>,
        offset: usize,
        len: usize,
        before: Seq<u8>,
        r: Result<usize, SystemError>,
        after: Seq<u8>,
    ) -> bool {
        if offset >= self.info.spec_file_size() as usize {
            r == Ok::<usize, SystemError>(0) && after == before
        } else {
            let want = self.readable(offset, len, before.len() as int);
            match fs.inner.contents(self.nid, self.info, offset as u64) {
                Err(e) => {
                    &&& after == before
                    &&& r == Err::<usize, SystemError>(errno::system_error(e)) || r == Err::<
                        usize,
                        SystemError,
                    >(SystemError::ENOMEM) && alloc_helper::memory_refused()
                },
                Ok(s) => match r {
                    Ok(n) => {
                        &&& read_out(s, want) matches Ok(d)
                        &&& n == d.len()
                        &&& after == d + before.skip(n as int)
                    },
                    Err(e) => {
                        &&& e == SystemError::ENOMEM && alloc_helper::memory_refused() || {
                            &&& read_out(s, want) matches Err(failure)
                            &&& e == errno::system_error(failure)
                        }
                        &&& exists|n: int|
                            0 <= n <= want && n <= s.content().len() && after
                                == #[trigger] s.content().take(n) + before.skip(n)
                    },
                },
            }
        }
    }

    /// What is known of the file.
    pub open spec fn spec_metadata(&self) -> Metadata {
        let size = self.info.spec_file_size();
        let time = time_of(self.info);
        Metadata {
            dev_id: 0,
            inode_id: self.ino,
            size: size as i64,
            blk_size: 512,
            blocks: ((size + 511) / 512) as usize,
            atime: time,
            mtime: time,
            ctime: time,
            btime: PosixTimeSpec { tv_sec: 0, tv_nsec: 0 },
            file_type: file_type(self.info.spec_inode_type()),
            mode: InodeMode(self.info.spec_mode() as u32),
            flags: 0,
            nlinks: self.info.spec_nlink() as usize,
            uid: self.info.spec_uid() as usize,
            gid: self.info.spec_gid() as usize,
            raw_dev: 0,
        }
    }

    /// The inode as the reader knows it. It has no shared attributes.
    pub fn as_sys_inode(&self) -> (r: ErofsSysInode)
        ensures
            r.info == self.info,
            r.nid == self.nid,
            r.xattrs.name_filter == 0,
            r.xattrs.shared_indexes@ == Seq::<u32>::empty(),
    {
        ErofsSysInode {
            info: self.info,
            nid: self.nid,
            xattrs: XAttrSharedEntries { name_filter: 0, shared_indexes: Vec::new() },
        }
    }

    /// Reads at most `len` bytes from `offset` on, and returns how many were read.
    pub fn read_at<FS: FileSystem<ErofsSysInode>>(
        &self,
        fs: &ErofsFileSystem<FS>,
        offset: usize,
        len: usize,
        buf: &mut [u8],
    ) -> (r: Result<usize, SystemError>)
        ensures
            self.reads(fs, offset, len, old(buf)@, r, final(buf)@),
    {
        let file_size: usize = #[verifier::truncate] (self.info.file_size() as usize);
        if offset >= file_size {
            return Ok(0);
        }
        let mut want: usize = file_size - offset;
        if buf.len() < want {
            want = buf.len();
        }
        if len < want {
            want = len;
        }
        let sys_inode = self.as_sys_inode();
        let ghost before = buf@;
        let answer = fs.inner.mapped_iter(&sys_inode, offset as u64);
        proof {
            if let Ok(s) = fs.inner.contents(self.nid, self.info, offset as u64) {
                assert(s.content().take(0) + before.skip(0) =~= before);
            }
        }
        read_answered(answer, buf, want)
    }

    /// Reads as `read_at` does.
    pub fn read_direct<FS: FileSystem<ErofsSysInode>>(
        &self,
        fs: &ErofsFileSystem<FS>,
        offset: usize,
        len: usize,
        buf: &mut [u8],
    ) -> (r: Result<usize, SystemError>)
        ensures
            self.reads(fs, offset, len, old(buf)@, r, final(buf)@),
    {
        self.read_at(fs, offset, len, buf)
    }

    /// Nothing can be written.
    pub fn write_at(&self, _offset: usize, _len: usize, _buf: &[u8]) -> (r: Result<
        usize,
        SystemError,
    >)
        ensures
            r == Err::<usize, SystemError>(SystemError::EROFS),
    {
        Err(SystemError::EROFS)
    }

    /// What is known of the file.
    pub fn metadata(&self) -> (r: Result<Metadata, SystemError>)
        requires
            self.info.spec_file_size() <= u64::MAX - 511,
        ensures
            r == Ok::<Metadata, SystemError>(self.spec_metadata()),
            r matches Ok(m) && match self.info {
                InodeInfo::Extended(i) => {
                    &&& m.mode.0 == i.i_mode
                    &&& i.i_size <= i64::MAX ==> m.size == i.i_size
                    &&& i.i_size + 511 <= 512 * usize::MAX ==> i.i_size <= m.blocks * 512
                        < i.i_size + 512
                    &&& m.nlinks == i.i_nlink
                    &&& m.uid == i.i_uid
                    &&& m.gid == i.i_gid
                    &&& i.i_mtime <= i64::MAX ==> m.mtime.tv_sec == i.i_mtime
                    &&& m.mtime.tv_nsec == i.i_mtime_nsec
                },
                InodeInfo::Compact(i) => {
                    &&& m.mode.0 == i.i_mode
                    &&& m.size == i.i_size
                    &&& i.i_size <= m.blocks * 512 < i.i_size + 512
                    &&& m.nlinks == i.i_nlink
                    &&& m.uid == i.i_uid
                    &&& m.gid == i.i_gid
                    &&& m.mtime == (PosixTimeSpec { tv_sec: 0, tv_nsec: 0 })
                },
            },
            r matches Ok(m) && {
                &&& m.inode_id == self.ino
                &&& m.atime == m.mtime
                &&& m.ctime == m.mtime
                &&& m.btime == (PosixTimeSpec { tv_sec: 0, tv_nsec: 0 })
                &&& m.blk_size == 512
                &&& m.dev_id == 0 && m.raw_dev == 0 && m.flags == 0
                &&& m.file_type == FileType::Dir <==> m.mode.0 & 0o170000 == 0o040000
                &&& m.file_type == FileType::SymLink <==> m.mode.0 & 0o170000 == 0o120000
                &&& m.file_type == FileType::CharDevice <==> m.mode.0 & 0o170000 == 0o020000
                &&& m.file_type == FileType::BlockDevice <==> m.mode.0 & 0o170000 == 0o060000
                &&& m.file_type == FileType::Pipe <==> m.mode.0 & 0o170000 == 0o010000
                &&& m.file_type == FileType::Socket <==> m.mode.0 & 0o170000 == 0o140000
            },
    {
        let file_type: FileType = erofs_type_to_file_type(self.info.inode_type());
        let mode: InodeMode = InodeMode::from_bits_truncate(self.info.mode() as u32);
        let file_size: u64 = self.info.file_size();
        let size: i64 = #[verifier::truncate] (file_size as i64);
        let blk_size: usize = 512;
        let blocks: usize = #[verifier::truncate] (((file_size + 511) / 512) as usize);
        let time: PosixTimeSpec = match self.info {
            InodeInfo::Extended(ext) => PosixTimeSpec {
                tv_sec: #[verifier::truncate] (ext.i_mtime as i64),
                tv_nsec: ext.i_mtime_nsec as i64,
            },
            InodeInfo::Compact(_) => PosixTimeSpec::default(),
        };
        Ok(
            Metadata {
                dev_id: 0,
                inode_id: self.ino,
                size,
                blk_size,
                blocks,
                atime: time,
                mtime: time,
                ctime: time,
                btime: PosixTimeSpec::default(),
                file_type,
                mode,
                flags: 0,
                nlinks: self.info.nlink() as usize,
                uid: self.info.uid() as usize,
                gid: self.info.gid() as usize,
                raw_dev: 0,
            },
        )
    }

    /// Opening needs no preparation.
    pub fn open(&self) -> (r: Result<(), SystemError>)
        ensures
            r == Ok::<(), SystemError>(()),
    {
        Ok(())
    }

    /// Closing leaves nothing to do.
    pub fn close(&self) -> (r: Result<(), SystemError>)
        ensures
            r == Ok::<(), SystemError>(()),
    {
        Ok(())
    }

    /// There is nothing to write back.
    pub fn flush_file(&self, _lock_owner: u64) -> (r: Result<(), SystemError>)
        ensures
            r == Ok::<(), SystemError>(()),
    {
        Ok(())
    }
}

} // verus!

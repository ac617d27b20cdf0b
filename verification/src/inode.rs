//! Inodes as they stand on disk.

use crate::alloc_helper;
use crate::errnos::{Errno, PosixResult};
use crate::superblock::{FileSystem, SuperBlock};
use crate::xattrs::XAttrSharedEntries;
use crate::{Nid, Off};
use vstd::prelude::*;

verus! {

/// The format word of an inode: its version and its data layout.
#[derive(Debug, Clone, Copy, PartialEq, Eq, Structural)]
pub struct Format(pub u16);

/// How the data of an inode is laid out.
#[derive(Debug, Clone, Copy, PartialEq, Eq, Structural)]
pub enum Layout {
    FlatPlain,
    CompressedFull,
    FlatInline,
    CompressedCompact,
    Chunk,
    Unknown,
}

/// What an inode is.
#[derive(Debug, Clone, Copy, PartialEq, Eq, Structural)]
pub enum Type {
    Regular,
    Directory,
    Link,
    Character,
    Block,
    Fifo,
    Socket,
    Unknown,
}

/// The short form of an inode.
#[derive(Debug, Clone, Copy)]
pub struct CompactInodeInfo {
    pub i_format: Format,
    pub i_xattr_icount: u16,
    pub i_mode: u16,
    pub i_nlink: u16,
    pub i_size: u32,
    pub i_reserved: [u8; 4],
    pub i_u: [u8; 4],
    pub i_ino: u32,
    pub i_uid: u16,
    pub i_gid: u16,
    pub i_reserved2: [u8; 4],
}

/// The long form of an inode.
#[derive(Debug, Clone, Copy)]
pub struct ExtendedInodeInfo {
    pub i_format: Format,
    pub i_xattr_icount: u16,
    pub i_mode: u16,
    pub i_reserved: [u8; 2],
    pub i_size: u64,
    pub i_u: [u8; 4],
    pub i_ino: u32,
    pub i_uid: u32,
    pub i_gid: u32,
    pub i_mtime: u64,
    pub i_mtime_nsec: u32,
    pub i_nlink: u32,
    pub i_reserved2: [u8; 16],
}

/// An inode, in either form.
#[derive(Debug, Clone, Copy)]
pub enum InodeInfo {
    Extended(ExtendedInodeInfo),
    Compact(CompactInodeInfo),
}

/// The bits of the mode that say what an inode is.
pub const S_IFMT: u16 = 0o170000;

impl Format {
    /// The layout that the three bits above the version bit stand for.
    pub open spec fn spec_layout(self) -> Layout {
        let code = (self.0 >> 1) & 0x7;
        if code == 0 {
            Layout::FlatPlain
        } else if code == 1 {
            Layout::CompressedFull
        } else if code == 2 {
            Layout::FlatInline
        } else if code == 3 {
            Layout::CompressedCompact
        } else if code == 4 {
            Layout::Chunk
        } else {
            Layout::Unknown
        }
    }

    /// The layout that the three bits above the version bit stand for.
    pub fn layout(&self) -> (r: Layout)
        ensures
            r == self.spec_layout(),
    {
        let code: u16 = (self.0 >> 1) & 0x7;
        if code == 0 {
            Layout::FlatPlain
        } else if code == 1 {
            Layout::CompressedFull
        } else if code == 2 {
            Layout::FlatInline
        } else if code == 3 {
            Layout::CompressedCompact
        } else if code == 4 {
            Layout::Chunk
        } else {
            Layout::Unknown
        }
    }
}

impl InodeInfo {
    /// The layout of the inode's data.
    pub open spec fn spec_layout(self) -> Layout {
        match self {
            InodeInfo::Extended(i) => i.i_format.spec_layout(),
            InodeInfo::Compact(i) => i.i_format.spec_layout(),
        }
    }

    /// The size of the file in bytes.
    pub open spec fn spec_file_size(self) -> Off {
        match self {
            InodeInfo::Extended(i) => i.i_size,
            InodeInfo::Compact(i) => i.i_size as Off,
        }
    }

    /// The size of the inode itself.
    pub open spec fn spec_inode_size(self) -> int {
        match self {
            InodeInfo::Extended(_) => 64,
            InodeInfo::Compact(_) => 32,
        }
    }

    /// The number of attribute slots.
    pub open spec fn spec_xattr_icount(self) -> u16 {
        match self {
            InodeInfo::Extended(i) => i.i_xattr_icount,
            InodeInfo::Compact(i) => i.i_xattr_icount,
        }
    }

    /// The size of the attributes that stand behind the inode: none, or a header of twelve bytes
    /// of which the first slot is a part, and four bytes for each slot after that.
    pub open spec fn spec_xattr_size(self) -> int {
        if self.spec_xattr_icount() == 0 {
            0
        } else {
            12 + 4 * (self.spec_xattr_icount() - 1)
        }
    }

    /// The mode word.
    pub open spec fn spec_mode(self) -> u16 {
        match self {
            InodeInfo::Extended(i) => i.i_mode,
            InodeInfo::Compact(i) => i.i_mode,
        }
    }

    /// What the mode word says the inode is.
    pub open spec fn spec_inode_type(self) -> Type {
        let kind = self.spec_mode() & S_IFMT;
        if kind == 0o100000 {
            Type::Regular
        } else if kind == 0o040000 {
            Type::Directory
        } else if kind == 0o120000 {
            Type::Link
        } else if kind == 0o020000 {
            Type::Character
        } else if kind == 0o060000 {
            Type::Block
        } else if kind == 0o010000 {
            Type::Fifo
        } else if kind == 0o140000 {
            Type::Socket
        } else {
            Type::Unknown
        }
    }

    /// The number of links to the inode.
    pub open spec fn spec_nlink(self) -> u32 {
        match self {
            InodeInfo::Extended(i) => i.i_nlink,
            InodeInfo::Compact(i) => i.i_nlink as u32,
        }
    }

    /// The owner.
    pub open spec fn spec_uid(self) -> u32 {
        match self {
            InodeInfo::Extended(i) => i.i_uid,
            InodeInfo::Compact(i) => i.i_uid as u32,
        }
    }

    /// The owning group.
    pub open spec fn spec_gid(self) -> u32 {
        match self {
            InodeInfo::Extended(i) => i.i_gid,
            InodeInfo::Compact(i) => i.i_gid as u32,
        }
    }

    /// The format word.
    pub fn format(&self) -> (r: Format)
        ensures
            r.spec_layout() == self.spec_layout(),
            r == match *self {
                InodeInfo::Extended(i) => i.i_format,
                InodeInfo::Compact(i) => i.i_format,
            },
    {
        match self {
            InodeInfo::Extended(i) => i.i_format,
            InodeInfo::Compact(i) => i.i_format,
        }
    }

    /// The size of the file in bytes.
    pub fn file_size(&self) -> (r: Off)
        ensures
            r == self.spec_file_size(),
            match *self {
                InodeInfo::Extended(i) => r == i.i_size,
                InodeInfo::Compact(i) => r == i.i_size,
            },
    {
        match self {
            InodeInfo::Extended(i) => i.i_size,
            InodeInfo::Compact(i) => i.i_size as Off,
        }
    }

    /// The size of the inode itself.
    pub fn inode_size(&self) -> (r: Off)
        ensures
            r == self.spec_inode_size(),
            *self is Extended ==> r == 64,
            *self is Compact ==> r == 32,
    {
        match self {
            InodeInfo::Extended(_) => 64,
            InodeInfo::Compact(_) => 32,
        }
    }

    /// The size of the attributes that stand behind the inode.
    pub fn xattr_size(&self) -> (r: Off)
        ensures
            r == self.spec_xattr_size(),
            match *self {
                InodeInfo::Extended(i) => if i.i_xattr_icount == 0 {
                    r == 0
                } else {
                    r == 8 + 4 * i.i_xattr_icount
                },
                InodeInfo::Compact(i) => if i.i_xattr_icount == 0 {
                    r == 0
                } else {
                    r == 8 + 4 * i.i_xattr_icount
                },
            },
    {
        let icount: u16 = match self {
            InodeInfo::Extended(i) => i.i_xattr_icount,
            InodeInfo::Compact(i) => i.i_xattr_icount,
        };
        if icount == 0 {
            0
        } else {
            12 + 4 * (icount as Off - 1)
        }
    }

    /// The mode word.
    pub fn mode(&self) -> (r: u16)
        ensures
            r == self.spec_mode(),
            match *self {
                InodeInfo::Extended(i) => r == i.i_mode,
                InodeInfo::Compact(i) => r == i.i_mode,
            },
    {
        match self {
            InodeInfo::Extended(i) => i.i_mode,
            InodeInfo::Compact(i) => i.i_mode,
        }
    }

    /// What the mode word says the inode is.
    pub fn inode_type(&self) -> (r: Type)
        ensures
            r == self.spec_inode_type(),
    {
        let kind: u16 = self.mode() & S_IFMT;
        if kind == 0o100000 {
            Type::Regular
        } else if kind == 0o040000 {
            Type::Directory
        } else if kind == 0o120000 {
            Type::Link
        } else if kind == 0o020000 {
            Type::Character
        } else if kind == 0o060000 {
            Type::Block
        } else if kind == 0o010000 {
            Type::Fifo
        } else if kind == 0o140000 {
            Type::Socket
        } else {
            Type::Unknown
        }
    }

    /// The number of links to the inode.
    pub fn nlink(&self) -> (r: u32)
        ensures
            r == self.spec_nlink(),
            match *self {
                InodeInfo::Extended(i) => r == i.i_nlink,
                InodeInfo::Compact(i) => r == i.i_nlink,
            },
    {
        match self {
            InodeInfo::Extended(i) => i.i_nlink,
            InodeInfo::Compact(i) => i.i_nlink as u32,
        }
    }

    /// The owner.
    pub fn uid(&self) -> (r: u32)
        ensures
            r == self.spec_uid(),
            match *self {
                InodeInfo::Extended(i) => r == i.i_uid,
                InodeInfo::Compact(i) => r == i.i_uid,
            },
    {
        match self {
            InodeInfo::Extended(i) => i.i_uid,
            InodeInfo::Compact(i) => i.i_uid as u32,
        }
    }

    /// The owning group.
    pub fn gid(&self) -> (r: u32)
        ensures
            r == self.spec_gid(),
            match *self {
                InodeInfo::Extended(i) => r == i.i_gid,
                InodeInfo::Compact(i) => r == i.i_gid,
            },
    {
        match self {
            InodeInfo::Extended(i) => i.i_gid,
            InodeInfo::Compact(i) => i.i_gid as u32,
        }
    }
}

/// The fields of an inode say the same in either form.
pub proof fn law_fields_of_an_inode(info: InodeInfo)
    ensures
        match info {
            InodeInfo::Extended(i) => {
                &&& info.spec_file_size() == i.i_size
                &&& info.spec_mode() == i.i_mode
                &&& info.spec_nlink() == i.i_nlink
                &&& info.spec_uid() == i.i_uid
                &&& info.spec_gid() == i.i_gid
                &&& info.spec_layout() == i.i_format.spec_layout()
            },
            InodeInfo::Compact(i) => {
                &&& info.spec_file_size() == i.i_size
                &&& info.spec_mode() == i.i_mode
                &&& info.spec_nlink() == i.i_nlink
                &&& info.spec_uid() == i.i_uid
                &&& info.spec_gid() == i.i_gid
                &&& info.spec_layout() == i.i_format.spec_layout()
            },
        },
{
}

/// A format word is made of the version, the code of the layout and what stands above it. Neither
/// the version nor what stands above has a say in the layout.
pub proof fn law_format_word_is_read_back(version: u16, code: u16, above: u16)
    requires
        version < 2,
        code < 8,
        above < 0x1000,
    ensures
        ({
            let layout = Format((version + 2 * code + 16 * above) as u16).spec_layout();
            &&& code == 0 <==> layout == Layout::FlatPlain
            &&& code == 1 <==> layout == Layout::CompressedFull
            &&& code == 2 <==> layout == Layout::FlatInline
            &&& code == 3 <==> layout == Layout::CompressedCompact
            &&& code == 4 <==> layout == Layout::Chunk
            &&& code >= 5 <==> layout == Layout::Unknown
        }),
{
    let word = (version + 2 * code + 16 * above) as u16;
    assert((word >> 1) & 0x7 == code) by (bit_vector)
        requires
            version < 2,
            code < 8,
            above < 0x1000,
            word == version + 2 * code + 16 * above,
    ;
}

/// A mode word is made of the kind of the file and its permissions. The permissions have no say in
/// what the inode is.
pub proof fn law_kind_of_a_mode_is_read_back(info: InodeInfo, kind: u16, permissions: u16)
    requires
        kind < 0o20,
        permissions < 0o10000,
        info.spec_mode() == kind * 0o10000 + permissions,
    ensures
        ({
            let t = info.spec_inode_type();
            &&& kind == 0o01 <==> t == Type::Fifo
            &&& kind == 0o02 <==> t == Type::Character
            &&& kind == 0o04 <==> t == Type::Directory
            &&& kind == 0o06 <==> t == Type::Block
            &&& kind == 0o10 <==> t == Type::Regular
            &&& kind == 0o12 <==> t == Type::Link
            &&& kind == 0o14 <==> t == Type::Socket
        }),
{
    let mode = info.spec_mode();
    assert(mode & 0o170000 == kind * 0o10000) by (bit_vector)
        requires
            kind < 0o20,
            permissions < 0o10000,
            mode == kind * 0o10000 + permissions,
    ;
}

/// An inode in memory. What a filesystem keeps of an inode besides its on-disk form is up to the
/// implementation.
pub trait Inode: Sized {
    /// The on-disk form.
    open spec fn spec_info(&self) -> InodeInfo {
        arbitrary()
    }

    /// The number of the inode.
    open spec fn spec_nid(&self) -> Nid {
        arbitrary()
    }

    /// The shared attributes.
    open spec fn spec_xattrs(&self) -> XAttrSharedEntries {
        arbitrary()
    }

    /// Makes the in-memory inode.
    fn new(
        sb: &SuperBlock,
        info: InodeInfo,
        nid: Nid,
        xattrs_shared_entries: XAttrSharedEntries,
    ) -> (r: Self)
        ensures
            r.spec_info() == info,
            r.spec_nid() == nid,
            r.spec_xattrs() == xattrs_shared_entries,
    ;

    /// The on-disk form.
    fn info(&self) -> (r: &InodeInfo)
        ensures
            *r == self.spec_info(),
    ;

    /// The number of the inode.
    fn nid(&self) -> (r: Nid)
        ensures
            r == self.spec_nid(),
    ;

    /// The shared attributes.
    fn xattrs_shared_entries(&self) -> (r: &XAttrSharedEntries)
        ensures
            *r == self.spec_xattrs(),
    ;
}

/// The inodes that are in memory. One that is not is read on demand, which takes memory, and where
/// there is none, that is the answer.
pub trait InodeCollection {
    /// The kind of inodes.
    type I: Inode;

    /// The inode that asking for `nid` leads to.
    open spec fn holds<F: FileSystem<Self::I>>(&self, filesystem: &F, nid: Nid) -> PosixResult<
        Self::I,
    > {
        arbitrary()
    }

    /// Gets hold of an inode. What is changed of it stays changed, and the others stay as they
    /// are.
    fn iget<F: FileSystem<Self::I>>(&mut self, nid: Nid, filesystem: &F) -> (r: PosixResult<
        &mut Self::I,
    >)
        ensures
            match r {
                Ok(inode) => {
                    &&& old(self).holds(filesystem, nid) == Ok::<Self::I, Errno>(*inode)
                    &&& final(self).holds(filesystem, nid) == Ok::<Self::I, Errno>(*final(inode))
                },
                Err(e) => {
                    &&& old(self).holds(filesystem, nid) == Err::<Self::I, Errno>(e) || e
                        == Errno::ENOMEM && alloc_helper::memory_refused()
                    &&& final(self).holds(filesystem, nid) == old(self).holds(filesystem, nid)
                },
            },
            forall|other: Nid|
                other != nid ==> #[trigger] final(self).holds(filesystem, other) == old(
                    self,
                ).holds(filesystem, other),
    ;
}

} // verus!

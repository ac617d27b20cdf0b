//! What a virtual filesystem knows of files and of filesystems.

use vstd::prelude::*;

verus! {

/// What a file is.
#[derive(Debug, Clone, Copy, PartialEq, Eq, Structural)]
pub enum FileType {
    File,
    Dir,
    BlockDevice,
    CharDevice,
    Pipe,
    SymLink,
    Socket,
}

/// The number of an inode in memory.
#[derive(Debug, Clone, Copy, PartialEq, Eq, Structural)]
pub struct InodeId(pub usize);

impl InodeId {
    /// The inode number `n`.
    pub fn new(n: usize) -> (r: Self)
        ensures
            r == InodeId(n),
    {
        InodeId(n)
    }

    /// The number.
    pub fn data(&self) -> (r: usize)
        ensures
            r == self.0,
    {
        self.0
    }
}

/// The bits of a mode that have a meaning: the type and the permissions.
pub const INODE_MODE_BITS: u32 = 0o177777;

/// The type and the permissions of a file.
#[derive(Debug, Clone, Copy, PartialEq, Eq, Structural)]
pub struct InodeMode(pub u32);

impl InodeMode {
    /// The mode of the bits of `bits` that have a meaning.
    pub fn from_bits_truncate(bits: u32) -> (r: Self)
        ensures
            r == InodeMode(bits & INODE_MODE_BITS),
            bits <= 0xffff ==> r == InodeMode(bits),
            r.0 == bits % 0x1_0000,
    {
        proof {
            assert(bits & 0o177777 == bits % 0x1_0000) by (bit_vector);
            assert(bits <= 0xffff ==> bits & 0o177777 == bits) by (bit_vector);
        }
        InodeMode(bits & INODE_MODE_BITS)
    }
}

/// A point in time.
#[derive(Debug, Clone, Copy, PartialEq, Eq, Structural)]
pub struct PosixTimeSpec {
    pub tv_sec: i64,
    pub tv_nsec: i64,
}

impl Default for PosixTimeSpec {
    fn default() -> (r: Self)
        ensures
            r == (PosixTimeSpec { tv_sec: 0, tv_nsec: 0 }),
    {
        PosixTimeSpec { tv_sec: 0, tv_nsec: 0 }
    }
}

/// What is known of a file.
#[derive(Debug, Clone, Copy, PartialEq, Eq, Structural)]
pub struct Metadata {
    pub dev_id: usize,
    pub inode_id: InodeId,
    pub size: i64,
    pub blk_size: usize,
    pub blocks: usize,
    pub atime: PosixTimeSpec,
    pub mtime: PosixTimeSpec,
    pub ctime: PosixTimeSpec,
    pub btime: PosixTimeSpec,
    pub file_type: FileType,
    pub mode: InodeMode,
    pub flags: u32,
    pub nlinks: usize,
    pub uid: usize,
    pub gid: usize,
    pub raw_dev: u32,
}

/// An entry of a directory.
#[derive(Debug)]
pub struct DirectoryEntry {
    pub name: Vec<u8>,
    pub ino: u64,
    pub d_type: u8,
    /// Where listing goes on behind the entry.
    pub next_cookie: u64,
}

/// What a filesystem says of itself.
#[derive(Debug, Clone, Copy, PartialEq, Eq, Structural)]
pub struct FsInfo {
    pub blk_dev_id: usize,
    pub max_name_len: usize,
}

/// The numbers of a mounted filesystem.
#[derive(Debug, Clone, Copy, PartialEq, Eq, Structural)]
pub struct FsStatistics {
    pub magic: u64,
    pub bsize: u64,
    pub blocks: u64,
    pub bfree: u64,
    pub bavail: u64,
    pub files: u64,
    pub ffree: u64,
    pub fsid: u64,
    pub namelen: u64,
    pub frsize: u64,
    pub flags: u64,
}

/// The flags of a mount.
#[derive(Debug, Clone, Copy, PartialEq, Eq, Structural)]
pub struct MountFlags(pub u32);

/// The wish to change the options of a mount.
#[derive(Debug, Clone, Copy)]
pub struct FsReconfigureRequest<'a> {
    /// Options that only the filesystem knows.
    pub raw_data: Option<&'a str>,
    pub sb_flags: MountFlags,
    pub sb_flags_mask: MountFlags,
}

/// Whether a character has the Unicode property `White_Space`.
pub open spec fn white_space(c: char) -> bool {
    ||| '\u{9}' <= c <= '\u{d}'
    ||| c == '\u{20}' || c == '\u{85}' || c == '\u{a0}' || c == '\u{1680}'
    ||| '\u{2000}' <= c <= '\u{200a}'
    ||| c == '\u{2028}' || c == '\u{2029}' || c == '\u{202f}' || c == '\u{205f}' || c == '\u{3000}'
}

/// Whether a string holds nothing but white space.
pub open spec fn blank(s: Seq<char>) -> bool {
    forall|i: int| 0 <= i < s.len() ==> white_space(#[trigger] s[i])
}

/// Whether a string holds nothing but white space.
pub fn is_blank(s: &str) -> (r: bool)
    ensures
        r == blank(s@),
{
    for c in it: s.chars()
        invariant
            it.seq() == s@,
            forall|k: int| 0 <= k < it.index() ==> white_space(#[trigger] s@[k]),
    {
        assert(c == s@[it.index()]);
        let white: bool = ('\u{9}' <= c && c <= '\u{d}') || c == '\u{20}' || c == '\u{85}' || c
            == '\u{a0}' || c == '\u{1680}' || ('\u{2000}' <= c && c <= '\u{200a}') || c
            == '\u{2028}' || c == '\u{2029}' || c == '\u{202f}' || c == '\u{205f}' || c
            == '\u{3000}';
        if !white {
            return false;
        }
    }
    true
}

/// A string is blank exactly if all of its parts are, and a character that is printed makes it one
/// that is not.
pub proof fn law_blank_strings(a: Seq<char>, b: Seq<char>, c: char)
    ensures
        blank(Seq::empty()),
        blank(a + b) <==> blank(a) && blank(b),
        blank(seq![c]) <==> white_space(c),
        white_space(' ') && white_space('\t') && white_space('\n') && white_space('\r'),
        '!' <= c <= '~' ==> !white_space(c),
        ({
            let code = c as u32;
            white_space(c) <==> {
                ||| 9 <= code <= 13
                ||| code == 32 || code == 133 || code == 160 || code == 5760
                ||| 8192 <= code <= 8202
                ||| code == 8232 || code == 8233 || code == 8239 || code == 8287 || code == 12288
            }
        }),
{
    if blank(a + b) {
        assert forall|i: int| 0 <= i < a.len() implies white_space(#[trigger] a[i]) by {
            assert(white_space((a + b)[i]));
        }
        assert forall|i: int| 0 <= i < b.len() implies white_space(#[trigger] b[i]) by {
            assert(white_space((a + b)[a.len() + i]));
        }
    }
    assert(seq![c][0] == c);
}

} // verus!

//! The superblock and the geometry of an image.

use crate::alloc_helper;
use crate::bytes;
use crate::data::raw_iters::stream::Stream;
use crate::data::raw_iters::traits::BufferMapIter;
use crate::data::{Backend, Image};
use crate::dir::{DirVisitor, Listing};
use crate::errnos::{Errno, PosixResult};
use crate::inode::{Inode, InodeInfo};
use crate::xattrs::XAttrValue;
use crate::{Blk, Nid, Off};
use vstd::arithmetic::power2;
use vstd::prelude::*;
use vstd::string::StringSliceAdditionalSpecFns;

verus! {

/// Where the superblock stands on the device.
pub const EROFS_SUPER_OFFSET: Off = 1024;

/// The fields of the superblock that reading files depends on.
#[derive(Debug, Clone, Copy)]
pub struct SuperBlock {
    /// The binary logarithm of the block size.
    pub blkszbits: u8,
    /// How many extension slots follow the superblock.
    pub sb_extslots: u8,
    /// The inode of the root directory.
    pub root_nid: u16,
    /// How many inodes the image holds.
    pub inos: i64,
    /// How many blocks the image holds.
    pub blocks: i32,
    /// The first block of the inode area.
    pub meta_blkaddr: Blk,
    /// The features that a reader has to know.
    pub feature_incompat: i32,
    /// Either the bitmap of the compression algorithms in use or the LZ4 window size.
    pub compression: i16,
}

impl Default for SuperBlock {
    fn default() -> (r: Self)
        ensures
            r == (SuperBlock {
                blkszbits: 0,
                sb_extslots: 0,
                root_nid: 0,
                inos: 0,
                blocks: 0,
                meta_blkaddr: 0,
                feature_incompat: 0,
                compression: 0,
            }),
    {
        SuperBlock {
            blkszbits: 0,
            sb_extslots: 0,
            root_nid: 0,
            inos: 0,
            blocks: 0,
            meta_blkaddr: 0,
            feature_incompat: 0,
            compression: 0,
        }
    }
}

/// An address, split into a block and a place in it.
#[derive(Debug, Clone, Copy)]
pub struct Accessor {
    /// Where the block starts.
    pub base: Off,
    /// The place in the block.
    pub off: Off,
    /// How many bytes of the block are left from that place on.
    pub len: Off,
    /// The number of the block.
    pub nr: Off,
}

/// The size of a block of `bits` bits.
pub open spec fn block_size(bits: u8) -> int {
    power2::pow2(bits as nat) as int
}

/// A block is never empty, and one of a valid size can be held in memory.
pub proof fn lemma_block_size(bits: u8)
    requires
        bits < 31,
    ensures
        1 <= block_size(bits) <= 0x4000_0000,
        1u64 << bits == block_size(bits),
{
    power2::lemma2_to64();
    power2::lemma_pow2_pos(bits as nat);
    if bits < 30 {
        power2::lemma_pow2_strictly_increases(bits as nat, 30);
    }
    vstd::bits::lemma_u64_shl_is_mul(1, bits as u64);
}

/// Shifting an address by the bits of a block is dividing it by the block size, and the bits
/// below are the remainder.
pub proof fn lemma_block_split(x: u64, bits: u8)
    requires
        bits < 64,
    ensures
        1 <= block_size(bits) <= 0x8000_0000_0000_0000,
        1u64 << bits == block_size(bits),
        x >> bits == x as int / block_size(bits),
        x & ((block_size(bits) - 1) as u64) == x as int % block_size(bits),
        (x as int / block_size(bits)) * block_size(bits) + x as int % block_size(bits) == x,
        0 <= x as int % block_size(bits) < block_size(bits),
        0 <= (x as int / block_size(bits)) * block_size(bits) <= x,
{
    power2::lemma2_to64();
    power2::lemma2_to64_rest();
    power2::lemma_pow2_pos(bits as nat);
    if bits < 63 {
        power2::lemma_pow2_strictly_increases(bits as nat, 63);
    }
    vstd::bits::lemma_u64_shl_is_mul(1, bits as u64);
    vstd::bits::lemma_u64_shr_is_div(x, bits as u64);
    vstd::bits::lemma_u64_low_bits_mask_is_mod(x, bits as nat);
    vstd::arithmetic::div_mod::lemma_fundamental_div_mod(x as int, block_size(bits));
    vstd::arithmetic::div_mod::lemma_mod_bound(x as int, block_size(bits));
    vstd::arithmetic::mul::lemma_mul_is_commutative(
        block_size(bits),
        x as int / block_size(bits),
    );
}

/// Shifting a number left by the bits of a block multiplies it by the block size, as long as the
/// product fits.
pub proof fn lemma_block_mul(x: u64, bits: u8)
    requires
        bits < 31,
        x * block_size(bits) <= u64::MAX,
    ensures
        x << bits == x * block_size(bits),
{
    vstd::bits::lemma_u64_shl_is_mul(x, bits as u64);
}

impl SuperBlock {
    /// A block can be held in memory on every machine, and so every block of the image has a 64-bit
    /// address. What can be held in memory is at most `isize::MAX` bytes, which is less than
    /// `1 << 31` where addresses have 32 bits.
    pub open spec fn valid(&self) -> bool {
        self.blkszbits < 31
    }

    /// The block size, as a number.
    pub open spec fn spec_blksz(&self) -> int {
        block_size(self.blkszbits)
    }

    /// Where block `blk` starts.
    pub open spec fn spec_blkpos(&self, blk: Blk) -> int {
        blk * self.spec_blksz()
    }

    /// Where the inode `nid` stands, cut off at the end of the address space.
    pub open spec fn spec_iloc(&self, nid: Nid) -> int {
        bytes::least(self.spec_blkpos(self.meta_blkaddr) + nid * 32, u64::MAX as int)
    }

    /// The size of a block.
    pub fn blksz(&self) -> (r: Off)
        requires
            self.blkszbits < 64,
        ensures
            r == self.spec_blksz(),
            r == power2::pow2(self.blkszbits as nat),
            r >= 1,
            self.valid() ==> r <= 0x4000_0000,
    {
        proof {
            lemma_block_split(0, self.blkszbits);
            if self.valid() {
                lemma_block_size(self.blkszbits);
            }
        }
        1u64 << self.blkszbits
    }

    /// Where block `blk` starts.
    pub fn blkpos(&self, blk: Blk) -> (r: Off)
        requires
            self.valid(),
        ensures
            r == self.spec_blkpos(blk),
            r == blk * power2::pow2(self.blkszbits as nat),
            r <= 0x4000_0000 * u32::MAX,
    {
        proof {
            lemma_block_size(self.blkszbits);
            assert(blk * self.spec_blksz() <= u32::MAX * 0x4000_0000) by (nonlinear_arith)
                requires
                    0 <= blk <= u32::MAX,
                    0 <= self.spec_blksz() <= 0x4000_0000,
            ;
            lemma_block_mul(blk as u64, self.blkszbits);
        }
        (blk as u64) << self.blkszbits
    }

    /// Splits an address into a block and a place in it.
    pub fn blk_access(&self, address: Off) -> (r: Accessor)
        requires
            self.blkszbits < 64,
        ensures
            r.nr == address as int / self.spec_blksz(),
            r.off == address as int % self.spec_blksz(),
            r.base == address - r.off,
            r.base + r.off == address,
            r.base as int % power2::pow2(self.blkszbits as nat) as int == 0,
            r.nr * power2::pow2(self.blkszbits as nat) == r.base,
            r.off < power2::pow2(self.blkszbits as nat),
            r.off + r.len == power2::pow2(self.blkszbits as nat),
            r.len == self.spec_blksz() - r.off,
            1 <= r.len,
            self.valid() ==> r.len <= 0x4000_0000,
    {
        let size: Off = self.blksz();
        proof {
            lemma_block_split(address, self.blkszbits);
            vstd::arithmetic::div_mod::lemma_mod_multiples_basic(
                address as int / self.spec_blksz(),
                self.spec_blksz(),
            );
        }
        let off: Off = address & (size - 1);
        Accessor { base: address - off, off, len: size - off, nr: address >> self.blkszbits }
    }

    /// Where the inode `nid` stands, cut off at the end of the address space.
    pub fn iloc(&self, nid: Nid) -> (r: Off)
        requires
            self.blkszbits < 64,
        ensures
            r == self.spec_iloc(nid),
            self.meta_blkaddr * power2::pow2(self.blkszbits as nat) + 32 * nid <= u64::MAX ==> r
                == self.meta_blkaddr * power2::pow2(self.blkszbits as nat) + 32 * nid,
            self.meta_blkaddr * power2::pow2(self.blkszbits as nat) + 32 * nid > u64::MAX ==> r
                == u64::MAX,
    {
        let size: Off = self.blksz();
        proof {
            assert(self.meta_blkaddr * size >= 0) by (nonlinear_arith)
                requires
                    self.meta_blkaddr >= 0,
                    size >= 0,
            ;
        }
        match ((self.meta_blkaddr as u64).checked_mul(size), nid.checked_mul(32)) {
            (Some(base), Some(rel)) => base.saturating_add(rel),
            _ => u64::MAX,
        }
    }

    /// How many blocks the image holds.
    pub fn blocks(&self) -> (r: i32)
        ensures
            r == self.blocks,
    {
        self.blocks
    }

    /// How many inodes the image holds.
    pub fn inos(&self) -> (r: i64)
        ensures
            r == self.inos,
    {
        self.inos
    }
}

/// A mounted image. Where an operation takes memory and there is none, that is its answer.
pub trait FileSystem<I: Inode> {
    /// The kind of device that holds the image.
    type B: Backend;

    /// What hands out the bytes of a file.
    type Blocks<'a>: BufferMapIter<'a> where Self: 'a, I: 'a;

    /// The superblock.
    open spec fn sb(&self) -> SuperBlock {
        arbitrary()
    }

    /// What the device that holds the image answers to a request.
    open spec fn image(&self) -> Image {
        arbitrary()
    }

    /// What stands on disk of the inode `nid`.
    open spec fn on_disk(&self, nid: Nid) -> PosixResult<InodeInfo> {
        arbitrary()
    }

    /// The inode that the directory `dir` has under `name`, if there is one.
    open spec fn entry(&self, dir: I, name: Seq<u8>) -> PosixResult<Option<Nid>> {
        arbitrary()
    }

    /// The entries of the directory `nid`, of which `info` stands on disk, one after the other.
    open spec fn listing(&self, nid: Nid, info: InodeInfo) -> Listing {
        arbitrary()
    }

    /// What is handed out of the file `nid`, of which `info` stands on disk, from `offset` on.
    open spec fn contents(&self, nid: Nid, info: InodeInfo, offset: Off) -> PosixResult<Stream> {
        arbitrary()
    }

    /// Whether `r` answers the question for the attribute `name` of the kind `index`, and leaves
    /// `after` where the caller's room was `before`.
    open spec fn xattr_answer(
        &self,
        inode: I,
        index: u32,
        name: Seq<u8>,
        before: Option<Seq<u8>>,
        r: PosixResult<XAttrValue>,
        after: Option<Seq<u8>>,
    ) -> bool {
        arbitrary()
    }

    /// Whether `r` answers the question for the names of the attributes, and leaves `after` where
    /// the caller's room was `before`.
    open spec fn xattrs_answer(
        &self,
        inode: I,
        before: Seq<u8>,
        r: PosixResult<usize>,
        after: Seq<u8>,
    ) -> bool {
        arbitrary()
    }

    /// The superblock.
    fn superblock(&self) -> (r: &SuperBlock)
        ensures
            *r == self.sb(),
    ;

    /// The device that holds the image.
    fn backend(&self) -> (r: &Self::B)
        ensures
            r.image() == self.image(),
    ;

    /// Reads what stands on disk of the inode `nid`.
    fn inode_info(&self, nid: Nid) -> (r: PosixResult<InodeInfo>)
        ensures
            r == self.on_disk(nid) || r == Err::<InodeInfo, Errno>(Errno::ENOMEM)
                && alloc_helper::memory_refused(),
    ;

    /// Looks for `name` in the directory `dir`.
    fn find_nid(&self, dir: &I, name: &str) -> (r: PosixResult<Option<Nid>>)
        ensures
            r == self.entry(*dir, name.spec_bytes()) || r == Err::<Option<Nid>, Errno>(
                Errno::ENOMEM,
            ) && alloc_helper::memory_refused(),
    ;

    /// Shows the entries of the directory `dir` to `visitor`, until it has seen enough.
    fn fill_dentries<V: DirVisitor>(&self, dir: &I, visitor: &mut V) -> (r: PosixResult<()>)
        ensures
            self.listing(dir.spec_nid(), dir.spec_info()).shown::<V>(
                old(visitor).state(),
                final(visitor).state(),
                r,
            ),
    ;

    /// Hands out the bytes of the file `inode` from `offset` on.
    fn mapped_iter<'a>(&'a self, inode: &'a I, offset: Off) -> (r: PosixResult<Self::Blocks<'a>>)
        ensures
            match r {
                Ok(blocks) => {
                    &&& blocks.valid()
                    &&& self.contents(inode.spec_nid(), inode.spec_info(), offset) == Ok::<
                        Stream,
                        Errno,
                    >(blocks.stream())
                },
                Err(e) => {
                    ||| self.contents(inode.spec_nid(), inode.spec_info(), offset) == Err::<
                        Stream,
                        Errno,
                    >(e)
                    ||| e == Errno::ENOMEM && alloc_helper::memory_refused()
                },
            },
    ;

    /// Looks up the attribute `name` of the kind `index`, in the caller's room if there is one.
    fn get_xattr(
        &self,
        inode: &I,
        index: u32,
        name: &[u8],
        buffer: &mut Option<&mut [u8]>,
    ) -> (r: PosixResult<XAttrValue>)
        ensures
            self.xattr_answer(
                *inode,
                index,
                name@,
                room(*old(buffer)),
                r,
                room(*final(buffer)),
            ),
    ;

    /// Lists the names of the attributes in the caller's room.
    fn list_xattrs(&self, inode: &I, buffer: &mut [u8]) -> (r: PosixResult<usize>)
        ensures
            self.xattrs_answer(*inode, old(buffer)@, r, final(buffer)@),
    ;
}

/// The bytes of a room that a caller may offer.
pub open spec fn room(buffer: Option<&mut [u8]>) -> Option<Seq<u8>> {
    match buffer {
        Some(b) => Some((*b)@),
        None => None,
    }
}

} // verus!

//! From a place in a compressed file to the extent that holds it.
//!
//! The data of a compressed inode is a row of logical clusters. Each has an index entry: a head
//! starts an extent and says where its physical cluster stands, a non-head belongs to the extent
//! of a head before it. The index is either full, with eight bytes for each entry, or compact,
//! where regions of packed bits hold two or sixteen entries.

use crate::alloc_helper;
use crate::bytes;
use crate::compression::{EROFS_FEATURE_INCOMPAT_COMPR_CFGS, Z_EROFS_PCLUSTER_MAX_SIZE};
use crate::data::{Backend, Image};
use crate::errnos::{Errno, PosixResult};
use crate::inode::{Inode, InodeInfo, Layout};
use crate::map::{Algorithm, MapResult, MapType, Mapping, Segment};
use crate::superblock;
use crate::superblock::{FileSystem, SuperBlock};
use crate::{Blk, Nid, Off};
use vstd::arithmetic::power2;
use vstd::prelude::*;

pub mod extents;
pub mod layout;
pub mod regions;

verus! {

/// An extent that is stored as it is.
pub const LCLUSTER_TYPE_PLAIN: u8 = 0;

/// The head of a compressed extent.
pub const LCLUSTER_TYPE_HEAD1: u8 = 1;

/// A logical cluster that belongs to the extent of a head before it.
pub const LCLUSTER_TYPE_NONHEAD: u8 = 2;

/// The head of an extent that is compressed by the second algorithm, which is not supported.
pub const LCLUSTER_TYPE_HEAD2: u8 = 3;

/// Entries may be packed into two bytes each.
pub const ADVISE_COMPACTED_2B: u16 = 0x1;

/// Physical clusters of the first algorithm may take several blocks.
pub const ADVISE_BIG_PCLUSTER_1: u16 = 0x2;

/// Physical clusters of the second algorithm may take several blocks.
pub const ADVISE_BIG_PCLUSTER_2: u16 = 0x4;

/// The tail of the file stands in the inode.
pub const ADVISE_INLINE_PCLUSTER: u16 = 0x8;

/// Plain physical clusters are interlaced.
pub const ADVISE_INTERLACED_PCLUSTER: u16 = 0x10;

/// The tail of the file stands in a shared inode.
pub const ADVISE_FRAGMENT_PCLUSTER: u16 = 0x20;

/// The head refers to a part of an extent.
pub const LI_PARTIAL_REF: u16 = 0x8000;

/// The look-back distance of the entry is a count of compressed blocks.
pub const LI_D0_CBLKCNT: u16 = 0x800;

/// LZ4.
pub const Z_EROFS_COMPRESSION_LZ4: u8 = 0;

/// Not compressed.
pub const Z_EROFS_COMPRESSION_SHIFTED: u16 = 3;

/// The size of the map header.
pub const MAP_HEADER_SIZE: Off = 8;

/// The longest extent, once decoded.
pub const PCLUSTER_MAX_DSIZE: Off = 0xc0_0000;

/// How often the search for a head may be sent on.
pub const MAX_LOOKBACK_STEPS: u32 = 256;

/// The largest logical cluster, as a number of bits.
pub const MAX_LOGICAL_CLUSTERBITS: u8 = 14;

/// The map header of a compressed inode.
#[derive(Debug, Clone, Copy)]
pub struct ZInodeInfo {
    /// Flags.
    pub advise: u16,
    /// The two compression algorithms.
    pub algorithmtype: [u8; 2],
    /// The binary logarithm of the logical cluster size.
    pub logical_clusterbits: u8,
}

/// What the map header says.
pub struct ZInfo {
    pub advise: u16,
    pub algorithmtype: (u8, u8),
    pub logical_clusterbits: u8,
}

impl View for ZInodeInfo {
    type V = ZInfo;

    open spec fn view(&self) -> ZInfo {
        ZInfo {
            advise: self.advise,
            algorithmtype: (self.algorithmtype[0], self.algorithmtype[1]),
            logical_clusterbits: self.logical_clusterbits,
        }
    }
}

/// An index entry.
#[derive(Debug, Clone, Copy)]
pub struct Lcluster {
    /// Plain, head or non-head.
    pub kind: u8,
    /// For a head, where in the logical cluster its data starts; for a non-head, the cluster size.
    pub clusterofs: u16,
    /// For a non-head, the distances back to the head and on to the next.
    pub delta: [u16; 2],
    /// For a head, the block where the physical cluster starts.
    pub pblk: Blk,
}

/// What an index entry says.
#[verifier::ext_equal]
pub struct LclusterView {
    pub kind: u8,
    pub clusterofs: u16,
    pub delta0: u16,
    pub delta1: u16,
    pub pblk: Blk,
}

impl View for Lcluster {
    type V = LclusterView;

    open spec fn view(&self) -> LclusterView {
        LclusterView {
            kind: self.kind,
            clusterofs: self.clusterofs,
            delta0: self.delta[0],
            delta1: self.delta[1],
            pblk: self.pblk,
        }
    }
}

/// The entry that stands for nothing.
pub open spec fn blank() -> LclusterView {
    LclusterView { kind: 0, clusterofs: 0, delta0: 0, delta1: 0, pblk: 0 }
}

impl Default for Lcluster {
    fn default() -> (r: Self)
        ensures
            r@ == blank(),
    {
        Lcluster { kind: 0, clusterofs: 0, delta: [0, 0], pblk: 0 }
    }
}

/// Rounds up to a multiple of eight; what has none stays at the end of the address space.
pub open spec fn aligned_8(x: int) -> int {
    if x + 7 > u64::MAX {
        u64::MAX as int
    } else {
        bytes::round_up(x, 8)
    }
}

/// Rounds up to a multiple of eight; what has none stays at the end of the address space.
pub fn align_up_8(x: Off) -> (r: Off)
    ensures
        r == aligned_8(x as int),
        x + 7 <= u64::MAX ==> r as int % 8 == 0 && x <= r < x + 8,
        x + 7 > u64::MAX ==> r == u64::MAX,
{
    match x.checked_add(7) {
        Some(v) => v / 8 * 8,
        None => u64::MAX,
    }
}

/// The entry of a packed region that starts at bit `pos`: the lower `lbits` bits are a place or a
/// distance, the two bits above are the type.
pub open spec fn packed_entry(pack: Seq<u8>, pos: int, lbits: nat) -> (u32, u8) {
    let v = bytes::le32(pack, pos / 8) as int / power2::pow2((pos % 8) as nat) as int;
    let size = power2::pow2(lbits) as int;
    ((v % size) as u32, ((v / size) % 4) as u8)
}

/// Takes the entry that starts at bit `pos` out of a packed region. The four bytes that it starts
/// in have to be there.
pub fn decode_compactedbits(pack: &[u8], pos: u32, lbits: u32) -> (r: PosixResult<(u32, u8)>)
    requires
        lbits < 32,
    ensures
        r == if pos / 8 + 4 > pack@.len() {
            Err::<(u32, u8), Errno>(Errno::EUCLEAN)
        } else {
            Ok::<(u32, u8), Errno>(packed_entry(pack@, pos as int, lbits as nat))
        },
{
    let byte: usize = (pos / 8) as usize;
    if byte + 4 > pack.len() {
        return Err(Errno::EUCLEAN);
    }
    let word: u32 = bytes::read_le32(pack, byte);
    proof {
        assert(pos & 7 == pos % 8) by (bit_vector);
        power2::lemma_pow2_pos(lbits as nat);
        vstd::bits::lemma_u32_pow2_no_overflow(lbits as nat);
        vstd::bits::lemma_u32_shl_is_mul(1, lbits);
    }
    let v: u32 = word >> (pos & 7);
    let lo: u32 = v & ((1u32 << lbits) - 1);
    let high: u32 = v >> lbits;
    proof {
        vstd::bits::lemma_u32_shr_is_div(word, pos & 7);
        vstd::bits::lemma_u32_shr_is_div(v, lbits);
        vstd::bits::lemma_u32_low_bits_mask_is_mod(v, lbits as nat);
        assert(high & 3 == high % 4) by (bit_vector);
        vstd::arithmetic::div_mod::lemma_mod_bound(v as int, power2::pow2(lbits as nat) as int);
    }
    let kind: u8 = (high & 3) as u8;
    Ok((lo, kind))
}

/// An entry that was packed is the entry that is taken out, whatever stands in the bits below and
/// above it.
pub proof fn law_packed_entry(
    pack: Seq<u8>,
    pos: int,
    lbits: nat,
    below: int,
    lo: u32,
    kind: u8,
    above: int,
)
    requires
        0 <= pos,
        0 <= below < power2::pow2((pos % 8) as nat),
        lo < power2::pow2(lbits),
        kind < 4,
        0 <= above,
        bytes::le32(pack, pos / 8) == below + (lo + (kind + above * 4) * power2::pow2(lbits))
            * power2::pow2((pos % 8) as nat),
    ensures
        packed_entry(pack, pos, lbits) == (lo, kind),
{
    let unit = power2::pow2((pos % 8) as nat) as int;
    let size = power2::pow2(lbits) as int;
    let v = lo + (kind + above * 4) * size;
    power2::lemma_pow2_pos((pos % 8) as nat);
    power2::lemma_pow2_pos(lbits);
    vstd::arithmetic::div_mod::lemma_fundamental_div_mod_converse(
        bytes::le32(pack, pos / 8) as int,
        unit,
        v,
        below,
    );
    vstd::arithmetic::div_mod::lemma_fundamental_div_mod_converse(
        v,
        size,
        kind + above * 4,
        lo as int,
    );
}

/// How far ahead of entry `i` the next head is, with `d1` entries counted already. Entries are
/// `encodebits` bits apart. The last entry of a region says itself how far it is from there on,
/// unless it is a count of blocks.
pub open spec fn la_distance(
    pack: Seq<u8>,
    encodebits: int,
    lbits: nat,
    vcnt: int,
    i: int,
    d1: int,
) -> PosixResult<u16>
    decreases vcnt - i,
{
    let (lo, kind) = packed_entry(pack, encodebits * i, lbits);
    if (encodebits * i) / 8 + 4 > pack.len() {
        Err(Errno::EUCLEAN)
    } else if kind != LCLUSTER_TYPE_NONHEAD {
        Ok((d1 % 0x1_0000) as u16)
    } else if i + 1 < vcnt {
        la_distance(pack, encodebits, lbits, vcnt, i + 1, d1 + 1)
    } else if lo & LI_D0_CBLKCNT as u32 != 0 {
        Ok(((d1 + 1) % 0x1_0000) as u16)
    } else if lo == 0 || d1 + lo > u32::MAX {
        Err(Errno::EUCLEAN)
    } else {
        Ok(((d1 + lo) % 0x1_0000) as u16)
    }
}

/// How far ahead of the entry `start` the next head is.
pub fn compact_la_distance(
    pack: &[u8],
    encodebits: u32,
    lbits: u32,
    vcnt: usize,
    start: usize,
) -> (r: PosixResult<u16>)
    requires
        lbits < 32,
        vcnt <= u32::MAX,
        start < u32::MAX,
        encodebits * vcnt <= u32::MAX,
        encodebits * start <= u32::MAX,
    ensures
        r == la_distance(pack@, encodebits as int, lbits as nat, vcnt as int, start as int, 0),
{
    let mut d1: u32 = 0;
    let mut i: usize = start;
    loop
        invariant
            lbits < 32,
            vcnt <= u32::MAX,
            start <= i < u32::MAX,
            d1 == i - start,
            encodebits * vcnt <= u32::MAX,
            encodebits * i <= u32::MAX,
            la_distance(pack@, encodebits as int, lbits as nat, vcnt as int, start as int, 0)
                == la_distance(
                pack@,
                encodebits as int,
                lbits as nat,
                vcnt as int,
                i as int,
                d1 as int,
            ),
        decreases vcnt - i,
    {
        let (lo, kind) = decode_compactedbits(pack, encodebits * (i as u32), lbits)?;
        if kind != LCLUSTER_TYPE_NONHEAD {
            assert(d1 as u16 == d1 % 0x1_0000) by (bit_vector);
            return Ok(#[verifier::truncate] (d1 as u16));
        }
        if i + 1 >= vcnt {
            let d: u32 = if lo & LI_D0_CBLKCNT as u32 != 0 {
                d1 + 1
            } else {
                if lo == 0 {
                    return Err(Errno::EUCLEAN);
                }
                match d1.checked_add(lo) {
                    Some(sum) => sum,
                    None => {
                        return Err(Errno::EUCLEAN);
                    },
                }
            };
            assert(d as u16 == d % 0x1_0000) by (bit_vector);
            return Ok(#[verifier::truncate] (d as u16));
        }
        d1 = d1 + 1;
        i = i + 1;
        assert(encodebits * i <= encodebits * vcnt) by (nonlinear_arith)
            requires
                i <= vcnt,
                0 <= encodebits,
        ;
    }
}

/// A region of packed entries.
pub struct Region {
    /// Its bytes. The last four are a block number.
    pub bytes: Seq<u8>,
    /// How many bits the entries are apart.
    pub encodebits: int,
    /// How many bits of an entry are a place or a distance.
    pub lbits: nat,
    /// How many entries there are.
    pub vcnt: int,
    /// Whether physical clusters may take several blocks.
    pub big_pcluster: bool,
}

impl Region {
    /// Entry `i` of the region.
    pub open spec fn entry(self, i: int) -> (u32, u8) {
        packed_entry(self.bytes, self.encodebits * i, self.lbits)
    }

    /// How many blocks the physical clusters of the heads before entry `j` take, with `nblk`
    /// counted already. Without big physical clusters each head counts as one block, and a
    /// non-head leads back to its head. With them a non-head either holds the count of blocks of
    /// the head before it or is at least two entries away from its head.
    pub open spec fn blocks_before(self, j: int, nblk: int) -> PosixResult<int>
        decreases bytes::greatest(j, 0),
    {
        if j <= 0 {
            Ok(nblk)
        } else {
            let (lo, kind) = self.entry(j - 1);
            if self.big_pcluster {
                if kind != LCLUSTER_TYPE_NONHEAD {
                    self.blocks_before(j - 1, nblk + 1)
                } else if lo & LI_D0_CBLKCNT as u32 != 0 {
                    self.blocks_before(j - 2, nblk + (lo & !(LI_D0_CBLKCNT as u32)))
                } else if lo <= 1 {
                    Err(Errno::EUCLEAN)
                } else {
                    self.blocks_before(j + 1 - lo, nblk)
                }
            } else {
                let head = if kind == LCLUSTER_TYPE_NONHEAD {
                    j - 1 - lo
                } else {
                    j - 1
                };
                self.blocks_before(
                    head,
                    if head >= 0 {
                        nblk + 1
                    } else {
                        nblk
                    },
                )
            }
        }
    }

    /// The block number at the end of the region.
    pub open spec fn base_pblk(self) -> u32 {
        bytes::le32(self.bytes, self.bytes.len() - 4)
    }

    /// What entry `i` says, if it is a head.
    pub open spec fn head(self, i: int) -> PosixResult<Unpacked> {
        let (lo, kind) = self.entry(i);
        match self.blocks_before(
            i,
            if self.big_pcluster {
                0
            } else {
                1
            },
        ) {
            Err(e) => Err(e),
            Ok(nblk) => Ok(
                Unpacked {
                    lcluster: LclusterView {
                        kind,
                        clusterofs: lo as u16,
                        pblk: ((self.base_pblk() + nblk) % 0x1_0000_0000) as u32,
                        ..blank()
                    },
                    compressedblks: None,
                },
            ),
        }
    }

    /// How far before the last entry its head is. The last entry does not say so itself: it is
    /// one further than the entry before it says.
    pub open spec fn last_delta0(self) -> int {
        let (lo, kind) = self.entry(self.vcnt - 2);
        if kind != LCLUSTER_TYPE_NONHEAD {
            1
        } else if lo & LI_D0_CBLKCNT as u32 != 0 {
            2
        } else {
            lo + 1
        }
    }

    /// What entry `i` says, if it is a non-head. How far ahead the next head is is of interest
    /// for `lookahead` only.
    pub open spec fn nonhead(self, i: int, lookahead: bool) -> PosixResult<Unpacked> {
        let (lo, kind) = self.entry(i);
        let ahead = if lookahead {
            la_distance(self.bytes, self.encodebits, self.lbits, self.vcnt, i, 0)
        } else {
            Ok(0)
        };
        match ahead {
            Err(e) => Err(e),
            Ok(delta1) => {
                let lcluster = LclusterView {
                    kind,
                    clusterofs: power2::pow2(self.lbits) as u16,
                    delta1,
                    ..blank()
                };
                if lo & LI_D0_CBLKCNT as u32 == 0 {
                    Ok(
                        Unpacked {
                            lcluster: LclusterView {
                                delta0: if i + 1 != self.vcnt {
                                    lo as u16
                                } else {
                                    self.last_delta0() as u16
                                },
                                ..lcluster
                            },
                            compressedblks: None,
                        },
                    )
                } else if !self.big_pcluster || lo & !(LI_D0_CBLKCNT as u32) == 0 {
                    Err(Errno::EUCLEAN)
                } else {
                    Ok(
                        Unpacked {
                            lcluster: LclusterView { delta0: 1, ..lcluster },
                            compressedblks: Some(lo & !(LI_D0_CBLKCNT as u32)),
                        },
                    )
                }
            },
        }
    }

    /// What entry `i` says.
    pub open spec fn unpacked(self, i: int, lookahead: bool) -> PosixResult<Unpacked> {
        if self.entry(i).1 == LCLUSTER_TYPE_NONHEAD {
            self.nonhead(i, lookahead)
        } else {
            self.head(i)
        }
    }
}

/// An entry out of a packed region, and the count of compressed blocks if it holds one.
pub struct Unpacked {
    pub lcluster: LclusterView,
    pub compressedblks: Option<u32>,
}

/// How many entries a packed region has: two of four bytes each, or sixteen of two bytes each in
/// clusters of 4 KiB. Nothing else is supported.
pub open spec fn entries_per_region(shift: u32, lbits: u8) -> Option<int> {
    if shift == 2 && lbits <= 14 {
        Some(2)
    } else if shift == 1 && lbits == 12 {
        Some(16)
    } else {
        None
    }
}

/// What the entry at `pos` says, where `pack` is the block that it stands in and an entry takes
/// `1 << shift` bytes.
pub open spec fn unpacked_at(
    blksz: int,
    info: ZInfo,
    pack: Seq<u8>,
    shift: u32,
    pos: Off,
    lookahead: bool,
) -> PosixResult<Unpacked> {
    match entries_per_region(shift, info.logical_clusterbits) {
        None => Err(Errno::EOPNOTSUPP),
        Some(vcnt) => {
            // An entry of four bytes leaves sixteen bits to each of two entries, one of two bytes
            // fourteen bits to each of sixteen entries: four bytes of a region are a block number.
            let (entry_bytes, region_bytes, encodebits): (int, int, int) = if shift == 2 {
                (4, 8, 16)
            } else {
                (2, 32, 14)
            };
            let eofs = pos as int % blksz;
            let base = eofs - eofs % region_bytes;
            if base + region_bytes > pack.len() {
                Err(Errno::EUCLEAN)
            } else {
                let region = Region {
                    bytes: pack.subrange(base, base + region_bytes),
                    encodebits,
                    lbits: info.logical_clusterbits as nat,
                    vcnt,
                    big_pcluster: info.advise & ADVISE_BIG_PCLUSTER_1 != 0,
                };
                region.unpacked((eofs - base) / entry_bytes, lookahead)
            }
        },
    }
}

/// What the search for an extent depends on.
pub struct MapContext {
    pub sb: SuperBlock,
    pub image: Image,
    pub inode: InodeInfo,
    pub nid: Nid,
    pub info: ZInfo,
}

/// How far the search for an extent has come.
#[verifier::ext_equal]
pub struct MapState {
    /// The logical cluster that was loaded last.
    pub lcn: u64,
    /// Its index entry.
    pub cur: LclusterView,
    /// The type of the extent's head.
    pub head: u8,
    /// Whether a partial reference was met.
    pub partial_ref: bool,
    /// The last count of compressed blocks.
    pub compressedblks: Blk,
}

/// The search for an extent of a compressed inode.
pub struct Mapper<'a, B: Backend + ?Sized, I: Inode> {
    sb: &'a SuperBlock,
    backend: &'a B,
    inode: &'a I,
    info: ZInodeInfo,
    lcn: u64,
    cur: Lcluster,
    head: u8,
    partial_ref: bool,
    compressedblks: Blk,
}

impl<'a, B: Backend + ?Sized, I: Inode> Mapper<'a, B, I> {
    /// What the search depends on.
    pub closed spec fn context(&self) -> MapContext {
        MapContext {
            sb: *self.sb,
            image: self.backend.image(),
            inode: self.inode.spec_info(),
            nid: self.inode.spec_nid(),
            info: self.info@,
        }
    }

    /// How far the search has come.
    pub closed spec fn state(&self) -> MapState {
        MapState {
            lcn: self.lcn,
            cur: self.cur@,
            head: self.head,
            partial_ref: self.partial_ref,
            compressedblks: self.compressedblks,
        }
    }

    /// A logical cluster is at least a block and at most the largest that is supported.
    pub open spec fn valid(&self) -> bool {
        self.context().valid()
    }

    /// A search that has not begun.
    pub fn new(sb: &'a SuperBlock, backend: &'a B, inode: &'a I, info: ZInodeInfo) -> (r: Self)
        ensures
            r.context() == (MapContext {
                sb: *sb,
                image: backend.image(),
                inode: inode.spec_info(),
                nid: inode.spec_nid(),
                info: info@,
            }),
            r.state() == (MapState {
                lcn: 0,
                cur: blank(),
                head: LCLUSTER_TYPE_HEAD1,
                partial_ref: false,
                compressedblks: 0,
            }),
    {
        Mapper {
            sb,
            backend,
            inode,
            info,
            lcn: 0,
            cur: Lcluster::default(),
            head: LCLUSTER_TYPE_HEAD1,
            partial_ref: false,
            compressedblks: 0,
        }
    }
}

/// The entries of a region are small enough to count with.
proof fn lemma_entry_bound(pack: Seq<u8>, pos: int, lbits: nat)
    requires
        lbits <= 14,
        0 <= pos,
    ensures
        packed_entry(pack, pos, lbits).0 < 0x4000,
        packed_entry(pack, pos, lbits).1 < 4,
        power2::pow2(lbits) <= 0x4000,
        packed_entry(pack, pos, lbits).0 < power2::pow2(lbits),
{
    power2::lemma2_to64();
    power2::lemma_pow2_pos(lbits);
    power2::lemma_pow2_pos((pos % 8) as nat);
    if lbits < 14 {
        power2::lemma_pow2_strictly_increases(lbits, 14);
    }
    let v = bytes::le32(pack, pos / 8) as int / power2::pow2((pos % 8) as nat) as int;
    vstd::arithmetic::div_mod::lemma_mod_bound(v, power2::pow2(lbits) as int);
}

impl Region {
    /// The regions that exist: two entries sixteen bits apart, or sixteen entries fourteen bits
    /// apart.
    pub open spec fn valid(self) -> bool {
        &&& self.lbits <= 14
        &&& {
            ||| self.vcnt == 2 && self.encodebits == 16 && self.bytes.len() == 8
            ||| self.vcnt == 16 && self.encodebits == 14 && self.bytes.len() == 32
        }
    }
}

/// The entries of a region lie within it.
proof fn lemma_entry_place(region: Region, i: int)
    requires
        region.valid(),
        0 <= i < region.vcnt,
    ensures
        0 <= region.encodebits * i <= 0xff,
        region.encodebits * i / 8 + 4 <= region.bytes.len(),
{
    let bits = region.encodebits;
    if region.vcnt == 2 {
        assert(bits * i == 16 * i) by (nonlinear_arith)
            requires
                bits == 16,
        ;
    } else {
        assert(bits * i == 14 * i) by (nonlinear_arith)
            requires
                bits == 14,
        ;
    }
}

/// The entries of a region lie within it and are small enough to count with.
pub proof fn lemma_region_entry_bound(region: Region, i: int)
    requires
        region.valid(),
        0 <= i < region.vcnt,
    ensures
        region.encodebits * i / 8 + 4 <= region.bytes.len(),
        region.entry(i).0 < power2::pow2(region.lbits) <= 0x4000,
        region.entry(i).1 < 4,
{
    lemma_entry_place(region, i);
    lemma_entry_bound(region.bytes, region.encodebits * i, region.lbits);
}

/// The region that machine words describe.
pub open spec fn region_of(
    pack: Seq<u8>,
    encodebits: u32,
    lbits: u32,
    vcnt: usize,
    big_pcluster: bool,
) -> Region {
    Region {
        bytes: pack,
        encodebits: encodebits as int,
        lbits: lbits as nat,
        vcnt: vcnt as int,
        big_pcluster,
    }
}

/// Counts the blocks of the heads before entry `i` of a region.
fn count_blocks_before(
    pack: &[u8],
    encodebits: u32,
    lbits: u32,
    vcnt: usize,
    big_pcluster: bool,
    i: usize,
) -> (r: PosixResult<u32>)
    requires
        region_of(pack@, encodebits, lbits, vcnt, big_pcluster).valid(),
        i < vcnt,
    ensures
        match region_of(pack@, encodebits, lbits, vcnt, big_pcluster).blocks_before(
            i as int,
            if big_pcluster {
                0
            } else {
                1
            },
        ) {
            Ok(nblk) => r == Ok::<u32, Errno>(nblk as u32) && 0 <= nblk <= u32::MAX,
            Err(e) => r == Err::<u32, Errno>(e),
        },
{
    let mut nblk: u32 = if big_pcluster {
        0
    } else {
        1
    };
    let ghost region = region_of(pack@, encodebits, lbits, vcnt, big_pcluster);
    let ghost first: int = if big_pcluster {
        0
    } else {
        1
    };
    let mut j: i64 = i as i64;
    while j > 0
        invariant
            region.valid(),
            region == region_of(pack@, encodebits, lbits, vcnt, big_pcluster),
            first == if big_pcluster {
                0int
            } else {
                1
            },
            i < vcnt,
            -0x4000 <= j <= i,
            nblk <= 1 + 0x4000 * (i - j),
            region.blocks_before(i as int, first) == region.blocks_before(j as int, nblk as int),
        decreases bytes::greatest(j as int, 0),
    {
        j = j - 1;
        proof {
            lemma_entry_place(region, j as int);
        }
        let (lo, kind) = decode_compactedbits(pack, encodebits * (j as u32), lbits)?;
        proof {
            lemma_entry_bound(pack@, region.encodebits * j, region.lbits);
            assert(lo & !(0x800u32) <= lo) by (bit_vector);
        }
        if big_pcluster {
            if kind != LCLUSTER_TYPE_NONHEAD {
                nblk = nblk + 1;
            } else if lo & LI_D0_CBLKCNT as u32 != 0 {
                j = j - 1;
                nblk = nblk + (lo & !(LI_D0_CBLKCNT as u32));
            } else if lo <= 1 {
                return Err(Errno::EUCLEAN);
            } else {
                j = j - (lo as i64 - 2);
            }
        } else {
            if kind == LCLUSTER_TYPE_NONHEAD {
                j = j - lo as i64;
            }
            if j >= 0 {
                nblk = nblk + 1;
            }
        }
    }
    Ok(nblk)
}

/// How an entry out of a region is handed on.
pub open spec fn hands_on(
    r: PosixResult<(Lcluster, Option<u32>)>,
    u: PosixResult<Unpacked>,
) -> bool {
    match u {
        Ok(u) => r matches Ok((lc, cblks)) && lc@ == u.lcluster && cblks == u.compressedblks,
        Err(e) => r == Err::<(Lcluster, Option<u32>), Errno>(e),
    }
}

/// Decodes entry `i` of a region, which is a head.
fn unpack_head(
    pack: &[u8],
    encodebits: u32,
    lbits: u32,
    vcnt: usize,
    big_pcluster: bool,
    i: usize,
    lo: u32,
    kind: u8,
) -> (r: PosixResult<(Lcluster, Option<u32>)>)
    requires
        region_of(pack@, encodebits, lbits, vcnt, big_pcluster).valid(),
        i < vcnt,
        (lo, kind) == region_of(pack@, encodebits, lbits, vcnt, big_pcluster).entry(i as int),
    ensures
        hands_on(r, region_of(pack@, encodebits, lbits, vcnt, big_pcluster).head(i as int)),
{
    proof {
        lemma_entry_bound(pack@, encodebits * i, lbits as nat);
    }
    let base_pblk: u32 = bytes::read_le32(pack, pack.len() - 4);
    let nblk: u32 = count_blocks_before(pack, encodebits, lbits, vcnt, big_pcluster, i)?;
    let lc = Lcluster {
        kind,
        clusterofs: lo as u16,
        delta: [0, 0],
        pblk: base_pblk.wrapping_add(nblk),
    };
    Ok((lc, None))
}

/// Decodes entry `i` of a region, which is a non-head.
fn unpack_nonhead(
    pack: &[u8],
    encodebits: u32,
    lbits: u32,
    vcnt: usize,
    big_pcluster: bool,
    i: usize,
    lo: u32,
    kind: u8,
    lookahead: bool,
) -> (r: PosixResult<(Lcluster, Option<u32>)>)
    requires
        region_of(pack@, encodebits, lbits, vcnt, big_pcluster).valid(),
        i < vcnt,
        (lo, kind) == region_of(pack@, encodebits, lbits, vcnt, big_pcluster).entry(i as int),
    ensures
        hands_on(
            r,
            region_of(pack@, encodebits, lbits, vcnt, big_pcluster).nonhead(i as int, lookahead),
        ),
{
    proof {
        lemma_entry_bound(pack@, encodebits * i, lbits as nat);
        vstd::bits::lemma_u16_shl_is_mul(1, lbits as u16);
    }
    let clusterofs: u16 = 1u16 << lbits;
    let ahead: u16 = if lookahead {
        compact_la_distance(pack, encodebits, lbits, vcnt, i)?
    } else {
        0
    };
    if lo & LI_D0_CBLKCNT as u32 != 0 {
        let cblks: u32 = lo & !(LI_D0_CBLKCNT as u32);
        if !big_pcluster || cblks == 0 {
            return Err(Errno::EUCLEAN);
        }
        return Ok((Lcluster { kind, clusterofs, delta: [1, ahead], pblk: 0 }, Some(cblks)));
    }
    let delta0: u16 = if i + 1 != vcnt {
        lo as u16
    } else {
        proof {
            lemma_entry_place(region_of(pack@, encodebits, lbits, vcnt, big_pcluster), i - 1);
        }
        let (prev_lo, prev_kind) = decode_compactedbits(pack, encodebits * (i as u32 - 1), lbits)?;
        proof {
            lemma_entry_bound(pack@, encodebits * (i - 1), lbits as nat);
        }
        if prev_kind != LCLUSTER_TYPE_NONHEAD {
            1
        } else if prev_lo & LI_D0_CBLKCNT as u32 != 0 {
            2
        } else {
            (prev_lo + 1) as u16
        }
    };
    Ok((Lcluster { kind, clusterofs, delta: [delta0, ahead], pblk: 0 }, None))
}

impl<'a, B: Backend + ?Sized, I: Inode> Mapper<'a, B, I> {
    /// Decodes the entry at `pos`, where `pack` is the block that it stands in, and keeps the
    /// count of compressed blocks if the entry holds one.
    pub fn unpack_compact(
        &mut self,
        pack: &[u8],
        amortizedshift: u32,
        pos: Off,
        lookahead: bool,
    ) -> (r: PosixResult<Lcluster>)
        requires
            old(self).context().sb.blkszbits < 64,
        ensures
            final(self).context() == old(self).context(),
            match unpacked_at(
                old(self).context().sb.spec_blksz(),
                old(self).context().info,
                pack@,
                amortizedshift,
                pos,
                lookahead,
            ) {
                Ok(u) => {
                    &&& r matches Ok(lc)
                    &&& lc@ == u.lcluster
                    &&& final(self).state() == (MapState {
                        compressedblks: match u.compressedblks {
                            Some(n) => n,
                            None => old(self).state().compressedblks,
                        },
                        ..old(self).state()
                    })
                },
                Err(e) => r == Err::<Lcluster, Errno>(e) && final(self).state() == old(
                    self,
                ).state(),
            },
    {
        let lbits: u32 = self.info.logical_clusterbits as u32;
        let vcnt: usize = if amortizedshift == 2 && lbits <= 14 {
            2
        } else if amortizedshift == 1 && lbits == 12 {
            16
        } else {
            return Err(Errno::EOPNOTSUPP);
        };
        let (pack_bytes, encodebits): (usize, u32) = if amortizedshift == 2 {
            (8, 16)
        } else {
            (32, 14)
        };
        let off: Off = self.sb.blk_access(pos).off;
        proof {
            superblock::lemma_block_split(pos, self.sb.blkszbits);
        }
        let start: Off = off - off % pack_bytes as Off;
        if start + pack_bytes as Off > pack.len() as Off {
            return Err(Errno::EUCLEAN);
        }
        let eofs: usize = off as usize;
        let base: usize = start as usize;
        let region_bytes: &[u8] = &pack[base..base + pack_bytes];
        let i: usize = if amortizedshift == 2 {
            (eofs - base) / 4
        } else {
            (eofs - base) / 2
        };
        assert(i < vcnt) by {
            if amortizedshift == 2 {
                assert(eofs - base == eofs as int % 8);
            } else {
                assert(eofs - base == eofs as int % 32);
            }
        }
        let big_pcluster: bool = self.info.advise & ADVISE_BIG_PCLUSTER_1 != 0;
        let ghost region = region_of(region_bytes@, encodebits, lbits, vcnt, big_pcluster);
        assert(unpacked_at(
            self.context().sb.spec_blksz(),
            self.context().info,
            pack@,
            amortizedshift,
            pos,
            lookahead,
        ) == region.unpacked(i as int, lookahead));
        proof {
            lemma_entry_place(region, i as int);
        }
        let (lo, kind) = decode_compactedbits(region_bytes, encodebits * (i as u32), lbits)?;
        let (lc, cblks) = if kind == LCLUSTER_TYPE_NONHEAD {
            unpack_nonhead(
                region_bytes,
                encodebits,
                lbits,
                vcnt,
                big_pcluster,
                i,
                lo,
                kind,
                lookahead,
            )?
        } else {
            unpack_head(region_bytes, encodebits, lbits, vcnt, big_pcluster, i, lo, kind)?
        };
        if let Some(n) = cblks {
            self.compressedblks = n;
        }
        Ok(lc)
    }
}

/// Where the map header of an inode stands: behind the inode and its attributes, on a multiple of
/// eight.
pub open spec fn header_pos(sb: SuperBlock, inode: InodeInfo, nid: Nid) -> int {
    aligned_8(
        bytes::least(
            sb.spec_iloc(nid) + inode.spec_inode_size() + inode.spec_xattr_size(),
            u64::MAX as int,
        ),
    )
}

/// How loading an entry ends: the search goes on from the state, or has failed.
pub type Loaded = (MapState, PosixResult<()>);

impl MapContext {
    /// How many logical clusters the file has.
    pub open spec fn totalidx(self) -> int {
        bytes::least(
            self.inode.spec_file_size() + self.sb.spec_blksz() - 1,
            u64::MAX as int,
        ) / self.sb.spec_blksz()
    }

    /// Where the compact index stands.
    pub open spec fn index_base(self) -> int {
        bytes::least(
            header_pos(self.sb, self.inode, self.nid) + MAP_HEADER_SIZE,
            u64::MAX as int,
        )
    }

    /// Where the full index stands.
    pub open spec fn full_index_base(self) -> int {
        bytes::least(self.index_base() + 8, u64::MAX as int)
    }

    /// The size of a logical cluster.
    pub open spec fn cluster_size(self) -> int {
        superblock::block_size(self.info.logical_clusterbits)
    }

    /// The full entry `b` of cluster `lcn`. A partial reference is noted even if the entry turns
    /// out to be corrupt.
    pub open spec fn full_entry(self, st: MapState, lcn: u64, b: Seq<u8>) -> Loaded {
        let advise = bytes::le16(b, 0);
        let kind = (advise & 0x3) as u8;
        if kind == LCLUSTER_TYPE_NONHEAD {
            let d0 = bytes::le16(b, 4);
            let cur = LclusterView {
                kind,
                clusterofs: self.cluster_size() as u16,
                delta0: d0,
                delta1: bytes::le16(b, 6),
                pblk: 0,
            };
            if d0 & LI_D0_CBLKCNT == 0 {
                (MapState { lcn, cur, ..st }, Ok(()))
            } else if self.info.advise & (ADVISE_BIG_PCLUSTER_1 | ADVISE_BIG_PCLUSTER_2) == 0 {
                (st, Err(Errno::EUCLEAN))
            } else {
                (
                    MapState {
                        lcn,
                        cur: LclusterView { delta0: 1, ..cur },
                        compressedblks: (d0 & !LI_D0_CBLKCNT) as Blk,
                        ..st
                    },
                    Ok(()),
                )
            }
        } else {
            let noted = MapState {
                partial_ref: st.partial_ref || advise & LI_PARTIAL_REF != 0,
                ..st
            };
            if bytes::le16(b, 2) >= self.cluster_size() {
                (noted, Err(Errno::EUCLEAN))
            } else {
                (
                    MapState {
                        lcn,
                        cur: LclusterView {
                            kind,
                            clusterofs: bytes::le16(b, 2),
                            delta0: 0,
                            delta1: 0,
                            pblk: bytes::le32(b, 4),
                        },
                        ..noted
                    },
                    Ok(()),
                )
            }
        }
    }

    /// Loads the full entry of cluster `lcn`.
    pub open spec fn load_full(self, st: MapState, lcn: u64) -> Loaded {
        let pos = self.full_index_base() + lcn * 8;
        if pos > u64::MAX {
            (st, Err(Errno::EUCLEAN))
        } else {
            match (self.image)(0, pos as Off, 8) {
                Err(e) => (st, Err(e)),
                Ok(b) => if b.len() != 8 {
                    (st, Err(Errno::EUCLEAN))
                } else {
                    self.full_entry(st, lcn, b)
                },
            }
        }
    }

    /// How many entries of four bytes stand before the first multiple of 32 bytes.
    pub open spec fn compacted_4b_initial(self) -> int {
        (32 - self.index_base() % 32) / 4 % 8
    }

    /// How many entries of two bytes follow them: all that fill whole regions.
    pub open spec fn compacted_2b(self) -> int {
        if self.info.advise & ADVISE_COMPACTED_2B != 0 && self.compacted_4b_initial()
            < self.totalidx() {
            (self.totalidx() - self.compacted_4b_initial()) / 16 * 16
        } else {
            0
        }
    }

    /// Where the compact entry of cluster `lcn` stands in the index, and the binary logarithm of
    /// its size.
    pub open spec fn compact_place(self, lcn: u64) -> (int, u32) {
        let initial = self.compacted_4b_initial();
        let two = self.compacted_2b();
        if lcn < initial {
            (lcn * 4, 2)
        } else if lcn - initial < two {
            (initial * 4 + (lcn - initial) * 2, 1)
        } else {
            (initial * 4 + two * 2 + (lcn - initial - two) * 4, 2)
        }
    }

    /// The compact entry of cluster `lcn`, out of the block `b` that it stands in.
    pub open spec fn compact_entry(
        self,
        st: MapState,
        lcn: u64,
        lookahead: bool,
        b: Seq<u8>,
    ) -> Loaded {
        let (place, shift) = self.compact_place(lcn);
        let pos = self.index_base() + place;
        match unpacked_at(self.sb.spec_blksz(), self.info, b, shift, pos as Off, lookahead) {
            Err(e) => (st, Err(e)),
            Ok(u) => (
                MapState {
                    lcn,
                    cur: u.lcluster,
                    compressedblks: match u.compressedblks {
                        Some(n) => n,
                        None => st.compressedblks,
                    },
                    ..st
                },
                Ok(()),
            ),
        }
    }

    /// Loads the compact entry of cluster `lcn`, out of the block that it stands in.
    pub open spec fn load_compact(self, st: MapState, lcn: u64, lookahead: bool) -> Loaded {
        let pos = self.index_base() + self.compact_place(lcn).0;
        let blksz = self.sb.spec_blksz();
        if !self.compact_reads(lcn) {
            (st, Err(Errno::EUCLEAN))
        } else {
            match (self.image)(0, (pos - pos % blksz) as Off, blksz as nat) {
                Err(e) => (st, Err(e)),
                Ok(b) => if b.len() != blksz {
                    (st, Err(Errno::EUCLEAN))
                } else {
                    self.compact_entry(st, lcn, lookahead, b)
                },
            }
        }
    }

    /// Whether the compact entry of cluster `lcn` is one of the file and has a place in the
    /// address space. Then the block that it stands in is read.
    pub open spec fn compact_reads(self, lcn: u64) -> bool {
        &&& lcn < self.totalidx()
        &&& self.compacted_2b() * 2 <= u64::MAX
        &&& self.index_base() + self.compact_place(lcn).0 <= u64::MAX
    }

    /// Whether loading the entry of cluster `lcn` takes memory.
    pub open spec fn allocates(self, lcn: u64) -> bool {
        self.inode.spec_layout() == Layout::CompressedCompact && self.compact_reads(lcn)
    }

    /// Loads the entry of cluster `lcn`.
    #[verifier::opaque]
    pub open spec fn load(self, st: MapState, lcn: u64, lookahead: bool) -> Loaded {
        if self.inode.spec_layout() == Layout::CompressedFull {
            self.load_full(st, lcn)
        } else if self.inode.spec_layout() == Layout::CompressedCompact {
            self.load_compact(st, lcn, lookahead)
        } else {
            (st, Err(Errno::EINVAL))
        }
    }
}

impl<'a, B: Backend + ?Sized, I: Inode> Mapper<'a, B, I> {
    /// How many logical clusters the file has.
    fn totalidx(&self) -> (r: u64)
        requires
            self.valid(),
        ensures
            r == self.context().totalidx(),
    {
        let end: u64 = self.inode.info().file_size().saturating_add(self.sb.blksz() - 1);
        proof {
            superblock::lemma_block_split(end, self.sb.blkszbits);
        }
        end >> self.sb.blkszbits
    }

    /// Where the map header stands.
    fn map_header_pos(&self) -> (r: Off)
        requires
            self.valid(),
        ensures
            r == header_pos(self.context().sb, self.context().inode, self.context().nid),
    {
        let loc: Off = self.sb.iloc(self.inode.nid());
        let info = self.inode.info();
        align_up_8(loc.saturating_add(info.inode_size()).saturating_add(info.xattr_size()))
    }

    /// Where the compact index stands.
    fn index_base(&self) -> (r: Off)
        requires
            self.valid(),
        ensures
            r == self.context().index_base(),
    {
        self.map_header_pos().saturating_add(MAP_HEADER_SIZE)
    }

    /// Where the full index stands.
    fn full_index_base(&self) -> (r: Off)
        requires
            self.valid(),
        ensures
            r == self.context().full_index_base(),
    {
        self.index_base().saturating_add(8)
    }

    /// Takes over the full entry `buf` of cluster `lcn`.
    fn take_full_entry(&mut self, lcn: u64, buf: &[u8]) -> (r: PosixResult<()>)
        requires
            old(self).valid(),
            buf@.len() == 8,
        ensures
            final(self).context() == old(self).context(),
            (final(self).state(), r) == old(self).context().full_entry(
                old(self).state(),
                lcn,
                buf@,
            ),
    {
        proof {
            superblock::lemma_block_size(self.info.logical_clusterbits);
            lemma_entry_bound(buf@, 0, self.info.logical_clusterbits as nat);
            vstd::bits::lemma_u16_shl_is_mul(1, self.info.logical_clusterbits as u16);
        }
        let advise: u16 = bytes::read_le16(buf, 0);
        assert(advise & 0x3 < 4) by (bit_vector);
        let kind: u8 = (advise & 0x3) as u8;
        let size: u16 = 1u16 << self.info.logical_clusterbits;
        if kind == LCLUSTER_TYPE_NONHEAD {
            let mut d0: u16 = bytes::read_le16(buf, 4);
            let d1: u16 = bytes::read_le16(buf, 6);
            if d0 & LI_D0_CBLKCNT != 0 {
                if self.info.advise & (ADVISE_BIG_PCLUSTER_1 | ADVISE_BIG_PCLUSTER_2) == 0 {
                    return Err(Errno::EUCLEAN);
                }
                self.compressedblks = (d0 & !LI_D0_CBLKCNT) as Blk;
                d0 = 1;
            }
            self.cur = Lcluster { kind, clusterofs: size, delta: [d0, d1], pblk: 0 };
        } else {
            if advise & LI_PARTIAL_REF != 0 {
                self.partial_ref = true;
            }
            let clusterofs: u16 = bytes::read_le16(buf, 2);
            if clusterofs >= size {
                return Err(Errno::EUCLEAN);
            }
            self.cur = Lcluster {
                kind,
                clusterofs,
                delta: [0, 0],
                pblk: bytes::read_le32(buf, 4),
            };
        }
        self.lcn = lcn;
        Ok(())
    }

    /// Loads the full entry of cluster `lcn`.
    pub fn load_full(&mut self, lcn: u64) -> (r: PosixResult<()>)
        requires
            old(self).valid(),
        ensures
            final(self).context() == old(self).context(),
            (final(self).state(), r) == old(self).context().load_full(old(self).state(), lcn),
    {
        let rel: u64 = match lcn.checked_mul(8) {
            Some(rel) => rel,
            None => {
                return Err(Errno::EUCLEAN);
            },
        };
        let pos: Off = match self.full_index_base().checked_add(rel) {
            Some(pos) => pos,
            None => {
                return Err(Errno::EUCLEAN);
            },
        };
        let mut buf: [u8; 8] = [0u8; 8];
        let n: u64 = self.backend.fill(&mut buf, 0, pos)?;
        if n != 8 {
            return Err(Errno::EUCLEAN);
        }
        proof {
            let b = (self.context().image)(0, pos, 8)->Ok_0;
            assert(buf@ =~= b);
        }
        self.take_full_entry(lcn, &buf)
    }
}

impl MapContext {
    /// Looks back for the head of the extent that the current cluster belongs to: `distance`
    /// clusters back there is either a head, or a non-head that sends the search on. `steps` is
    /// how often it was sent on already.
    pub open spec fn lookback(self, st: MapState, distance: u64, steps: int) -> Loaded
        decreases MAX_LOOKBACK_STEPS + 1 - steps,
    {
        if st.lcn < distance {
            (st, Err(Errno::EUCLEAN))
        } else {
            let (next, r) = self.load(st, (st.lcn - distance) as u64, false);
            if r is Err {
                (next, r)
            } else if next.cur.kind == LCLUSTER_TYPE_NONHEAD {
                if next.cur.delta0 == 0 || steps + 1 > MAX_LOOKBACK_STEPS {
                    (next, Err(Errno::EUCLEAN))
                } else {
                    self.lookback(next, next.cur.delta0 as u64, steps + 1)
                }
            } else if next.cur.kind == LCLUSTER_TYPE_PLAIN || next.cur.kind
                == LCLUSTER_TYPE_HEAD1 {
                (MapState { head: next.cur.kind, ..next }, Ok(()))
            } else {
                (next, Err(Errno::EOPNOTSUPP))
            }
        }
    }

    /// Whether `last` is a state that looking back comes to, with an entry to load next that takes
    /// memory.
    pub open spec fn lookback_wants_memory(
        self,
        st: MapState,
        distance: u64,
        steps: int,
        last: MapState,
    ) -> bool
        decreases MAX_LOOKBACK_STEPS + 1 - steps,
    {
        &&& st.lcn >= distance
        &&& {
            let lcn = (st.lcn - distance) as u64;
            let (next, r) = self.load(st, lcn, false);
            ||| last == st && self.allocates(lcn)
            ||| {
                &&& r is Ok
                &&& next.cur.kind == LCLUSTER_TYPE_NONHEAD
                &&& next.cur.delta0 != 0
                &&& steps + 1 <= MAX_LOOKBACK_STEPS
                &&& self.lookback_wants_memory(next, next.cur.delta0 as u64, steps + 1, last)
            }
        }
    }

    /// Whether the size of the extent's physical cluster is found only in the entry behind the
    /// head.
    pub open spec fn compressedlen_loads(self, st: MapState) -> bool {
        &&& st.head != LCLUSTER_TYPE_PLAIN
        &&& st.head == LCLUSTER_TYPE_HEAD1 ==> self.info.advise & ADVISE_BIG_PCLUSTER_1 != 0
        &&& st.compressedblks == 0
    }

    /// The size of the extent's physical cluster. It is one logical cluster, unless physical
    /// clusters may take several blocks: then the count of blocks was met on the way to the head
    /// or stands in the entry behind it. If that one starts an extent of its own, the physical
    /// cluster is as large as a logical one.
    pub open spec fn compressedlen(self, st: MapState) -> (MapState, PosixResult<int>) {
        if st.head == LCLUSTER_TYPE_PLAIN || (st.head == LCLUSTER_TYPE_HEAD1 && self.info.advise
            & ADVISE_BIG_PCLUSTER_1 == 0) {
            (st, Ok(self.cluster_size()))
        } else if st.compressedblks != 0 {
            (st, Ok(st.compressedblks * self.sb.spec_blksz()))
        } else {
            let (next, r) = self.load(st, (st.lcn + 1) as u64, false);
            match r {
                Err(e) => (next, Err(e)),
                Ok(()) => if next.cur.kind == LCLUSTER_TYPE_PLAIN || next.cur.kind
                    == LCLUSTER_TYPE_HEAD1 {
                    let blks = power2::pow2(
                        (self.info.logical_clusterbits - self.sb.blkszbits) as nat,
                    );
                    (
                        MapState { compressedblks: blks as Blk, ..next },
                        Ok(blks * self.sb.spec_blksz()),
                    )
                } else if next.cur.kind == LCLUSTER_TYPE_NONHEAD && next.cur.delta0 == 1
                    && next.compressedblks != 0 {
                    (next, Ok(next.compressedblks * self.sb.spec_blksz()))
                } else {
                    (next, Err(Errno::EUCLEAN))
                },
            }
        }
    }
}

impl<'a, B: Backend + ?Sized, I: Inode> Mapper<'a, B, I> {
    /// Where the compact entry of cluster `lcn` stands, and the binary logarithm of its size. A
    /// place beyond the address space is an error, so that it cannot come to lie on another block.
    fn compact_place(&self, lcn: u64) -> (r: PosixResult<(Off, u32)>)
        requires
            self.valid(),
        ensures
            ({
                let (place, shift) = self.context().compact_place(lcn);
                let pos = self.context().index_base() + place;
                r == if self.context().compact_reads(lcn) {
                    Ok::<(Off, u32), Errno>((pos as Off, shift))
                } else {
                    Err::<(Off, u32), Errno>(Errno::EUCLEAN)
                }
            }),
    {
        let totalidx: u64 = self.totalidx();
        if lcn >= totalidx {
            return Err(Errno::EUCLEAN);
        }
        let ebase: Off = self.index_base();
        let mut initial: u64 = (32 - ebase % 32) / 4;
        if initial == 8 {
            initial = 0;
        }
        let two: u64 = if self.info.advise & ADVISE_COMPACTED_2B != 0 && initial < totalidx {
            (totalidx - initial) / 16 * 16
        } else {
            0
        };
        assert(initial == self.context().compacted_4b_initial());
        assert(two == self.context().compacted_2b());
        let two_bytes: u64 = match two.checked_mul(2) {
            Some(n) => n,
            None => {
                return Err(Errno::EUCLEAN);
            },
        };
        let (rel, behind, shift): (u64, u64, u32) = if lcn < initial {
            (lcn, 0, 2)
        } else if lcn - initial < two {
            (lcn - initial, initial * 4, 1)
        } else {
            match two_bytes.checked_add(initial * 4) {
                Some(behind) => (lcn - initial - two, behind, 2),
                None => {
                    return Err(Errno::EUCLEAN);
                },
            }
        };
        let rel_bytes: u64 = match if shift == 2 {
            rel.checked_mul(4)
        } else {
            rel.checked_mul(2)
        } {
            Some(n) => n,
            None => {
                return Err(Errno::EUCLEAN);
            },
        };
        let idx_off: u64 = match behind.checked_add(rel_bytes) {
            Some(n) => n,
            None => {
                return Err(Errno::EUCLEAN);
            },
        };
        let pos: Off = match ebase.checked_add(idx_off) {
            Some(pos) => pos,
            None => {
                return Err(Errno::EUCLEAN);
            },
        };
        Ok((pos, shift))
    }

    /// Takes over the compact entry of cluster `lcn` out of what a device delivered when it was
    /// asked for the block that the entry stands in: `delivered` is its answer, and `buf` the room
    /// that it had. A failure is handed on, and a block that is not there as a whole is corrupt.
    pub fn take_compact_entry(
        &mut self,
        lcn: u64,
        lookahead: bool,
        buf: &[u8],
        delivered: PosixResult<u64>,
    ) -> (r: PosixResult<()>)
        requires
            old(self).valid(),
        ensures
            final(self).context() == old(self).context(),
            (final(self).state(), r) == match delivered {
                Err(e) => (old(self).state(), Err::<(), Errno>(e)),
                Ok(n) => if n != old(self).context().sb.spec_blksz() || !old(
                    self,
                ).context().compact_reads(lcn) {
                    (old(self).state(), Err(Errno::EUCLEAN))
                } else {
                    old(self).context().compact_entry(old(self).state(), lcn, lookahead, buf@)
                },
            },
    {
        let n: u64 = delivered?;
        if n != self.sb.blksz() {
            return Err(Errno::EUCLEAN);
        }
        let (pos, shift) = self.compact_place(lcn)?;
        let cur: Lcluster = self.unpack_compact(buf, shift, pos, lookahead)?;
        self.cur = cur;
        self.lcn = lcn;
        Ok(())
    }

    /// Loads the compact entry of cluster `lcn`. The block that it stands in is read into memory,
    /// and where there is none, that is the answer.
    pub fn load_compact(&mut self, lcn: u64, lookahead: bool) -> (r: PosixResult<()>)
        requires
            old(self).valid(),
        ensures
            final(self).context() == old(self).context(),
            ({
                ||| (final(self).state(), r) == old(self).context().load_compact(
                    old(self).state(),
                    lcn,
                    lookahead,
                )
                ||| {
                    &&& old(self).context().compact_reads(lcn)
                    &&& r == Err::<(), Errno>(Errno::ENOMEM)
                    &&& alloc_helper::memory_refused()
                    &&& final(self).state() == old(self).state()
                }
            }),
    {
        let (pos, _) = self.compact_place(lcn)?;
        let blksz: Off = self.sb.blksz();
        let mut buf: Vec<u8> = alloc_helper::zeroed(blksz as usize)?;
        let base: Off = self.sb.blk_access(pos).base;
        let delivered = self.backend.fill(buf.as_mut_slice(), 0, base);
        proof {
            if delivered == Ok::<u64, Errno>(blksz) {
                let b = (self.context().image)(0, base, blksz as nat)->Ok_0;
                assert(buf@ =~= b);
            }
        }
        self.take_compact_entry(lcn, lookahead, buf.as_slice(), delivered)
    }

    /// Loads the entry of cluster `lcn`.
    pub fn load(&mut self, lcn: u64, lookahead: bool) -> (r: PosixResult<()>)
        requires
            old(self).valid(),
        ensures
            final(self).context() == old(self).context(),
            ({
                ||| (final(self).state(), r) == old(self).context().load(
                    old(self).state(),
                    lcn,
                    lookahead,
                )
                ||| {
                    &&& old(self).context().allocates(lcn)
                    &&& r == Err::<(), Errno>(Errno::ENOMEM)
                    &&& alloc_helper::memory_refused()
                    &&& final(self).state() == old(self).state()
                }
            }),
    {
        proof {
            reveal(MapContext::load);
        }
        match self.inode.info().format().layout() {
            Layout::CompressedFull => self.load_full(lcn),
            Layout::CompressedCompact => self.load_compact(lcn, lookahead),
            _ => Err(Errno::EINVAL),
        }
    }

    /// Looks back for the head of the extent that the current cluster belongs to. Where there is no
    /// memory to load an entry, the search stays where it is.
    pub fn lookback(&mut self, distance: u64) -> (r: PosixResult<()>)
        requires
            old(self).valid(),
        ensures
            final(self).context() == old(self).context(),
            ({
                ||| (final(self).state(), r) == old(self).context().lookback(
                    old(self).state(),
                    distance,
                    0,
                )
                ||| {
                    &&& r == Err::<(), Errno>(Errno::ENOMEM)
                    &&& alloc_helper::memory_refused()
                    &&& old(self).context().lookback_wants_memory(
                        old(self).state(),
                        distance,
                        0,
                        final(self).state(),
                    )
                }
            }),
    {
        let mut back: u64 = distance;
        let mut steps: u32 = 0;
        while self.lcn >= back
            invariant
                self.valid(),
                self.context() == old(self).context(),
                steps <= MAX_LOOKBACK_STEPS,
                self.context().lookback(old(self).state(), distance, 0) == self.context().lookback(
                    self.state(),
                    back,
                    steps as int,
                ),
                forall|last: MapState| #[trigger]
                    self.context().lookback_wants_memory(self.state(), back, steps as int, last)
                        ==> self.context().lookback_wants_memory(
                        old(self).state(),
                        distance,
                        0,
                        last,
                    ),
            decreases MAX_LOOKBACK_STEPS + 1 - steps,
        {
            let lcn: u64 = self.lcn - back;
            let ghost (before, came) = (self.state(), back);
            assert(self.context().allocates(lcn) ==> self.context().lookback_wants_memory(
                self.state(),
                back,
                steps as int,
                self.state(),
            ));
            self.load(lcn, false)?;
            if self.cur.kind == LCLUSTER_TYPE_NONHEAD {
                back = self.cur.delta[0] as u64;
                if back == 0 {
                    return Err(Errno::EUCLEAN);
                }
                steps = steps + 1;
                if steps > MAX_LOOKBACK_STEPS {
                    return Err(Errno::EUCLEAN);
                }
                assert forall|last: MapState| #[trigger]
                    self.context().lookback_wants_memory(
                        self.state(),
                        back,
                        steps as int,
                        last,
                    ) implies self.context().lookback_wants_memory(
                    before,
                    came,
                    steps - 1,
                    last,
                ) by {}
            } else if self.cur.kind == LCLUSTER_TYPE_PLAIN || self.cur.kind
                == LCLUSTER_TYPE_HEAD1 {
                self.head = self.cur.kind;
                return Ok(());
            } else {
                return Err(Errno::EOPNOTSUPP);
            }
        }
        Err(Errno::EUCLEAN)
    }
}

/// Where cluster `lcn` starts. The product is cut to 64 bits.
pub open spec fn cluster_start(lcn: u64, lbits: u8) -> u64 {
    lcn << lbits
}

/// A place in a cluster does not reach into the bits of the cluster's start.
proof fn lemma_cluster_place(lcn: u64, lbits: u8, ofs: u64)
    requires
        lbits <= 14,
        ofs < superblock::block_size(lbits),
    ensures
        cluster_start(lcn, lbits) | ofs == cluster_start(lcn, lbits) + ofs,
{
    superblock::lemma_block_size(lbits);
    assert((lcn << lbits) | ofs == (lcn << lbits) + ofs) by (bit_vector)
        requires
            lbits <= 14,
            ofs < 1u64 << lbits,
    ;
}

impl MapContext {
    /// A logical cluster is at least a block and at most the largest that is supported.
    pub open spec fn valid(self) -> bool {
        self.sb.blkszbits <= self.info.logical_clusterbits <= MAX_LOGICAL_CLUSTERBITS
    }

    /// How many entries may be visited on the way to the end of an extent.
    pub open spec fn max_steps(self) -> int {
        PCLUSTER_MAX_DSIZE as int / self.cluster_size() + 2
    }

    /// The length of the extent that starts at `la`: on to the next head, or to the end of the
    /// file if that comes first. `lcn` is the cluster that is looked at next. A head may also start
    /// behind the end of the file, in the last cluster.
    pub open spec fn decompressedlen(self, st: MapState, la: Off, lcn: u64, steps: int) -> (
        MapState,
        PosixResult<int>,
    )
        decreases self.max_steps() + 1 - steps,
    {
        let start = cluster_start(lcn, self.info.logical_clusterbits);
        let size = self.inode.spec_file_size();
        if start >= size {
            (
                st,
                if size < la {
                    Err(Errno::EUCLEAN)
                } else {
                    Ok(size - la)
                },
            )
        } else {
            let (next, r) = self.load(st, lcn, true);
            match r {
                Err(e) => (next, Err(e)),
                Ok(()) => {
                    let head = next.cur.kind == LCLUSTER_TYPE_PLAIN || next.cur.kind
                        == LCLUSTER_TYPE_HEAD1;
                    let first = lcn == la as int / self.cluster_size();
                    if !head && next.cur.kind != LCLUSTER_TYPE_NONHEAD {
                        (next, Err(Errno::EOPNOTSUPP))
                    } else if head && !first {
                        let end = bytes::least(start + next.cur.clusterofs, size as int);
                        (
                            next,
                            if end < la {
                                Err(Errno::EUCLEAN)
                            } else {
                                Ok(end - la)
                            },
                        )
                    } else {
                        let on = if head {
                            MapState { cur: LclusterView { delta1: 1, ..next.cur }, ..next }
                        } else {
                            next
                        };
                        if on.cur.delta1 == 0 || lcn + on.cur.delta1 > u64::MAX {
                            (on, Err(Errno::EUCLEAN))
                        } else if steps + 1 > self.max_steps() {
                            (on, Err(Errno::EOPNOTSUPP))
                        } else {
                            self.decompressedlen(
                                on,
                                la,
                                (lcn + on.cur.delta1) as u64,
                                steps + 1,
                            )
                        }
                    }
                },
            }
        }
    }
}

impl MapContext {
    /// Whether `last` is a state that the way to the end of an extent comes to, with an entry to
    /// load next that takes memory.
    pub open spec fn decompressedlen_wants_memory(
        self,
        st: MapState,
        la: Off,
        lcn: u64,
        steps: int,
        last: MapState,
    ) -> bool
        decreases self.max_steps() + 1 - steps,
    {
        &&& cluster_start(lcn, self.info.logical_clusterbits) < self.inode.spec_file_size()
        &&& {
            let (next, r) = self.load(st, lcn, true);
            let head = next.cur.kind == LCLUSTER_TYPE_PLAIN || next.cur.kind
                == LCLUSTER_TYPE_HEAD1;
            let on = if head {
                MapState { cur: LclusterView { delta1: 1, ..next.cur }, ..next }
            } else {
                next
            };
            ||| last == st && self.allocates(lcn)
            ||| {
                &&& r is Ok
                &&& head && lcn == la as int / self.cluster_size() || next.cur.kind
                    == LCLUSTER_TYPE_NONHEAD
                &&& on.cur.delta1 != 0
                &&& lcn + on.cur.delta1 <= u64::MAX
                &&& steps + 1 <= self.max_steps()
                &&& self.decompressedlen_wants_memory(
                    on,
                    la,
                    (lcn + on.cur.delta1) as u64,
                    steps + 1,
                    last,
                )
            }
        }
    }
}

/// A head that was loaded says where in its own cluster its data starts, and the state says which
/// cluster that is.
pub proof fn law_loaded_entry(ctx: MapContext, st: MapState, lcn: u64, lookahead: bool)
    requires
        ctx.valid(),
    ensures
        ({
            let (next, r) = ctx.load(st, lcn, lookahead);
            &&& r is Ok ==> next.lcn == lcn && next.cur.kind < 4
            &&& r is Ok && next.cur.kind != LCLUSTER_TYPE_NONHEAD ==> next.cur.clusterofs
                < ctx.cluster_size()
            &&& next.head == st.head
            &&& st.partial_ref ==> next.partial_ref
            &&& ctx.inode.spec_layout() == Layout::CompressedCompact ==> next.partial_ref
                == st.partial_ref
        }),
{
    reveal(MapContext::load);
    if ctx.inode.spec_layout() == Layout::CompressedFull {
        let pos = ctx.full_index_base() + lcn * 8;
        if let Ok(b) = (ctx.image)(0, pos as Off, 8) {
            let advise = bytes::le16(b, 0);
            assert(advise & 0x3 < 4) by (bit_vector);
        }
    } else if ctx.inode.spec_layout() == Layout::CompressedCompact {
        let (place, shift) = ctx.compact_place(lcn);
        let pos = ctx.index_base() + place;
        let blksz = ctx.sb.spec_blksz();
        superblock::lemma_block_size(ctx.sb.blkszbits);
        if let Ok(b) = (ctx.image)(0, (pos - pos % blksz) as Off, blksz as nat) {
            lemma_unpacked_bound(blksz, ctx.info, b, shift, pos as Off, lookahead);
        }
    }
}

proof fn lemma_unpacked_bound(
    blksz: int,
    info: ZInfo,
    pack: Seq<u8>,
    shift: u32,
    pos: Off,
    lookahead: bool,
)
    requires
        blksz > 0,
        info.logical_clusterbits <= 14,
    ensures
        unpacked_at(blksz, info, pack, shift, pos, lookahead) matches Ok(u) ==> {
            &&& u.lcluster.kind < 4
            &&& u.lcluster.kind != LCLUSTER_TYPE_NONHEAD ==> u.lcluster.clusterofs
                < superblock::block_size(info.logical_clusterbits)
        },
{
    if let Some(vcnt) = entries_per_region(shift, info.logical_clusterbits) {
        let (entry_bytes, region_bytes, encodebits): (int, int, int) = if shift == 2 {
            (4, 8, 16)
        } else {
            (2, 32, 14)
        };
        let eofs = pos as int % blksz;
        let base = eofs - eofs % region_bytes;
        let i = (eofs - base) / entry_bytes;
        if base + region_bytes <= pack.len() {
            let bits = pack.subrange(base, base + region_bytes);
            let region = Region {
                bytes: bits,
                encodebits,
                lbits: info.logical_clusterbits as nat,
                vcnt,
                big_pcluster: info.advise & ADVISE_BIG_PCLUSTER_1 != 0,
            };
            if shift == 2 {
                assert(i == (eofs % 8) / 4);
            } else {
                assert(i == (eofs % 32) / 2);
            }
            lemma_entry_place(region, i);
            lemma_entry_bound(bits, encodebits * i, info.logical_clusterbits as nat);
        }
    }
}

impl<'a, B: Backend + ?Sized, I: Inode> Mapper<'a, B, I> {
    /// The size of the extent's physical cluster. Where there is no memory to load the entry behind
    /// the head, the search stays where it is.
    pub fn compressedlen(&mut self) -> (r: PosixResult<Off>)
        requires
            old(self).valid(),
            old(self).state().lcn < u64::MAX,
        ensures
            final(self).context() == old(self).context(),
            ({
                let (st, len) = old(self).context().compressedlen(old(self).state());
                ||| {
                    &&& final(self).state() == st
                    &&& match len {
                        Ok(n) => r == Ok::<Off, Errno>(n as Off) && 0 <= n <= u64::MAX,
                        Err(e) => r == Err::<Off, Errno>(e),
                    }
                }
                ||| {
                    &&& old(self).context().compressedlen_loads(old(self).state())
                    &&& old(self).context().allocates((old(self).state().lcn + 1) as u64)
                    &&& r == Err::<Off, Errno>(Errno::ENOMEM)
                    &&& alloc_helper::memory_refused()
                    &&& final(self).state() == old(self).state()
                }
            }),
    {
        let lbits: u8 = self.info.logical_clusterbits;
        let blkbits: u8 = self.sb.blkszbits;
        proof {
            superblock::lemma_block_size(lbits);
            superblock::lemma_block_size(blkbits);
        }
        if self.head == LCLUSTER_TYPE_PLAIN || (self.head == LCLUSTER_TYPE_HEAD1
            && self.info.advise & ADVISE_BIG_PCLUSTER_1 == 0) {
            return Ok(1u64 << lbits);
        }
        if self.compressedblks != 0 {
            return Ok(self.sb.blkpos(self.compressedblks));
        }
        let lcn: u64 = self.lcn + 1;
        self.load(lcn, false)?;
        if self.cur.kind == LCLUSTER_TYPE_PLAIN || self.cur.kind == LCLUSTER_TYPE_HEAD1 {
            proof {
                let rest = (lbits - blkbits) as u8;
                superblock::lemma_block_size(rest);
                power2::lemma_pow2_pos(rest as nat);
                if rest < 14 {
                    power2::lemma_pow2_strictly_increases(rest as nat, 14);
                }
                power2::lemma2_to64();
                vstd::bits::lemma_u32_shl_is_mul(1, rest as u32);
            }
            self.compressedblks = 1u32 << (lbits - blkbits);
        } else if self.cur.kind == LCLUSTER_TYPE_NONHEAD {
            if self.cur.delta[0] != 1 || self.compressedblks == 0 {
                return Err(Errno::EUCLEAN);
            }
        } else {
            return Err(Errno::EUCLEAN);
        }
        Ok(self.sb.blkpos(self.compressedblks))
    }

    /// The length of the extent whose head stands at `la`. Where there is no memory to load an
    /// entry, the search stays where it is.
    pub fn decompressedlen(&mut self, la: Off) -> (r: PosixResult<Off>)
        requires
            old(self).valid(),
        ensures
            final(self).context() == old(self).context(),
            ({
                let ctx = old(self).context();
                let (st, len) = ctx.decompressedlen(
                    old(self).state(),
                    la,
                    (la as int / ctx.cluster_size()) as u64,
                    0,
                );
                ||| {
                    &&& final(self).state() == st
                    &&& match len {
                        Ok(n) => r == Ok::<Off, Errno>(n as Off) && 0 <= n && la + n
                            <= ctx.inode.spec_file_size(),
                        Err(e) => r == Err::<Off, Errno>(e),
                    }
                }
                ||| {
                    &&& r == Err::<Off, Errno>(Errno::ENOMEM)
                    &&& alloc_helper::memory_refused()
                    &&& ctx.decompressedlen_wants_memory(
                        old(self).state(),
                        la,
                        (la as int / ctx.cluster_size()) as u64,
                        0,
                        final(self).state(),
                    )
                }
            }),
    {
        let lbits: u8 = self.info.logical_clusterbits;
        let i_size: Off = self.inode.info().file_size();
        proof {
            superblock::lemma_block_split(la, lbits);
            superblock::lemma_block_split(PCLUSTER_MAX_DSIZE, lbits);
            superblock::lemma_block_size(lbits);
            assert(PCLUSTER_MAX_DSIZE as int / self.context().cluster_size() <= PCLUSTER_MAX_DSIZE)
                by (nonlinear_arith)
                requires
                    self.context().cluster_size() >= 1,
            ;
        }
        let headlcn: u64 = la >> lbits;
        let mut lcn: u64 = headlcn;
        let max_steps: u32 = ((PCLUSTER_MAX_DSIZE >> lbits) + 2) as u32;
        let mut steps: u32 = 0;
        loop
            invariant
                self.valid(),
                self.context() == old(self).context(),
                lbits == self.context().info.logical_clusterbits,
                i_size == self.context().inode.spec_file_size(),
                headlcn == la as int / self.context().cluster_size(),
                max_steps == self.context().max_steps(),
                steps <= max_steps,
                max_steps <= PCLUSTER_MAX_DSIZE + 2,
                self.context().decompressedlen(old(self).state(), la, headlcn, 0)
                    == self.context().decompressedlen(self.state(), la, lcn, steps as int),
                forall|last: MapState| #[trigger]
                    self.context().decompressedlen_wants_memory(
                        self.state(),
                        la,
                        lcn,
                        steps as int,
                        last,
                    ) ==> self.context().decompressedlen_wants_memory(
                        old(self).state(),
                        la,
                        headlcn,
                        0,
                        last,
                    ),
            decreases max_steps + 1 - steps,
        {
            let start: u64 = lcn << lbits;
            if start >= i_size {
                return match i_size.checked_sub(la) {
                    Some(len) => Ok(len),
                    None => Err(Errno::EUCLEAN),
                };
            }
            proof {
                law_loaded_entry(self.context(), self.state(), lcn, true);
            }
            let ghost (before, came) = (self.state(), lcn);
            assert(self.context().allocates(lcn) ==> self.context().decompressedlen_wants_memory(
                self.state(),
                la,
                lcn,
                steps as int,
                self.state(),
            ));
            self.load(lcn, true)?;
            if self.cur.kind == LCLUSTER_TYPE_NONHEAD {
                if self.cur.delta[1] == 0 {
                    return Err(Errno::EUCLEAN);
                }
            } else if self.cur.kind == LCLUSTER_TYPE_PLAIN || self.cur.kind
                == LCLUSTER_TYPE_HEAD1 {
                if lcn != headlcn {
                    proof {
                        lemma_cluster_place(lcn, lbits, self.cur.clusterofs as u64);
                    }
                    let end: Off = bytes::min_u64(start | self.cur.clusterofs as Off, i_size);
                    return match end.checked_sub(la) {
                        Some(len) => Ok(len),
                        None => Err(Errno::EUCLEAN),
                    };
                }
                self.cur.delta[1] = 1;
            } else {
                return Err(Errno::EOPNOTSUPP);
            }
            lcn = match lcn.checked_add(self.cur.delta[1] as u64) {
                Some(n) => n,
                None => {
                    return Err(Errno::EUCLEAN);
                },
            };
            steps = steps + 1;
            if steps > max_steps {
                return Err(Errno::EOPNOTSUPP);
            }
            assert forall|last: MapState| #[trigger]
                self.context().decompressedlen_wants_memory(
                    self.state(),
                    la,
                    lcn,
                    steps as int,
                    last,
                ) implies self.context().decompressedlen_wants_memory(
                before,
                la,
                came,
                steps - 1,
                last,
            ) by {}
        }
    }
}

/// A search that ends well has come to a head, at least as far back as it was sent at first. It
/// has not changed what the extent's head was before it ended.
pub proof fn law_lookback_finds_head(ctx: MapContext, st: MapState, distance: u64, steps: int)
    requires
        ctx.valid(),
    ensures
        ({
            let (next, r) = ctx.lookback(st, distance, steps);
            &&& r is Ok ==> {
                &&& next.cur.kind == LCLUSTER_TYPE_PLAIN || next.cur.kind == LCLUSTER_TYPE_HEAD1
                &&& next.head == next.cur.kind
                &&& next.cur.clusterofs < ctx.cluster_size()
                &&& next.lcn + distance <= st.lcn
            }
            &&& st.partial_ref ==> next.partial_ref
        }),
    decreases MAX_LOOKBACK_STEPS + 1 - steps,
{
    if st.lcn >= distance {
        let lcn = (st.lcn - distance) as u64;
        law_loaded_entry(ctx, st, lcn, false);
        let (next, r) = ctx.load(st, lcn, false);
        if r is Ok && next.cur.kind == LCLUSTER_TYPE_NONHEAD && next.cur.delta0 != 0 && steps + 1
            <= MAX_LOOKBACK_STEPS {
            law_lookback_finds_head(ctx, next, next.cur.delta0 as u64, steps + 1);
        }
    }
}

/// What the eight bytes `b` of a map header say. Files in a shared inode, algorithms other than
/// LZ4, logical clusters other than blocks, and inline, interlaced or fragment clusters are not
/// supported. Physical clusters of several blocks need the superblock's consent, and a compact
/// index wants both algorithms to agree on them.
pub open spec fn header_info(sb: SuperBlock, layout: Layout, b: Seq<u8>) -> PosixResult<ZInfo> {
    let advise = bytes::le16(b, 4);
    let big1 = advise & ADVISE_BIG_PCLUSTER_1 != 0;
    let big2 = advise & ADVISE_BIG_PCLUSTER_2 != 0;
    if b[7] >> 7 != 0 || b[6] & 0xf != Z_EROFS_COMPRESSION_LZ4 || b[6] >> 4
        != Z_EROFS_COMPRESSION_LZ4 || b[7] & 7 != 0 || advise & (ADVISE_INLINE_PCLUSTER
        | ADVISE_INTERLACED_PCLUSTER | ADVISE_FRAGMENT_PCLUSTER) != 0 {
        Err(Errno::EOPNOTSUPP)
    } else if advise & (ADVISE_BIG_PCLUSTER_1 | ADVISE_BIG_PCLUSTER_2) != 0 && (
    sb.feature_incompat as u32) & EROFS_FEATURE_INCOMPAT_COMPR_CFGS == 0 {
        Err(Errno::EUCLEAN)
    } else if layout == Layout::CompressedCompact && big1 != big2 {
        Err(Errno::EUCLEAN)
    } else if sb.blkszbits > MAX_LOGICAL_CLUSTERBITS {
        Err(Errno::EOPNOTSUPP)
    } else {
        Ok(
            ZInfo {
                advise,
                algorithmtype: (Z_EROFS_COMPRESSION_LZ4, Z_EROFS_COMPRESSION_LZ4),
                logical_clusterbits: sb.blkszbits,
            },
        )
    }
}

/// What the map header of an inode says, as it is read from the image.
pub open spec fn zinode_info(
    sb: SuperBlock,
    image: Image,
    inode: InodeInfo,
    nid: Nid,
) -> PosixResult<ZInfo> {
    let layout = inode.spec_layout();
    if layout != Layout::CompressedFull && layout != Layout::CompressedCompact {
        Err(Errno::EUCLEAN)
    } else {
        match image(0, header_pos(sb, inode, nid) as Off, MAP_HEADER_SIZE as nat) {
            Err(e) => Err(e),
            Ok(b) => if b.len() != MAP_HEADER_SIZE {
                Err(Errno::EUCLEAN)
            } else {
                header_info(sb, layout, b)
            },
        }
    }
}

/// How a map header is handed on.
pub open spec fn hands_on_info(r: PosixResult<ZInodeInfo>, z: PosixResult<ZInfo>) -> bool {
    match z {
        Ok(z) => r matches Ok(info) && info@ == z,
        Err(e) => r == Err::<ZInodeInfo, Errno>(e),
    }
}

impl ZInodeInfo {
    /// Decodes a map header.
    pub fn parse(sb: &SuperBlock, layout: Layout, buf: &[u8]) -> (r: PosixResult<Self>)
        requires
            buf@.len() == MAP_HEADER_SIZE,
        ensures
            hands_on_info(r, header_info(*sb, layout, buf@)),
    {
        let advise: u16 = bytes::read_le16(buf, 4);
        let algorithmtype: [u8; 2] = [buf[6] & 0xf, buf[6] >> 4];
        let clusterbits: u8 = buf[7];
        if clusterbits >> 7 != 0 {
            return Err(Errno::EOPNOTSUPP);
        }
        if algorithmtype[0] != Z_EROFS_COMPRESSION_LZ4 || algorithmtype[1]
            != Z_EROFS_COMPRESSION_LZ4 {
            return Err(Errno::EOPNOTSUPP);
        }
        if clusterbits & 7 != 0 {
            return Err(Errno::EOPNOTSUPP);
        }
        if advise & (ADVISE_INLINE_PCLUSTER | ADVISE_INTERLACED_PCLUSTER
            | ADVISE_FRAGMENT_PCLUSTER) != 0 {
            return Err(Errno::EOPNOTSUPP);
        }
        if advise & (ADVISE_BIG_PCLUSTER_1 | ADVISE_BIG_PCLUSTER_2) != 0
            && #[verifier::truncate] (sb.feature_incompat as u32)
            & EROFS_FEATURE_INCOMPAT_COMPR_CFGS == 0 {
            return Err(Errno::EUCLEAN);
        }
        let big1: bool = advise & ADVISE_BIG_PCLUSTER_1 != 0;
        let big2: bool = advise & ADVISE_BIG_PCLUSTER_2 != 0;
        if layout == Layout::CompressedCompact && big1 != big2 {
            return Err(Errno::EUCLEAN);
        }
        if sb.blkszbits > MAX_LOGICAL_CLUSTERBITS {
            return Err(Errno::EOPNOTSUPP);
        }
        Ok(ZInodeInfo { advise, algorithmtype, logical_clusterbits: sb.blkszbits })
    }

    /// Reads the map header of a compressed inode.
    pub fn read<FS, I>(fs: &FS, inode: &I) -> (r: PosixResult<Self>) where
        FS: FileSystem<I> + ?Sized,
        I: Inode,

        requires
            fs.sb().blkszbits < 64,
        ensures
            hands_on_info(
                r,
                zinode_info(fs.sb(), fs.image(), inode.spec_info(), inode.spec_nid()),
            ),
    {
        let sb = fs.superblock();
        let info = inode.info();
        let layout = info.format().layout();
        if layout != Layout::CompressedFull && layout != Layout::CompressedCompact {
            return Err(Errno::EUCLEAN);
        }
        let pos: Off = align_up_8(
            sb.iloc(inode.nid()).saturating_add(info.inode_size()).saturating_add(
                info.xattr_size(),
            ),
        );
        let mut buf: [u8; 8] = [0u8; 8];
        let n: u64 = fs.backend().fill(&mut buf, 0, pos)?;
        if n != MAP_HEADER_SIZE {
            return Err(Errno::EUCLEAN);
        }
        proof {
            let b = (fs.image())(0, pos, MAP_HEADER_SIZE as nat)->Ok_0;
            assert(buf@ =~= b);
        }
        ZInodeInfo::parse(sb, layout, &buf)
    }
}

impl MapContext {
    /// Where a search begins.
    pub open spec fn start(self) -> MapState {
        MapState {
            lcn: 0,
            cur: blank(),
            head: LCLUSTER_TYPE_HEAD1,
            partial_ref: false,
            compressedblks: 0,
        }
    }

    /// Goes to the head of the extent that holds the place `endoff` of the current cluster. Before
    /// the data of a head there is the end of the extent before it.
    pub open spec fn find_head(self, st: MapState, endoff: int) -> Loaded {
        if st.cur.kind == LCLUSTER_TYPE_PLAIN || st.cur.kind == LCLUSTER_TYPE_HEAD1 {
            if endoff >= st.cur.clusterofs {
                (MapState { head: st.cur.kind, ..st }, Ok(()))
            } else if st.lcn == 0 {
                (st, Err(Errno::EUCLEAN))
            } else {
                self.lookback(st, 1, 0)
            }
        } else if st.cur.kind == LCLUSTER_TYPE_NONHEAD {
            self.lookback(st, st.cur.delta0 as u64, 0)
        } else {
            (st, Err(Errno::EOPNOTSUPP))
        }
    }

    /// The extent whose head is the current cluster, for lengths that were found.
    pub open spec fn extent(self, st: MapState, la: int, plen: int, llen: int) -> MapResult {
        let plain = st.head == LCLUSTER_TYPE_PLAIN;
        if llen == 0 || llen > PCLUSTER_MAX_DSIZE || plen == 0 || plen
            > Z_EROFS_PCLUSTER_MAX_SIZE {
            Err(Errno::EOPNOTSUPP)
        } else if plain && llen > plen {
            Err(Errno::EUCLEAN)
        } else {
            Ok(
                Mapping {
                    logical: Segment { start: la as Off, len: llen as Off },
                    physical: Segment {
                        start: self.sb.spec_blkpos(st.cur.pblk) as Off,
                        len: plen as Off,
                    },
                    algorithm_format: if plain {
                        Z_EROFS_COMPRESSION_SHIFTED
                    } else {
                        self.info.algorithmtype.0 as u16
                    },
                    device_id: 0,
                    map_type: MapType::Normal,
                    algorithm: if plain {
                        Algorithm::Shifted
                    } else {
                        Algorithm::Lz4
                    },
                },
            )
        }
    }

    /// The extent whose head is the current cluster. Extents that are shared in part are not
    /// supported.
    pub open spec fn measure(self, st: MapState) -> MapResult {
        let la = st.lcn * self.cluster_size() + st.cur.clusterofs;
        if st.partial_ref {
            Err(Errno::EOPNOTSUPP)
        } else {
            match self.compressedlen(st) {
                (_, Err(e)) => Err(e),
                (next, Ok(plen)) => match self.decompressedlen(next, la as Off, st.lcn, 0).1 {
                    Err(e) => Err(e),
                    Ok(llen) => self.extent(st, la, plen, llen),
                },
            }
        }
    }

    /// The extent that holds the place `offset` of the file.
    pub open spec fn map(self, offset: Off) -> MapResult {
        let lcn = offset as int / self.cluster_size();
        match self.load(self.start(), lcn as u64, false) {
            (_, Err(e)) => Err(e),
            (st, Ok(())) => match self.find_head(st, offset as int % self.cluster_size()) {
                (_, Err(e)) => Err(e),
                (found, Ok(())) => self.measure(found),
            },
        }
    }
}

/// The extent that holds the place `offset` of a file.
pub open spec fn mapped(
    sb: SuperBlock,
    image: Image,
    inode: InodeInfo,
    nid: Nid,
    offset: Off,
) -> MapResult {
    if offset >= inode.spec_file_size() {
        Err(Errno::EUCLEAN)
    } else {
        match zinode_info(sb, image, inode, nid) {
            Err(e) => Err(e),
            Ok(info) => MapContext { sb, image, inode, nid, info }.map(offset),
        }
    }
}

/// Whether finding the extent that holds the place `offset` of a file comes to the point where it
/// takes memory: the place is one of the file, the map header is good, and the entry of the place
/// stands in a block that is read as a whole.
pub open spec fn mapping_allocates(
    sb: SuperBlock,
    image: Image,
    inode: InodeInfo,
    nid: Nid,
    offset: Off,
) -> bool {
    &&& offset < inode.spec_file_size()
    &&& zinode_info(sb, image, inode, nid) matches Ok(info)
    &&& {
        let ctx = MapContext { sb, image, inode, nid, info };
        ctx.allocates((offset as int / ctx.cluster_size()) as u64)
    }
}

/// An entry of a compact index that was loaded took memory.
proof fn lemma_loaded_entry_allocates(ctx: MapContext, st: MapState, lcn: u64, lookahead: bool)
    ensures
        ctx.load(st, lcn, lookahead).1 is Ok && ctx.inode.spec_layout()
            == Layout::CompressedCompact ==> ctx.allocates(lcn),
{
    reveal(MapContext::load);
}

/// Only looking back in a compact index takes memory.
proof fn lemma_lookback_wants_memory(
    ctx: MapContext,
    st: MapState,
    distance: u64,
    steps: int,
    last: MapState,
)
    ensures
        ctx.lookback_wants_memory(st, distance, steps, last) ==> ctx.inode.spec_layout()
            == Layout::CompressedCompact,
    decreases MAX_LOOKBACK_STEPS + 1 - steps,
{
    if st.lcn >= distance && steps + 1 <= MAX_LOOKBACK_STEPS {
        let (next, r) = ctx.load(st, (st.lcn - distance) as u64, false);
        lemma_lookback_wants_memory(ctx, next, next.cur.delta0 as u64, steps + 1, last);
    }
}

/// Only the way to the end of an extent in a compact index takes memory.
proof fn lemma_decompressedlen_wants_memory(
    ctx: MapContext,
    st: MapState,
    la: Off,
    lcn: u64,
    steps: int,
    last: MapState,
)
    ensures
        ctx.decompressedlen_wants_memory(st, la, lcn, steps, last) ==> ctx.inode.spec_layout()
            == Layout::CompressedCompact,
    decreases ctx.max_steps() + 1 - steps,
{
    let (next, _) = ctx.load(st, lcn, true);
    let head = next.cur.kind == LCLUSTER_TYPE_PLAIN || next.cur.kind == LCLUSTER_TYPE_HEAD1;
    let on = if head {
        MapState { cur: LclusterView { delta1: 1, ..next.cur }, ..next }
    } else {
        next
    };
    if steps + 1 <= ctx.max_steps() && lcn + on.cur.delta1 <= u64::MAX {
        lemma_decompressedlen_wants_memory(
            ctx,
            on,
            la,
            (lcn + on.cur.delta1) as u64,
            steps + 1,
            last,
        );
    }
}

/// Finds the extent that holds the place `offset` of a compressed file. The entries of a compact
/// index are loaded into memory, and where there is none, that is the answer.
pub fn map_blocks<FS, I>(fs: &FS, inode: &I, offset: Off) -> (r: MapResult) where
    FS: FileSystem<I> + ?Sized,
    I: Inode,

    requires
        fs.sb().blkszbits < 64,
    ensures
        ({
            ||| r == mapped(fs.sb(), fs.image(), inode.spec_info(), inode.spec_nid(), offset)
            ||| {
                &&& r == Err::<Mapping, Errno>(Errno::ENOMEM)
                &&& alloc_helper::memory_refused()
                &&& mapping_allocates(
                    fs.sb(),
                    fs.image(),
                    inode.spec_info(),
                    inode.spec_nid(),
                    offset,
                )
            }
        }),
        r matches Ok(m) ==> m.logical.start + m.logical.len <= inode.spec_info().spec_file_size(),
{
    let i_size: Off = inode.info().file_size();
    if offset >= i_size {
        return Err(Errno::EUCLEAN);
    }
    let info = ZInodeInfo::read(fs, inode)?;
    let lbits: u8 = info.logical_clusterbits;
    let sb = fs.superblock();
    let mut m = Mapper::new(sb, fs.backend(), inode, info);
    let ghost ctx = m.context();
    proof {
        superblock::lemma_block_split(offset, lbits);
        superblock::lemma_block_size(lbits);
    }
    let initial_lcn: u64 = offset >> lbits;
    let endoff: u64 = offset & ((1u64 << lbits) - 1);
    proof {
        law_loaded_entry(ctx, ctx.start(), initial_lcn, false);
    }
    m.load(initial_lcn, false)?;
    let ghost st1 = m.state();
    proof {
        lemma_loaded_entry_allocates(ctx, ctx.start(), initial_lcn, false);
        assert forall|st: MapState, distance: u64, last: MapState|
            ctx.lookback_wants_memory(st, distance, 0, last) implies ctx.inode.spec_layout()
            == Layout::CompressedCompact by {
            lemma_lookback_wants_memory(ctx, st, distance, 0, last);
        }
        assert forall|st: MapState, la: Off, lcn: u64, last: MapState|
            ctx.decompressedlen_wants_memory(st, la, lcn, 0, last) implies ctx.inode.spec_layout()
            == Layout::CompressedCompact by {
            lemma_decompressedlen_wants_memory(ctx, st, la, lcn, 0, last);
        }
    }
    let kind: u8 = m.cur.kind;
    if kind == LCLUSTER_TYPE_PLAIN || kind == LCLUSTER_TYPE_HEAD1 {
        if endoff >= m.cur.clusterofs as u64 {
            m.head = kind;
        } else {
            if m.lcn == 0 {
                return Err(Errno::EUCLEAN);
            }
            proof {
                law_lookback_finds_head(ctx, st1, 1, 0);
            }
            m.lookback(1)?;
        }
    } else if kind == LCLUSTER_TYPE_NONHEAD {
        let d0: u64 = m.cur.delta[0] as u64;
        proof {
            law_lookback_finds_head(ctx, st1, d0, 0);
        }
        m.lookback(d0)?;
    } else {
        return Err(Errno::EOPNOTSUPP);
    }
    let ghost st2 = m.state();
    assert(ctx.find_head(st1, endoff as int) == (st2, Ok::<(), Errno>(())));
    assert(st2.lcn <= initial_lcn);
    proof {
        assert(m.lcn * ctx.cluster_size() <= initial_lcn * ctx.cluster_size()) by (nonlinear_arith)
            requires
                m.lcn <= initial_lcn,
                ctx.cluster_size() >= 0,
        ;
        superblock::lemma_block_mul(m.lcn, lbits);
        lemma_cluster_place(m.lcn, lbits, m.cur.clusterofs as u64);
    }
    let la: Off = (m.lcn << lbits) | (m.cur.clusterofs as Off);
    if m.partial_ref {
        return Err(Errno::EOPNOTSUPP);
    }
    let pa: Off = sb.blkpos(m.cur.pblk);
    let head: u8 = m.head;
    let algorithm = if head == LCLUSTER_TYPE_PLAIN {
        Algorithm::Shifted
    } else {
        Algorithm::Lz4
    };
    assert(la == st2.lcn * ctx.cluster_size() + st2.cur.clusterofs);
    proof {
        vstd::arithmetic::div_mod::lemma_fundamental_div_mod_converse(
            la as int,
            ctx.cluster_size(),
            st2.lcn as int,
            st2.cur.clusterofs as int,
        );
    }
    let plen: Off = m.compressedlen()?;
    let llen: Off = m.decompressedlen(la)?;
    if llen == 0 || llen > PCLUSTER_MAX_DSIZE || plen == 0 || plen > Z_EROFS_PCLUSTER_MAX_SIZE {
        return Err(Errno::EOPNOTSUPP);
    }
    if algorithm == Algorithm::Shifted && llen > plen {
        return Err(Errno::EUCLEAN);
    }
    let algorithm_format: u16 = if head == LCLUSTER_TYPE_PLAIN {
        Z_EROFS_COMPRESSION_SHIFTED
    } else {
        info.algorithmtype[0] as u16
    };
    Ok(
        Mapping {
            logical: Segment { start: la, len: llen },
            physical: Segment { start: pa, len: plen },
            algorithm_format,
            device_id: 0,
            map_type: MapType::Normal,
            algorithm,
        },
    )
}

/// An extent ends within the file.
proof fn lemma_decompressedlen_bound(
    ctx: MapContext,
    st: MapState,
    la: Off,
    lcn: u64,
    steps: int,
)
    requires
        ctx.valid(),
    ensures
        ctx.decompressedlen(st, la, lcn, steps).1 matches Ok(n) ==> 0 <= n && la + n
            <= ctx.inode.spec_file_size(),
    decreases ctx.max_steps() + 1 - steps,
{
    law_loaded_entry(ctx, st, lcn, true);
    let (next, r) = ctx.load(st, lcn, true);
    if r is Ok {
        let head = next.cur.kind == LCLUSTER_TYPE_PLAIN || next.cur.kind == LCLUSTER_TYPE_HEAD1;
        let on = if head {
            MapState { cur: LclusterView { delta1: 1, ..next.cur }, ..next }
        } else {
            next
        };
        if head {
            lemma_cluster_place(lcn, ctx.info.logical_clusterbits, next.cur.clusterofs as u64);
        }
        if steps + 1 <= ctx.max_steps() && lcn + on.cur.delta1 <= u64::MAX {
            lemma_decompressedlen_bound(ctx, on, la, (lcn + on.cur.delta1) as u64, steps + 1);
        }
    }
}

/// The entry of a cluster does not depend on how far the search has come.
pub proof fn law_load_is_stateless(
    ctx: MapContext,
    a: MapState,
    b: MapState,
    lcn: u64,
    lookahead: bool,
)
    ensures
        ctx.load(a, lcn, lookahead).1 == ctx.load(b, lcn, lookahead).1,
        ctx.load(a, lcn, lookahead).1 is Ok ==> ctx.load(a, lcn, lookahead).0.cur == ctx.load(
            b,
            lcn,
            lookahead,
        ).0.cur,
{
    reveal(MapContext::load);
}

/// An extent that is found does not start behind the place that was asked for, nor end behind the
/// file. It has a length and a physical cluster within the limits, and that one stands on whole
/// blocks of the one device. An extent that is stored as it is fits its physical cluster.
pub proof fn law_mapped_extent(
    sb: SuperBlock,
    image: Image,
    inode: InodeInfo,
    nid: Nid,
    offset: Off,
)
    ensures
        mapped(sb, image, inode, nid, offset) matches Ok(m) ==> {
            &&& m.logical.start <= offset
            &&& m.logical.start + m.logical.len <= inode.spec_file_size()
            &&& 1 <= m.logical.len <= 0xc0_0000
            &&& m.valid()
            &&& 1 <= m.physical.len <= 0x10_0000
            &&& m.physical.start as int % sb.spec_blksz() == 0
            &&& m.physical.len as int % sb.spec_blksz() == 0
            &&& m.device_id == 0
            &&& m.algorithm == Algorithm::Lz4 || m.algorithm == Algorithm::Shifted
            &&& m.algorithm == Algorithm::Shifted ==> m.logical.len <= m.physical.len
        },
{
    if let Ok(m) = mapped(sb, image, inode, nid, offset) {
        let info = zinode_info(sb, image, inode, nid)->Ok_0;
        let ctx = MapContext { sb, image, inode, nid, info };
        let size = ctx.cluster_size();
        superblock::lemma_block_size(info.logical_clusterbits);
        superblock::lemma_block_split(offset, info.logical_clusterbits);
        let lcn = (offset as int / size) as u64;
        law_loaded_entry(ctx, ctx.start(), lcn, false);
        let (st, _) = ctx.load(ctx.start(), lcn, false);
        law_lookback_finds_head(ctx, st, 1, 0);
        law_lookback_finds_head(ctx, st, st.cur.delta0 as u64, 0);
        let (found, _) = ctx.find_head(st, offset as int % size);
        // An entry that refers back to itself is corrupt.
        law_load_is_stateless(ctx, ctx.start(), st, lcn, false);
        let la = found.lcn * size + found.cur.clusterofs;
        if found.lcn < lcn {
            assert(found.lcn * size + size <= lcn * size) by (nonlinear_arith)
                requires
                    found.lcn + 1 <= lcn,
                    size >= 1,
            ;
        }
        assert(lcn * size + offset as int % size == offset);
        assert(found.lcn == lcn ==> found.cur == st.cur);
        assert(la <= offset);
        assert(0 <= la) by (nonlinear_arith)
            requires
                la == found.lcn * size + found.cur.clusterofs,
                size >= 1,
                found.lcn >= 0,
                found.cur.clusterofs >= 0,
        ;
        let (next, plen) = ctx.compressedlen(found);
        lemma_decompressedlen_bound(ctx, next, la as Off, found.lcn, 0);
        assert(0 <= found.cur.pblk * size <= u32::MAX * 0x4000_0000) by (nonlinear_arith)
            requires
                0 <= found.cur.pblk <= u32::MAX,
                1 <= size <= 0x4000_0000,
        ;
        vstd::arithmetic::div_mod::lemma_mod_multiples_basic(found.cur.pblk as int, size);
        let p = plen->Ok_0;
        assert(p % size == 0) by {
            vstd::arithmetic::div_mod::lemma_mod_multiples_basic(
                found.compressedblks as int,
                size,
            );
            vstd::arithmetic::div_mod::lemma_mod_multiples_basic(next.compressedblks as int, size);
            vstd::arithmetic::div_mod::lemma_mod_self_0(size);
            let blks = power2::pow2((info.logical_clusterbits - sb.blkszbits) as nat);
            vstd::arithmetic::div_mod::lemma_mod_multiples_basic(blks as int, size);
        }
    }
}

} // verus!

//! How the superblock says that an image is compressed.
//!
//! One word of the superblock has two meanings. In images that carry compression records it is
//! the bitmap of the algorithms in use, and the record of each algorithm follows the superblock.
//! In older images, which know LZ4 only, it is the LZ4 window size.

use crate::bytes;
use crate::data;
use crate::data::{Backend, Image};
use crate::errnos::{Errno, PosixResult};
use crate::superblock;
use crate::superblock::{SuperBlock, EROFS_SUPER_OFFSET};
use crate::Off;
use vstd::arithmetic::power2;
use vstd::prelude::*;

pub mod lz4;

verus! {

/// The superblock is followed by compression records.
pub const EROFS_FEATURE_INCOMPAT_COMPR_CFGS: u32 = 0x2;

/// The largest physical cluster.
pub const Z_EROFS_PCLUSTER_MAX_SIZE: Off = 0x10_0000;

/// LZ4, in the bitmap of the algorithms.
pub const LZ4_ALG_BIT: u16 = 0x1;

/// The algorithms that exist: LZ4, LZMA and DEFLATE.
pub const ALL_COMPR_ALGS: u16 = 0x7;

/// The size of the LZ4 record.
pub const LZ4_CFGS_SIZE: usize = 14;

/// The size of an extension slot of the superblock.
pub const EROFS_SB_EXTSLOT_SIZE: u8 = 16;

/// How an image is compressed.
#[derive(Debug, Clone, Copy, PartialEq, Eq, Structural)]
pub struct CompressionInfo {
    /// The LZ4 window size.
    pub lz4_max_distance: u16,
    /// How many blocks a physical cluster may take.
    pub lz4_max_pclusterblks: u16,
}

/// A compression record.
pub struct CfgRecord {
    /// The front of it, as much as was asked for.
    pub payload: Seq<u8>,
    /// Its length.
    pub len: int,
}

/// The length that the two bytes before a record stand for: zero is the largest length.
pub open spec fn record_len(prefix: Seq<u8>) -> int {
    if bytes::le16(prefix, 0) == 0 {
        0x1_0000
    } else {
        bytes::le16(prefix, 0) as int
    }
}

/// The two bytes that say how long the record behind `offset` is. They stand on a multiple of
/// four.
pub open spec fn record_prefix(image: Image, offset: Off) -> PosixResult<Seq<u8>> {
    match image(0, bytes::round_up(offset as int, 4) as Off, 2) {
        Err(e) => Err(e),
        Ok(b) => if b.len() != 2 {
            Err(Errno::EUCLEAN)
        } else {
            Ok(b)
        },
    }
}

/// What the device answers when the first `want` bytes of the record are asked for.
pub open spec fn record_answer(image: Image, offset: Off, want: nat) -> PosixResult<Seq<u8>> {
    image(0, (bytes::round_up(offset as int, 4) + 2) as Off, want)
}

/// The record behind `offset`, with the first `want` bytes of it. They are not read if none are
/// wanted, and a record that has fewer is corrupt.
pub open spec fn cfg_record(image: Image, offset: Off, want: nat) -> PosixResult<CfgRecord> {
    match record_prefix(image, offset) {
        Err(e) => Err(e),
        Ok(prefix) => {
            let len = record_len(prefix);
            if want == 0 {
                Ok(CfgRecord { payload: Seq::empty(), len })
            } else if len < want {
                Err(Errno::EUCLEAN)
            } else {
                match record_answer(image, offset, want) {
                    Err(e) => Err(e),
                    Ok(payload) => if payload.len() != want {
                        Err(Errno::EUCLEAN)
                    } else {
                        Ok(CfgRecord { payload, len })
                    },
                }
            }
        },
    }
}

/// Where the record behind `offset` ends.
pub open spec fn record_end(offset: Off, len: int) -> int {
    bytes::round_up(offset as int, 4) + 2 + len
}

/// Reads the record behind `offset`: as much of its front as `payload` takes. Returns the length
/// of the record and moves `offset` to its end.
///
/// A record that cannot be read leaves `offset` at its start, or behind its length if that was
/// read, and `payload` with what was delivered.
pub fn read_cfg_record<B: Backend + ?Sized>(
    backend: &B,
    offset: &mut Off,
    payload: &mut [u8],
) -> (r: PosixResult<u32>)
    requires
        *old(offset) + 3 <= u64::MAX,
        record_prefix(backend.image(), *old(offset)) is Ok ==> record_end(*old(offset), 0)
            <= u64::MAX,
        cfg_record(backend.image(), *old(offset), old(payload)@.len()) matches Ok(rec)
            ==> record_end(*old(offset), rec.len) <= u64::MAX,
    ensures
        match cfg_record(backend.image(), *old(offset), old(payload)@.len()) {
            Ok(rec) => {
                &&& r == Ok::<u32, Errno>(rec.len as u32)
                &&& final(payload)@ == rec.payload
                &&& *final(offset) == record_end(*old(offset), rec.len)
                &&& 1 <= rec.len <= 0x1_0000
            },
            Err(e) => {
                &&& r == Err::<u32, Errno>(e)
                &&& *final(offset) == match record_prefix(backend.image(), *old(offset)) {
                    Ok(_) => record_end(*old(offset), 0),
                    Err(_) => bytes::round_up(*old(offset) as int, 4),
                }
                &&& final(payload)@ == match record_prefix(backend.image(), *old(offset)) {
                    Ok(prefix) => if record_len(prefix) < old(payload)@.len() {
                        old(payload)@
                    } else {
                        data::overlaid(
                            old(payload)@,
                            record_answer(
                                backend.image(),
                                *old(offset),
                                old(payload)@.len(),
                            ),
                        )
                    },
                    Err(_) => old(payload)@,
                }
            },
        },
{
    *offset = (*offset + 3) / 4 * 4;
    let mut len_buf: [u8; 2] = [0u8; 2];
    let n: u64 = backend.fill(&mut len_buf, 0, *offset)?;
    if n != 2 {
        return Err(Errno::EUCLEAN);
    }
    proof {
        let b = (backend.image())(0, *offset, 2)->Ok_0;
        assert(len_buf@ =~= b);
    }
    let word: u32 = bytes::read_le16(&len_buf, 0) as u32;
    let len: u32 = if word == 0 {
        0x1_0000
    } else {
        word
    };
    *offset = *offset + 2;
    if payload.len() > 0 {
        if (len as usize) < payload.len() {
            return Err(Errno::EUCLEAN);
        }
        let n: u64 = backend.fill(payload, 0, *offset)?;
        if n != payload.len() as u64 {
            return Err(Errno::EUCLEAN);
        }
        proof {
            let b = (backend.image())(0, *offset, old(payload)@.len())->Ok_0;
            assert(payload@ =~= b);
        }
    } else {
        assert(payload@ =~= Seq::<u8>::empty());
    }
    *offset = *offset + len as Off;
    Ok(len)
}

/// The size of the superblock with its extension slots.
pub open spec fn sb_size(sb: SuperBlock) -> int {
    128 + sb.sb_extslots * EROFS_SB_EXTSLOT_SIZE
}

/// What the LZ4 record says. A physical cluster takes at least one block, and no more than the
/// largest physical cluster has.
pub open spec fn lz4_cfgs(sb: SuperBlock, payload: Seq<u8>) -> PosixResult<CompressionInfo> {
    let blks = if bytes::le16(payload, 2) == 0 {
        1u16
    } else {
        bytes::le16(payload, 2)
    };
    if blks > Z_EROFS_PCLUSTER_MAX_SIZE as int / sb.spec_blksz() {
        Err(Errno::EUCLEAN)
    } else {
        Ok(
            CompressionInfo {
                lz4_max_distance: bytes::le16(payload, 0),
                lz4_max_pclusterblks: blks,
            },
        )
    }
}

/// How an image is compressed, if it is.
///
/// The superblock has to fit its block, counting blocks below 4 KiB as 4 KiB. Of the algorithms
/// only LZ4 is supported, and one that does not exist is corrupt. The record has to lie on the
/// device.
pub open spec fn compr_cfgs(image: Image, sb: SuperBlock) -> PosixResult<
    Option<CompressionInfo>,
> {
    let u1 = sb.compression as u16;
    if u1 == 0 {
        Ok(None)
    } else if sb_size(sb) > bytes::greatest(sb.spec_blksz(), 4096) - EROFS_SUPER_OFFSET {
        Err(Errno::EUCLEAN)
    } else if (sb.feature_incompat as u32) & EROFS_FEATURE_INCOMPAT_COMPR_CFGS == 0 {
        Ok(Some(CompressionInfo { lz4_max_distance: u1, lz4_max_pclusterblks: 1 }))
    } else if u1 & !ALL_COMPR_ALGS != 0 {
        Err(Errno::EUCLEAN)
    } else if u1 & !LZ4_ALG_BIT != 0 {
        Err(Errno::EOPNOTSUPP)
    } else {
        let offset = (EROFS_SUPER_OFFSET + sb_size(sb)) as Off;
        match cfg_record(image, offset, LZ4_CFGS_SIZE as nat) {
            Err(e) => Err(e),
            Ok(rec) => if sb.blocks <= 0 || record_end(offset, rec.len) > sb.blocks
                * sb.spec_blksz() {
                Err(Errno::EUCLEAN)
            } else {
                match lz4_cfgs(sb, rec.payload) {
                    Err(e) => Err(e),
                    Ok(info) => Ok(Some(info)),
                }
            },
        }
    }
}

/// Decodes the LZ4 record.
pub fn parse_lz4_cfgs(sb: &SuperBlock, payload: &[u8]) -> (r: PosixResult<CompressionInfo>)
    requires
        sb.blkszbits < 64,
        payload@.len() == LZ4_CFGS_SIZE,
    ensures
        r == lz4_cfgs(*sb, payload@),
{
    let max_distance: u16 = bytes::read_le16(payload, 0);
    let word: u16 = bytes::read_le16(payload, 2);
    let max_pclusterblks: u16 = if word == 0 {
        1
    } else {
        word
    };
    proof {
        superblock::lemma_block_split(Z_EROFS_PCLUSTER_MAX_SIZE, sb.blkszbits);
    }
    if max_pclusterblks as Off > Z_EROFS_PCLUSTER_MAX_SIZE >> sb.blkszbits {
        return Err(Errno::EUCLEAN);
    }
    Ok(
        CompressionInfo {
            lz4_max_distance: max_distance,
            lz4_max_pclusterblks: max_pclusterblks,
        },
    )
}

/// Reads how an image is compressed.
pub fn load_compr_cfgs<B: Backend + ?Sized>(backend: &B, sb: &SuperBlock) -> (r: PosixResult<
    Option<CompressionInfo>,
>)
    requires
        sb.blkszbits < 64,
    ensures
        r == compr_cfgs(backend.image(), *sb),
{
    let u1: u16 = #[verifier::truncate] (sb.compression as u16);
    if u1 == 0 {
        return Ok(None);
    }
    let sb_size: u32 = 128 + sb.sb_extslots as u32 * EROFS_SB_EXTSLOT_SIZE as u32;
    let area_limit: Off = bytes::max_u64(sb.blksz(), 4096) - EROFS_SUPER_OFFSET;
    if sb_size as Off > area_limit {
        return Err(Errno::EUCLEAN);
    }
    if #[verifier::truncate] (sb.feature_incompat as u32) & EROFS_FEATURE_INCOMPAT_COMPR_CFGS
        == 0 {
        return Ok(Some(CompressionInfo { lz4_max_distance: u1, lz4_max_pclusterblks: 1 }));
    }
    if u1 & !ALL_COMPR_ALGS != 0 {
        return Err(Errno::EUCLEAN);
    }
    if u1 & !LZ4_ALG_BIT != 0 {
        return Err(Errno::EOPNOTSUPP);
    }
    let mut offset: Off = EROFS_SUPER_OFFSET + sb_size as Off;
    let mut payload: [u8; 14] = [0u8; 14];
    read_cfg_record(backend, &mut offset, &mut payload)?;
    let blocks: i32 = sb.blocks();
    if blocks <= 0 {
        return Err(Errno::EUCLEAN);
    }
    match (blocks as u64).checked_mul(sb.blksz()) {
        Some(end) => {
            if offset > end {
                return Err(Errno::EUCLEAN);
            }
        },
        None => {},
    }
    let info: CompressionInfo = parse_lz4_cfgs(sb, &payload)?;
    Ok(Some(info))
}

/// An image that is accepted as compressed has physical clusters of at least one block, and of
/// more than one only as long as they stay within the largest physical cluster.
pub proof fn law_compr_cfgs_bounded(image: Image, sb: SuperBlock)
    requires
        sb.blkszbits < 64,
    ensures
        compr_cfgs(image, sb) matches Ok(Some(info)) ==> {
            &&& 1 <= info.lz4_max_pclusterblks
            &&& info.lz4_max_pclusterblks == 1 || info.lz4_max_pclusterblks * sb.spec_blksz()
                <= 0x10_0000
        },
        compr_cfgs(image, sb) == Ok::<Option<CompressionInfo>, Errno>(None) <==> sb.compression
            as u16 == 0,
{
    let size = sb.spec_blksz();
    let max = Z_EROFS_PCLUSTER_MAX_SIZE as int;
    superblock::lemma_block_split(0, sb.blkszbits);
    if let Ok(Some(info)) = compr_cfgs(image, sb) {
        vstd::arithmetic::div_mod::lemma_fundamental_div_mod(max, size);
        vstd::arithmetic::div_mod::lemma_mod_bound(max, size);
        let blks = info.lz4_max_pclusterblks as int;
        if blks <= max / size {
            assert(blks * size <= size * (max / size)) by (nonlinear_arith)
                requires
                    blks <= max / size,
                    size >= 1,
            ;
        }
    }
}

/// A record that was written is the record that is read: on the first multiple of four stand two
/// bytes that say how long it is, where zero is the largest length, and right behind them stands
/// the record. A record that is shorter than what is wanted is corrupt, and so is one that is not
/// there as a whole.
pub proof fn law_record_is_read_back(
    image: Image,
    offset: Off,
    start: Off,
    len: u16,
    front: Seq<u8>,
)
    requires
        start as int % 4 == 0,
        offset <= start < offset + 4,
        start + 2 <= u64::MAX,
        front.len() > 0,
        image(0, start, 2) == Ok::<Seq<u8>, Errno>(bytes::packed16(len)),
        image(0, (start + 2) as Off, front.len()) == Ok::<Seq<u8>, Errno>(front),
    ensures
        ({
            let full = if len == 0 {
                0x1_0000
            } else {
                len as int
            };
            &&& record_end(offset, full) == start + 2 + full
            &&& match cfg_record(image, offset, front.len()) {
                Ok(rec) => front.len() <= full && rec.len == full && rec.payload == front,
                Err(e) => front.len() > full && e == Errno::EUCLEAN,
            }
        }),
{
    assert(bytes::round_up(offset as int, 4) == start);
    assert(bytes::le16(bytes::packed16(len), 0) == len);
}

/// The length of a record alone can be asked for. A length or a record that cannot be read as a
/// whole is corrupt, and a failure to read is handed on.
pub proof fn law_record_that_is_not_there(image: Image, offset: Off, start: Off, want: nat)
    requires
        start as int % 4 == 0,
        offset <= start < offset + 4,
        start + 2 <= u64::MAX,
        0 < want <= 0x1_0000,
    ensures
        match image(0, start, 2) {
            Err(e) => cfg_record(image, offset, want) == Err::<CfgRecord, Errno>(e),
            Ok(prefix) => if prefix.len() != 2 {
                cfg_record(image, offset, want) == Err::<CfgRecord, Errno>(Errno::EUCLEAN)
            } else {
                let word = prefix[0] + 256 * prefix[1];
                &&& cfg_record(image, offset, 0) matches Ok(rec) && rec.payload.len() == 0
                    && rec.len == if word == 0 {
                    0x1_0000
                } else {
                    word
                }
                &&& word == 0 || word >= want ==> match image(0, (start + 2) as Off, want) {
                    Err(e) => cfg_record(image, offset, want) == Err::<CfgRecord, Errno>(e),
                    Ok(b) => b.len() != want ==> cfg_record(image, offset, want) == Err::<
                        CfgRecord,
                        Errno,
                    >(Errno::EUCLEAN),
                }
            },
        },
{
    assert(bytes::round_up(offset as int, 4) == start);
}

/// Where the compression records of an image start: behind the superblock, which stands at 1024 and
/// takes 128 bytes and 16 more for each slot. That is a multiple of four.
pub open spec fn records_start(sb: SuperBlock) -> int {
    1024 + 128 + 16 * sb.sb_extslots
}

/// An LZ4 record that was written is what is said of the compression, if it lies on the device and
/// its clusters are within the limits: a cluster takes one block at least and a megabyte at most.
pub proof fn law_lz4_record_is_read_back(
    image: Image,
    sb: SuperBlock,
    len: u16,
    distance: u16,
    blks: u16,
    rest: Seq<u8>,
)
    requires
        sb.blkszbits < 64,
        sb.compression as u16 == 1,
        sb.feature_incompat as u32 & 2 != 0,
        records_start(sb) <= 4096 || records_start(sb) <= power2::pow2(sb.blkszbits as nat),
        rest.len() == 10,
        image(0, records_start(sb) as Off, 2) == Ok::<Seq<u8>, Errno>(bytes::packed16(len)),
        image(0, (records_start(sb) + 2) as Off, 14) == Ok::<Seq<u8>, Errno>(
            bytes::packed16(distance) + bytes::packed16(blks) + rest,
        ),
    ensures
        ({
            let full = if len == 0 {
                0x1_0000
            } else {
                len as int
            };
            let most = if blks == 0 {
                1u16
            } else {
                blks
            };
            let size = power2::pow2(sb.blkszbits as nat);
            compr_cfgs(image, sb) == if full < 14 || records_start(sb) + 2 + full > sb.blocks * size
                || most * size > 0x10_0000 {
                Err::<Option<CompressionInfo>, Errno>(Errno::EUCLEAN)
            } else {
                Ok(
                    Some(
                        CompressionInfo { lz4_max_distance: distance, lz4_max_pclusterblks: most },
                    ),
                )
            }
        }),
{
    let start = records_start(sb) as Off;
    let size = power2::pow2(sb.blkszbits as nat) as int;
    let payload = bytes::packed16(distance) + bytes::packed16(blks) + rest;
    superblock::lemma_block_split(0x10_0000, sb.blkszbits);
    law_record_is_read_back(image, start, start, len, payload);
    assert(bytes::le16(payload, 0) == distance);
    assert(bytes::le16(payload, 2) == blks);
    assert(1u16 & !7u16 == 0 && 1u16 & !1u16 == 0) by (bit_vector);
    let most = if blks == 0 {
        1int
    } else {
        blks as int
    };
    let max = 0x10_0000int / size;
    vstd::arithmetic::div_mod::lemma_fundamental_div_mod(0x10_0000, size);
    vstd::arithmetic::div_mod::lemma_mod_bound(0x10_0000, size);
    assert(most > max <==> most * size > 0x10_0000) by (nonlinear_arith)
        requires
            0x10_0000 == size * max + 0x10_0000int % size,
            0 <= 0x10_0000int % size < size,
            size >= 1,
    ;
    assert(sb.blocks <= 0 ==> sb.blocks * size <= 0) by (nonlinear_arith)
        requires
            size >= 1,
    ;
}

/// What the word of the superblock says by itself. Zero means that the image is not compressed. In
/// older images it is the LZ4 window. In the others it is a bitmap of three algorithms, of which
/// only the first is supported. A superblock that does not fit its block is corrupt, and so is an
/// algorithm that does not exist.
pub proof fn law_compression_word(image: Image, sb: SuperBlock)
    requires
        sb.blkszbits < 64,
    ensures
        ({
            let word = sb.compression as u16;
            let r = compr_cfgs(image, sb);
            if word == 0 {
                r == Ok::<Option<CompressionInfo>, Errno>(None)
            } else if records_start(sb) > 4096 && records_start(sb) > power2::pow2(
                sb.blkszbits as nat,
            ) {
                r == Err::<Option<CompressionInfo>, Errno>(Errno::EUCLEAN)
            } else if sb.feature_incompat as u32 & 2 == 0 {
                r == Ok::<Option<CompressionInfo>, Errno>(
                    Some(CompressionInfo { lz4_max_distance: word, lz4_max_pclusterblks: 1 }),
                )
            } else if word >= 8 {
                r == Err::<Option<CompressionInfo>, Errno>(Errno::EUCLEAN)
            } else if word >= 2 {
                r == Err::<Option<CompressionInfo>, Errno>(Errno::EOPNOTSUPP)
            } else {
                match image(0, records_start(sb) as Off, 2) {
                    Err(e) => r == Err::<Option<CompressionInfo>, Errno>(e),
                    Ok(b) => b.len() != 2 ==> r == Err::<Option<CompressionInfo>, Errno>(
                        Errno::EUCLEAN,
                    ),
                }
            }
        }),
{
    let word = sb.compression as u16;
    assert(word & !7u16 != 0 <==> word >= 8) by (bit_vector);
    assert(word & !1u16 != 0 <==> word >= 2) by (bit_vector);
    assert(bytes::round_up(records_start(sb), 4) == records_start(sb));
}

} // verus!

//! Reading and decoding of compressed extents, and handing them out block by block.
//!
//! In images with zero padding the compressed data ends with its physical cluster, and zeros
//! stand before it. Decoding is always partial, since a physical cluster may decode to more than
//! its extent. Extents are decoded from their start as far as needed, in growing steps.

use crate::alloc_helper;
use crate::bytes;
use crate::compression::lz4;
use crate::compression::{CompressionInfo, Z_EROFS_PCLUSTER_MAX_SIZE};
use crate::data::{Backend, Image};
use crate::errnos::{Errno, PosixResult};
use crate::inode::InodeInfo;
use crate::map::{Algorithm, Mapping};
use crate::superblock;
use crate::superblock::SuperBlock;
use crate::zmap;
use crate::{Nid, Off};
use vstd::arithmetic::power2;
use vstd::prelude::*;

verus! {

/// How much of an extent is decoded at first.
pub const DECODE_CHUNK: Off = 0x1_0000;

/// Compressed data ends with its physical cluster.
pub const ZERO_PADDING: u32 = 0x1;

/// The first byte from `i` on, before `limit`, that is not zero.
pub open spec fn nonzero_from(s: Seq<u8>, i: int, limit: int) -> Option<int>
    decreases limit - i,
{
    if i >= limit {
        None
    } else if s[i] != 0 {
        Some(i)
    } else {
        nonzero_from(s, i + 1, limit)
    }
}

/// The LZ4 block in a physical cluster. With zero padding it starts with the first byte of the
/// first block that is not zero, and there has to be one.
pub open spec fn lz4_input(sb: SuperBlock, raw: Seq<u8>) -> PosixResult<Seq<u8>> {
    if (sb.feature_incompat as u32) & ZERO_PADDING == 0 {
        Ok(raw)
    } else {
        match nonzero_from(raw, 0, bytes::least(raw.len() as int, sb.spec_blksz())) {
            None => Err(Errno::EUCLEAN),
            Some(skip) => Ok(raw.skip(skip)),
        }
    }
}

/// How many bytes are decoded if `target` are wanted: at least one, and at most all.
pub open spec fn out_len(map: Mapping, target: Off) -> int {
    bytes::least(bytes::greatest(target as int, 1), map.logical.len as int)
}

/// The part of a physical cluster that an extent is made of. What is stored as it is has to fit the
/// cluster, and what is not compressed at all is no extent.
pub open spec fn extent_input(sb: SuperBlock, map: Mapping, raw: Seq<u8>) -> PosixResult<Seq<u8>> {
    match map.algorithm {
        Algorithm::Raw => Err(Errno::EUCLEAN),
        Algorithm::Shifted => if map.logical.len > map.physical.len {
            Err(Errno::EUCLEAN)
        } else {
            Ok(raw)
        },
        Algorithm::Lz4 => lz4_input(sb, raw),
    }
}

/// The first `len` bytes of an extent, out of what it is made of. An LZ4 block that ends before
/// there are as many is an I/O error.
pub open spec fn unpacked(algorithm: Algorithm, input: Seq<u8>, len: int) -> PosixResult<Seq<u8>> {
    if algorithm == Algorithm::Lz4 {
        let d = lz4::decode(input, len as nat);
        if d.corrupt {
            Err(Errno::EUCLEAN)
        } else if d.out.len() < len {
            Err(Errno::EIO)
        } else {
            Ok(d.out)
        }
    } else {
        Ok(input.take(len))
    }
}

/// The front of an extent, decoded out of the bytes `raw` of its physical cluster.
pub open spec fn decoded(sb: SuperBlock, map: Mapping, raw: Seq<u8>, target: Off) -> PosixResult<
    Seq<u8>,
> {
    match extent_input(sb, map, raw) {
        Err(e) => Err(e),
        Ok(input) => unpacked(map.algorithm, input, out_len(map, target)),
    }
}

/// Whether a physical cluster has a size that the image allows: whole blocks, at least one, and
/// no more than the limits of the format and of the image.
pub open spec fn plen_allowed(sb: SuperBlock, compr: Option<CompressionInfo>, plen: Off) -> bool {
    &&& 0 < plen <= Z_EROFS_PCLUSTER_MAX_SIZE
    &&& plen as int % sb.spec_blksz() == 0
    &&& compr matches Some(c) ==> plen <= bytes::greatest(c.lz4_max_pclusterblks as int, 1)
        * sb.spec_blksz()
}

/// The front of an extent, as it is read from the image. A physical cluster that is not there as
/// a whole is corrupt.
pub open spec fn extent_data(
    sb: SuperBlock,
    compr: Option<CompressionInfo>,
    image: Image,
    map: Mapping,
    target: Off,
) -> PosixResult<Seq<u8>> {
    if !plen_allowed(sb, compr, map.physical.len) {
        Err(Errno::EUCLEAN)
    } else {
        match image(map.device_id as i32, map.physical.start, map.physical.len as nat) {
            Err(e) => Err(e),
            Ok(raw) => if raw.len() != map.physical.len {
                Err(Errno::EUCLEAN)
            } else {
                decoded(sb, map, raw, target)
            },
        }
    }
}

/// What is decoded is as long as was asked for.
pub proof fn law_decoded_len(sb: SuperBlock, map: Mapping, raw: Seq<u8>, target: Off)
    requires
        raw.len() == map.physical.len,
    ensures
        decoded(sb, map, raw, target) matches Ok(d) ==> d.len() == out_len(map, target),
{
    if map.algorithm == Algorithm::Lz4 {
        if let Ok(input) = lz4_input(sb, raw) {
            lz4::law_decode_bounded(input, out_len(map, target) as nat);
        }
    }
}

/// Decoding less of an extent yields the front of what decoding more of it yields, and fails only
/// where that fails too.
pub proof fn law_decoded_prefix(
    sb: SuperBlock,
    map: Mapping,
    raw: Seq<u8>,
    less: Off,
    more: Off,
)
    requires
        raw.len() == map.physical.len,
        less <= more,
    ensures
        decoded(sb, map, raw, more) matches Ok(d) ==> decoded(sb, map, raw, less) == Ok::<
            Seq<u8>,
            Errno,
        >(d.take(out_len(map, less))),
{
    law_decoded_len(sb, map, raw, less);
    law_decoded_len(sb, map, raw, more);
    if let Ok(d) = decoded(sb, map, raw, more) {
        if map.algorithm == Algorithm::Shifted {
            assert(raw.take(out_len(map, less)) =~= d.take(out_len(map, less)));
        } else {
            let input = lz4_input(sb, raw)->Ok_0;
            lz4::law_decode_prefix(
                input,
                out_len(map, less) as nat,
                out_len(map, more) as nat,
            );
        }
    }
}

/// What is stored as it is stands at the front of its cluster: byte by byte the extent is the
/// cluster. As much of it is decoded as is wanted, at least one byte, and at most the extent.
pub proof fn law_stored_extent_is_the_front_of_its_cluster(
    sb: SuperBlock,
    map: Mapping,
    raw: Seq<u8>,
    target: Off,
)
    requires
        map.algorithm == Algorithm::Shifted,
        map.logical.len <= map.physical.len,
        raw.len() == map.physical.len,
    ensures
        decoded(sb, map, raw, target) matches Ok(d) && {
            &&& target >= map.logical.len ==> d == raw.take(map.logical.len as int)
            &&& 0 < target <= map.logical.len ==> d == raw.take(target as int)
            &&& target == 0 && map.logical.len > 0 ==> d == raw.take(1)
        },
{
}

/// The first byte that is not zero is found behind the zeros.
proof fn lemma_nonzero_from(s: Seq<u8>, i: int, limit: int, at: int)
    requires
        0 <= i <= at < limit <= s.len(),
        forall|k: int| i <= k < at ==> s[k] == 0,
        s[at] != 0,
    ensures
        nonzero_from(s, i, limit) == Some(at),
    decreases at - i,
{
    if i < at {
        lemma_nonzero_from(s, i + 1, limit, at);
    }
}

/// Where all bytes are zero, none is found.
proof fn lemma_all_zero(s: Seq<u8>, i: int, limit: int)
    requires
        forall|k: int| i <= k < limit ==> s[k] == 0,
    ensures
        nonzero_from(s, i, limit) is None,
    decreases limit - i,
{
    if i < limit {
        lemma_all_zero(s, i + 1, limit);
    }
}

/// In an image with zero padding a cluster is zeros and an LZ4 block that ends with it. Its extent
/// is what the block stands for, as much of it as is wanted, at least one byte, and at most the
/// extent. A block that stands for less than is wanted is an I/O error.
pub proof fn law_padded_block_is_decoded(
    sb: SuperBlock,
    map: Mapping,
    pad: nat,
    seqs: Seq<lz4::Sequence>,
    last: Seq<u8>,
    target: Off,
)
    requires
        map.algorithm == Algorithm::Lz4,
        sb.feature_incompat as u32 & 1 != 0,
        lz4::encodable(seqs, last, Seq::empty()),
        lz4::encoded(seqs, last).len() > 0,
        lz4::encoded(seqs, last)[0] != 0,
        pad < power2::pow2(sb.blkszbits as nat),
    ensures
        ({
            let whole = lz4::plain(seqs, last, Seq::empty());
            let raw = Seq::new(pad, |i: int| 0u8) + lz4::encoded(seqs, last);
            let wanted = if target > map.logical.len {
                map.logical.len as int
            } else if target == 0 && map.logical.len > 0 {
                1
            } else {
                target as int
            };
            decoded(sb, map, raw, target) == if wanted <= whole.len() {
                Ok::<Seq<u8>, Errno>(whole.take(wanted))
            } else {
                Err::<Seq<u8>, Errno>(Errno::EIO)
            }
        }),
{
    let block = lz4::encoded(seqs, last);
    let raw = Seq::new(pad, |i: int| 0u8) + block;
    let limit = bytes::least(raw.len() as int, sb.spec_blksz());
    assert(raw[pad as int] == block[0]);
    lemma_nonzero_from(raw, 0, limit, pad as int);
    assert(raw.skip(pad as int) =~= block);
    lz4::law_encoded_block_is_decoded(seqs, last, out_len(map, target) as nat);
}

/// In an image without padding a cluster starts with an LZ4 block, and what stands behind the block
/// has no say.
pub proof fn law_block_without_padding_is_decoded(
    sb: SuperBlock,
    map: Mapping,
    seqs: Seq<lz4::Sequence>,
    last: Seq<u8>,
    more: Seq<u8>,
    target: Off,
)
    requires
        map.algorithm == Algorithm::Lz4,
        sb.feature_incompat as u32 & 1 == 0,
        lz4::encodable(seqs, last, Seq::empty()),
        map.logical.len <= lz4::plain(seqs, last, Seq::empty()).len(),
        1 <= map.logical.len,
    ensures
        ({
            let whole = lz4::plain(seqs, last, Seq::empty());
            let wanted = if target > map.logical.len {
                map.logical.len as int
            } else if target == 0 {
                1
            } else {
                target as int
            };
            decoded(sb, map, lz4::encoded(seqs, last) + more, target) == Ok::<Seq<u8>, Errno>(
                whole.take(wanted),
            )
        }),
{
    lz4::law_bytes_behind_a_block_have_no_say(seqs, last, more, out_len(map, target) as nat);
}

/// What is no extent is not decoded: a mapping that is not compressed, what is stored as it is and
/// does not fit its cluster, a padded cluster whose first block is nothing but zeros, and a block
/// that is corrupt before there is as much as is wanted.
pub proof fn law_corrupt_extents_are_refused(
    sb: SuperBlock,
    map: Mapping,
    raw: Seq<u8>,
    target: Off,
)
    requires
        raw.len() == map.physical.len,
    ensures
        ({
            let refused = decoded(sb, map, raw, target) == Err::<Seq<u8>, Errno>(Errno::EUCLEAN);
            let blksz = power2::pow2(sb.blkszbits as nat);
            &&& map.algorithm == Algorithm::Raw ==> refused
            &&& map.algorithm == Algorithm::Shifted && map.logical.len > map.physical.len ==> refused
            &&& map.algorithm == Algorithm::Lz4 && sb.feature_incompat as u32 & 1 != 0 && (forall|
                k: int,
            |
                0 <= k < raw.len() && k < blksz ==> raw[k] == 0) ==> refused
            &&& map.algorithm == Algorithm::Lz4 && sb.feature_incompat as u32 & 1 == 0
                && lz4::decode(
                raw,
                if target > map.logical.len {
                    map.logical.len as nat
                } else if target == 0 && map.logical.len > 0 {
                    1
                } else {
                    target as nat
                },
            ).corrupt ==> refused
        }),
{
    let limit = bytes::least(raw.len() as int, sb.spec_blksz());
    if forall|k: int| 0 <= k < raw.len() && k < limit ==> raw[k] == 0 {
        lemma_all_zero(raw, 0, limit);
    }
}

/// A physical cluster of whole blocks is read as a whole, from where the mapping says, if it is
/// within the limits: a megabyte, and as many blocks as the image allows, or one. Others are
/// corrupt. A failure to read is handed on, and a cluster that is not there as a whole is corrupt.
pub proof fn law_extent_is_read_from_its_cluster(
    sb: SuperBlock,
    compr: Option<CompressionInfo>,
    image: Image,
    map: Mapping,
    target: Off,
    blocks: nat,
)
    requires
        map.physical.len == blocks * power2::pow2(sb.blkszbits as nat),
    ensures
        ({
            let r = extent_data(sb, compr, image, map, target);
            let within = {
                &&& 1 <= blocks
                &&& map.physical.len <= 0x10_0000
                &&& compr matches Some(c) ==> blocks <= c.lz4_max_pclusterblks || blocks == 1
            };
            if !within {
                r == Err::<Seq<u8>, Errno>(Errno::EUCLEAN)
            } else {
                match image(map.device_id as i32, map.physical.start, map.physical.len as nat) {
                    Err(e) => r == Err::<Seq<u8>, Errno>(e),
                    Ok(raw) => r == if raw.len() == map.physical.len {
                        decoded(sb, map, raw, target)
                    } else {
                        Err::<Seq<u8>, Errno>(Errno::EUCLEAN)
                    },
                }
            }
        }),
{
    let unit = power2::pow2(sb.blkszbits as nat) as int;
    power2::lemma_pow2_pos(sb.blkszbits as nat);
    vstd::arithmetic::div_mod::lemma_mod_multiples_basic(blocks as int, unit);
    if blocks >= 1 {
        assert(blocks * unit >= 1) by (nonlinear_arith)
            requires
                blocks >= 1,
                unit >= 1,
        ;
    }
    if let Some(c) = compr {
        let max = bytes::greatest(c.lz4_max_pclusterblks as int, 1);
        if blocks <= max {
            assert(blocks * unit <= max * unit) by (nonlinear_arith)
                requires
                    blocks <= max,
                    unit >= 1,
            ;
        } else {
            assert(blocks * unit > max * unit) by (nonlinear_arith)
                requires
                    blocks > max,
                    unit >= 1,
            ;
        }
    }
}

/// A physical cluster that is not made of whole blocks is corrupt.
pub proof fn law_broken_clusters_are_refused(
    sb: SuperBlock,
    compr: Option<CompressionInfo>,
    image: Image,
    map: Mapping,
    target: Off,
)
    requires
        map.physical.len as int % power2::pow2(sb.blkszbits as nat) as int != 0,
    ensures
        extent_data(sb, compr, image, map, target) == Err::<Seq<u8>, Errno>(Errno::EUCLEAN),
{
}

/// The front of an extent, decoded.
#[derive(Debug)]
pub struct DecodedExtent {
    data: Vec<u8>,
    logical_start: Off,
}

/// Skips the zeros before the compressed data.
fn skip_zeros(raw: &[u8], limit: usize) -> (r: PosixResult<usize>)
    requires
        limit <= raw.len(),
    ensures
        match nonzero_from(raw@, 0, limit as int) {
            Some(i) => r == Ok::<usize, Errno>(i as usize) && 0 <= i < limit,
            None => r == Err::<usize, Errno>(Errno::EUCLEAN),
        },
{
    let mut i: usize = 0;
    while i < limit
        invariant
            i <= limit <= raw.len(),
            nonzero_from(raw@, 0, limit as int) == nonzero_from(raw@, i as int, limit as int),
        decreases limit - i,
    {
        if raw[i] != 0 {
            return Ok(i);
        }
        i = i + 1;
    }
    Err(Errno::EUCLEAN)
}

/// Finds the LZ4 block in a physical cluster.
pub fn lz4_block<'r>(sb: &SuperBlock, raw: &'r [u8]) -> (r: PosixResult<&'r [u8]>)
    requires
        sb.blkszbits < 64,
    ensures
        match lz4_input(*sb, raw@) {
            Ok(input) => r matches Ok(block) && block@ == input,
            Err(e) => r == Err::<&'r [u8], Errno>(e),
        },
{
    if #[verifier::truncate] (sb.feature_incompat as u32) & ZERO_PADDING == 0 {
        return Ok(raw);
    }
    let limit: u64 = bytes::min_u64(raw.len() as u64, sb.blksz());
    let skip: usize = skip_zeros(raw, limit as usize)?;
    let block: &[u8] = &raw[skip..raw.len()];
    assert(block@ =~= raw@.skip(skip as int));
    Ok(block)
}

/// Finds the part of a physical cluster that an extent is made of.
pub fn extent_block<'r>(sb: &SuperBlock, map: &Mapping, raw: &'r [u8]) -> (r: PosixResult<&'r [u8]>)
    requires
        sb.blkszbits < 64,
    ensures
        match extent_input(*sb, *map, raw@) {
            Ok(input) => r matches Ok(block) && block@ == input,
            Err(e) => r == Err::<&'r [u8], Errno>(e),
        },
{
    match map.algorithm {
        Algorithm::Raw => Err(Errno::EUCLEAN),
        Algorithm::Shifted => {
            if map.logical.len > map.physical.len {
                return Err(Errno::EUCLEAN);
            }
            Ok(raw)
        },
        Algorithm::Lz4 => lz4_block(sb, raw),
    }
}

/// Decodes the front of an extent, as much of it as `data` has room for, out of what it is made of.
pub fn decode_into(algorithm: Algorithm, input: &[u8], data: &mut [u8]) -> (r: PosixResult<()>)
    requires
        algorithm != Algorithm::Lz4 ==> old(data)@.len() <= input@.len(),
    ensures
        match unpacked(algorithm, input@, old(data)@.len() as int) {
            Ok(d) => r == Ok::<(), Errno>(()) && final(data)@ == d,
            Err(e) => {
                let d = lz4::decode(input@, old(data)@.len());
                &&& r == Err::<(), Errno>(e)
                &&& final(data)@ == d.out + old(data)@.skip(d.out.len() as int)
            },
        },
{
    let len: usize = data.len();
    if algorithm == Algorithm::Lz4 {
        let produced: usize = lz4::decompress_partial(input, data)?;
        if produced != len {
            return Err(Errno::EIO);
        }
        assert(data@ =~= lz4::decode(input@, len as nat).out);
        return Ok(());
    }
    let mut i: usize = 0;
    while i < len
        invariant
            i <= len == data@.len() <= input@.len(),
            forall|k: int| 0 <= k < i ==> data@[k] == input@[k],
        decreases len - i,
    {
        data[i] = input[i];
        i = i + 1;
    }
    assert(data@ =~= input@.take(len as int));
    Ok(())
}

/// Decodes the front of an extent out of the bytes of its physical cluster. The result takes
/// memory, and where there is none, that is the answer.
pub fn decode_extent(sb: &SuperBlock, map: &Mapping, raw: &[u8], target: Off) -> (r: PosixResult<
    Vec<u8>,
>)
    requires
        sb.blkszbits < 64,
        raw@.len() == map.physical.len,
    ensures
        ({
            ||| match decoded(*sb, *map, raw@, target) {
                Ok(d) => r matches Ok(v) && v@ == d,
                Err(e) => r == Err::<Vec<u8>, Errno>(e),
            }
            ||| {
                &&& extent_input(*sb, *map, raw@) is Ok
                &&& r == Err::<Vec<u8>, Errno>(Errno::ENOMEM)
                &&& alloc_helper::memory_refused()
            }
        }),
{
    let input: &[u8] = extent_block(sb, map, raw)?;
    let len: u64 = bytes::min_u64(bytes::max_u64(target, 1), map.logical.len);
    if len > usize::MAX as u64 {
        proof {
            alloc_helper::lemma_no_memory_for(len as int);
        }
        return Err(Errno::ENOMEM);
    }
    let mut data: Vec<u8> = alloc_helper::zeroed(len as usize)?;
    decode_into(map.algorithm, input, data.as_mut_slice())?;
    Ok(data)
}

/// Decodes the front of an extent out of what a device delivered when it was asked for the whole
/// physical cluster: `delivered` is its answer, and `raw` the room that it had. A failure is handed
/// on, and a cluster that is not there as a whole is corrupt.
pub fn decode_delivered(
    sb: &SuperBlock,
    map: &Mapping,
    raw: &[u8],
    delivered: PosixResult<u64>,
    target: Off,
) -> (r: PosixResult<Vec<u8>>)
    requires
        sb.blkszbits < 64,
        raw@.len() == map.physical.len,
    ensures
        match delivered {
            Err(e) => r == Err::<Vec<u8>, Errno>(e),
            Ok(n) => if n != map.physical.len {
                r == Err::<Vec<u8>, Errno>(Errno::EUCLEAN)
            } else {
                ||| match decoded(*sb, *map, raw@, target) {
                    Ok(d) => r matches Ok(v) && v@ == d,
                    Err(e) => r == Err::<Vec<u8>, Errno>(e),
                }
                ||| {
                    &&& extent_input(*sb, *map, raw@) is Ok
                    &&& r == Err::<Vec<u8>, Errno>(Errno::ENOMEM)
                    &&& alloc_helper::memory_refused()
                }
            },
        },
{
    let n: u64 = delivered?;
    if n != map.physical.len {
        return Err(Errno::EUCLEAN);
    }
    decode_extent(sb, map, raw, target)
}

/// Whether a physical cluster has a size that the image allows.
pub fn check_plen(sb: &SuperBlock, compr: Option<&CompressionInfo>, plen: Off) -> (r: bool)
    requires
        sb.blkszbits < 64,
    ensures
        r == plen_allowed(*sb, deref(compr), plen),
{
    let blksz: Off = sb.blksz();
    proof {
        superblock::lemma_block_split(plen, sb.blkszbits);
    }
    if plen == 0 || plen > Z_EROFS_PCLUSTER_MAX_SIZE || plen & (blksz - 1) != 0 {
        return false;
    }
    match compr {
        None => true,
        Some(compr) => {
            let blks: u16 = if compr.lz4_max_pclusterblks == 0 {
                1
            } else {
                compr.lz4_max_pclusterblks
            };
            match (blks as u64).checked_mul(blksz) {
                Some(most) => plen <= most,
                None => true,
            }
        },
    }
}

impl DecodedExtent {
    /// The bytes.
    pub closed spec fn bytes(&self) -> Seq<u8> {
        self.data@
    }

    /// Where in the file they start.
    pub closed spec fn start(&self) -> int {
        self.logical_start as int
    }

    #[verifier::type_invariant]
    closed spec fn inv(&self) -> bool {
        self.logical_start + self.data@.len() <= u64::MAX
    }

    /// Reads an extent and decodes the first `target` bytes of it. That takes memory, and where
    /// there is none, that is the answer.
    pub fn load<B: Backend + ?Sized>(
        sb: &SuperBlock,
        backend: &B,
        compr: Option<&CompressionInfo>,
        map: &Mapping,
        target: Off,
    ) -> (r: PosixResult<Self>)
        requires
            sb.blkszbits < 64,
            map.valid(),
        ensures
            ({
                ||| match extent_data(*sb, deref(compr), backend.image(), *map, target) {
                    Ok(d) => r matches Ok(ext) && ext.bytes() == d && ext.start()
                        == map.logical.start && d.len() == out_len(*map, target),
                    Err(e) => r == Err::<Self, Errno>(e),
                }
                ||| {
                    &&& plen_allowed(*sb, deref(compr), map.physical.len)
                    &&& r == Err::<Self, Errno>(Errno::ENOMEM)
                    &&& alloc_helper::memory_refused()
                }
            }),
    {
        let plen: Off = map.physical.len;
        if !check_plen(sb, compr, plen) {
            return Err(Errno::EUCLEAN);
        }
        let mut raw: Vec<u8> = alloc_helper::zeroed(plen as usize)?;
        let delivered = backend.fill(raw.as_mut_slice(), map.device_id as i32, map.physical.start);
        proof {
            if delivered == Ok::<u64, Errno>(plen) {
                let b = (backend.image())(
                    map.device_id as i32,
                    map.physical.start,
                    plen as nat,
                )->Ok_0;
                assert(raw@ =~= b);
            }
            law_decoded_len(*sb, *map, raw@, target);
        }
        let data: Vec<u8> = decode_delivered(sb, map, raw.as_slice(), delivered, target)?;
        Ok(DecodedExtent { data, logical_start: map.logical.start })
    }

    /// Where in the file the bytes end.
    fn logical_end(&self) -> (r: Off)
        ensures
            r == self.start() + self.bytes().len(),
    {
        proof {
            use_type_invariant(self);
        }
        self.logical_start + self.data.len() as Off
    }

    /// Whether the bytes reach to the place `end` of the file.
    pub fn covers(&self, end: Off) -> (r: bool)
        ensures
            r == (end <= self.start() + self.bytes().len()),
    {
        end <= self.logical_end()
    }

    /// How many bytes there are.
    pub fn data_len(&self) -> (r: Off)
        ensures
            r == self.bytes().len(),
    {
        self.data.len() as Off
    }

    /// Copies at most `max` bytes from the place `from` of the file on. The copy takes memory, and
    /// where there is none, that is the answer.
    pub fn take(&self, from: Off, max: Off) -> (r: PosixResult<Vec<u8>>)
        ensures
            ({
                let end = self.start() + self.bytes().len();
                if from < self.start() || from > end {
                    r == Err::<Vec<u8>, Errno>(Errno::EUCLEAN)
                } else {
                    match r {
                        Ok(v) => v@ == self.bytes().subrange(
                            from - self.start(),
                            from - self.start() + bytes::least(end - from, max as int),
                        ),
                        Err(e) => e == Errno::ENOMEM && alloc_helper::memory_refused(),
                    }
                }
            }),
    {
        proof {
            use_type_invariant(self);
        }
        let end: Off = self.logical_end();
        if from < self.logical_start || from > end {
            return Err(Errno::EUCLEAN);
        }
        assert(end - self.logical_start == self.data.len());
        let len: usize = bytes::min_u64(end - from, max) as usize;
        let start: usize = (from - self.logical_start) as usize;
        alloc_helper::copied(&self.data.as_slice()[start..start + len])
    }
}

/// What an optional reference refers to.
pub open spec fn deref<T>(o: Option<&T>) -> Option<T> {
    match o {
        Some(t) => Some(*t),
        None => None,
    }
}

/// What is to be handed out next.
#[derive(Debug, Clone, Copy, PartialEq, Eq, Structural)]
pub enum Chunk {
    /// The bytes of a device.
    Raw { device_id: i32, start: Off, len: Off },
    /// The bytes of the current extent, by their place in the file.
    Decoded { from: Off, len: Off },
}

/// How much of an extent to decode: what is needed, but no less than a chunk and than twice what
/// there was before, and no more than there is.
pub open spec fn decode_goal(logical_len: int, needed: int, cached: int) -> int {
    bytes::least(
        bytes::greatest(bytes::greatest(needed, DECODE_CHUNK as int), cached * 2),
        logical_len,
    )
}

/// How much of an extent to decode.
pub fn decode_target(logical_len: Off, needed: Off, cached: Off) -> (r: Off)
    ensures
        r == decode_goal(logical_len as int, needed as int, cached as int),
{
    let doubled: Off = cached.saturating_add(cached);
    bytes::min_u64(bytes::max_u64(bytes::max_u64(needed, DECODE_CHUNK), doubled), logical_len)
}

/// What is decoded of an extent is enough, at least twice what there was before as long as the
/// extent is not exhausted, and never more than the extent.
pub proof fn law_decoding_doubles(logical_len: int, needed: int, cached: int)
    requires
        0 <= needed <= logical_len,
        0 <= cached <= logical_len,
    ensures
        needed <= decode_goal(logical_len, needed, cached) <= logical_len,
        decode_goal(logical_len, needed, cached) >= 2 * cached || decode_goal(
            logical_len,
            needed,
            cached,
        ) == logical_len,
        decode_goal(logical_len, needed, cached) >= 0x1_0000 || decode_goal(
            logical_len,
            needed,
            cached,
        ) == logical_len,
        ({
            let goal = decode_goal(logical_len, needed, cached);
            goal == needed || goal == 2 * cached || goal <= 0x1_0000 || goal == logical_len <= 2
                * cached
        }),
{
}

/// How far handing out the bytes of a file has come.
#[verifier::ext_equal]
pub struct BufferState {
    /// How the image is compressed.
    pub compr: Option<CompressionInfo>,
    /// The place of the file that is handed out next.
    pub pending: Off,
    /// The extent at hand, and the front of it.
    pub current: Option<(Mapping, Seq<u8>)>,
}

impl BufferState {
    /// The extent at hand has begun before the next place, and at most as much of it is decoded as
    /// there is.
    pub open spec fn valid(self) -> bool {
        self.current matches Some((map, data)) ==> {
            &&& map.valid()
            &&& map.logical.start <= self.pending
            &&& data.len() <= map.logical.len
        }
    }

    /// The same place, without an extent at hand.
    pub open spec fn dropped(self) -> BufferState {
        BufferState { current: None, ..self }
    }

    /// Where the next chunk of an extent ends: with the block or with the extent.
    pub open spec fn chunk_end(self, sb: SuperBlock, map: Mapping) -> int {
        bytes::least(
            (self.pending as int / sb.spec_blksz() + 1) * sb.spec_blksz(),
            map.logical_end(),
        )
    }

    /// How much of the extent is wanted for a chunk that ends at `end`.
    pub open spec fn goal(self, map: Mapping, data: Seq<u8>, end: int) -> Off {
        decode_goal(
            map.logical.len as int,
            end - map.logical.start,
            data.len() as int,
        ) as Off
    }

    /// Whether handing out on has to read more of the extent at hand.
    pub open spec fn must_decode(self, sb: SuperBlock) -> bool {
        &&& self.current matches Some((map, data))
        &&& self.pending < map.logical_end()
        &&& (self.pending as int / sb.spec_blksz() + 1) * sb.spec_blksz() <= u64::MAX
        &&& map.logical.start + data.len() < self.chunk_end(sb, map)
        &&& plen_allowed(sb, self.compr, map.physical.len)
    }

    /// Hands out on from the extent at hand: the rest of the block, or nothing if the extent is
    /// exhausted, which is then dropped. A block whose end is beyond the address space is corrupt.
    pub open spec fn advance(self, sb: SuperBlock, image: Image) -> (
        BufferState,
        PosixResult<Option<Chunk>>,
    ) {
        match self.current {
            None => (self, Ok(None)),
            Some((map, data)) => if self.pending >= map.logical_end() {
                (self.dropped(), Ok(None))
            } else if (self.pending as int / sb.spec_blksz() + 1) * sb.spec_blksz() > u64::MAX {
                (self.dropped(), Err(Errno::EUCLEAN))
            } else {
                let end = self.chunk_end(sb, map);
                let chunk = Chunk::Decoded {
                    from: self.pending,
                    len: (end - self.pending) as Off,
                };
                if end <= map.logical.start + data.len() {
                    (BufferState { pending: end as Off, ..self }, Ok(Some(chunk)))
                } else {
                    match extent_data(sb, self.compr, image, map, self.goal(map, data, end)) {
                        Err(e) => (self.dropped(), Err(e)),
                        Ok(more) => (
                            BufferState {
                                pending: end as Off,
                                current: Some((map, more)),
                                ..self
                            },
                            Ok(Some(chunk)),
                        ),
                    }
                }
            },
        }
    }

    /// How much of a mapping that is not compressed is handed out: the rest of its block.
    pub open spec fn raw_len(sb: SuperBlock, map: Mapping) -> int {
        bytes::least(
            map.physical.len as int,
            sb.spec_blksz() - map.physical.start as int % sb.spec_blksz(),
        )
    }

    /// How much of a new extent is decoded at first.
    pub open spec fn first_goal(self, sb: SuperBlock, map: Mapping) -> Off {
        decode_goal(
            map.logical.len as int,
            bytes::least(self.pending - map.logical.start + sb.spec_blksz(), u64::MAX as int),
            0,
        ) as Off
    }

    /// Takes a new mapping. What is not compressed is handed out as it is; an extent is decoded.
    pub open spec fn feed(self, sb: SuperBlock, image: Image, map: Mapping) -> (
        BufferState,
        PosixResult<Option<Chunk>>,
    ) {
        if map.logical.start > self.pending {
            (self, Err(Errno::EUCLEAN))
        } else if map.algorithm == Algorithm::Raw {
            let len = BufferState::raw_len(sb, map);
            if len == 0 {
                (self, Err(Errno::EUCLEAN))
            } else {
                (
                    BufferState { pending: (self.pending + len) as Off, ..self },
                    Ok(
                        Some(
                            Chunk::Raw {
                                device_id: map.device_id as i32,
                                start: map.physical.start,
                                len: len as Off,
                            },
                        ),
                    ),
                )
            }
        } else {
            match extent_data(sb, self.compr, image, map, self.first_goal(sb, map)) {
                Err(e) => (self, Err(e)),
                Ok(data) => (BufferState { current: Some((map, data)), ..self }, Ok(None)),
            }
        }
    }

    /// Whether taking a new mapping has to read an extent.
    pub open spec fn feed_decodes(self, sb: SuperBlock, map: Mapping) -> bool {
        &&& map.logical.start <= self.pending
        &&& map.algorithm != Algorithm::Raw
        &&& plen_allowed(sb, self.compr, map.physical.len)
    }

    /// Whether a new mapping can be taken: an extent ends within the address space, and so does
    /// what is handed out of a mapping that is not compressed.
    pub open spec fn takes(self, sb: SuperBlock, map: Mapping) -> bool {
        if map.algorithm == Algorithm::Raw {
            map.logical.start <= self.pending ==> self.pending + BufferState::raw_len(sb, map)
                <= u64::MAX
        } else {
            map.valid()
        }
    }
}

/// The bytes of an extent are handed out one block after the other: a chunk starts at the next
/// place, is not empty, does not reach over the end of a block, and is covered by what is decoded.
pub proof fn law_advance_is_contiguous(st: BufferState, sb: SuperBlock, image: Image)
    requires
        sb.blkszbits < 64,
        st.valid(),
    ensures
        ({
            let (next, r) = st.advance(sb, image);
            &&& next.valid()
            &&& next.compr == st.compr
            &&& match r {
                Ok(Some(Chunk::Raw { .. })) => false,
                Ok(Some(Chunk::Decoded { from, len })) => {
                    &&& from == st.pending
                    &&& len > 0
                    &&& next.pending == from + len
                    &&& (from + len - 1) / sb.spec_blksz() == from as int / sb.spec_blksz()
                    &&& ({
                        ||| (from + len) % power2::pow2(sb.blkszbits as nat) as int == 0
                        ||| st.current matches Some((m, _)) && from + len == m.logical.start
                            + m.logical.len
                    })
                    &&& next.current matches Some((map, data)) && {
                        &&& st.current matches Some((m, _)) && m == map
                        &&& map.logical.start <= from
                        &&& from + len <= map.logical.start + data.len()
                    }
                },
                Ok(None) => {
                    &&& next == st.dropped()
                    &&& st.current matches Some((m, _)) ==> m.logical.start + m.logical.len
                        <= st.pending
                },
                Err(_) => next == st.dropped(),
            }
        }),
{
    superblock::lemma_block_split(st.pending, sb.blkszbits);
    let size = sb.spec_blksz();
    let nr = st.pending as int / size;
    assert((nr + 1) * size == nr * size + size) by (nonlinear_arith);
    if let (next, Ok(Some(Chunk::Decoded { from, len }))) = st.advance(sb, image) {
        let (map, data) = st.current->0;
        let end = st.chunk_end(sb, map);
        vstd::arithmetic::div_mod::lemma_mod_multiples_basic(nr + 1, size);
        assert((end - 1) / size == nr) by {
            vstd::arithmetic::div_mod::lemma_fundamental_div_mod_converse(
                end - 1,
                size,
                nr,
                end - 1 - nr * size,
            );
        }
        if end > map.logical.start + data.len() {
            let goal = st.goal(map, data, end);
            lemma_extent_len(sb, st.compr, image, map, goal);
        }
    }
}

/// A mapping that is not compressed is handed out from the next place on, and an extent is at
/// hand once it is taken; what is refused changes nothing.
pub proof fn law_feed_is_contiguous(st: BufferState, sb: SuperBlock, image: Image, map: Mapping)
    requires
        sb.blkszbits < 64,
        st.valid(),
        st.takes(sb, map),
    ensures
        ({
            let (next, r) = st.feed(sb, image, map);
            &&& next.valid()
            &&& next.compr == st.compr
            &&& match r {
                Ok(Some(Chunk::Raw { device_id, start, len })) => {
                    &&& map.algorithm == Algorithm::Raw
                    &&& device_id == map.device_id
                    &&& start == map.physical.start
                    &&& 0 < len <= map.physical.len
                    &&& (start + len - 1) / sb.spec_blksz() == start as int / sb.spec_blksz()
                    &&& len == map.physical.len || (start + len) % power2::pow2(
                        sb.blkszbits as nat,
                    ) as int == 0
                    &&& next == BufferState { pending: next.pending, ..st }
                    &&& next.pending == st.pending + len
                },
                Ok(Some(Chunk::Decoded { .. })) => false,
                Ok(None) => {
                    &&& next.pending == st.pending
                    &&& next.current matches Some((m, _)) && m == map
                },
                Err(e) => {
                    &&& next == st
                    &&& map.algorithm == Algorithm::Raw ==> map.logical.start > st.pending
                        || map.physical.len == 0
                    &&& map.logical.start > st.pending || map.algorithm == Algorithm::Raw ==> e
                        == Errno::EUCLEAN
                },
            }
            &&& map.logical.start > st.pending ==> r == Err::<Option<Chunk>, Errno>(Errno::EUCLEAN)
        }),
{
    superblock::lemma_block_split(map.physical.start, sb.blkszbits);
    let size = sb.spec_blksz();
    let start = map.physical.start;
    let nr = start as int / size;
    if map.logical.start <= st.pending {
        if map.algorithm == Algorithm::Raw {
            let len = BufferState::raw_len(sb, map);
            assert((nr + 1) * size == nr * size + size) by (nonlinear_arith);
            vstd::arithmetic::div_mod::lemma_mod_multiples_basic(nr + 1, size);
            if len > 0 {
                vstd::arithmetic::div_mod::lemma_fundamental_div_mod_converse(
                    start + len - 1,
                    size,
                    nr,
                    start + len - 1 - nr * size,
                );
            }
        } else {
            lemma_extent_len(sb, st.compr, image, map, st.first_goal(sb, map));
        }
    }
}

/// What the map of a compressed file says of a place can be read: handing out from that place on
/// takes the extent, and its physical cluster has a size that the format allows.
pub proof fn law_mapped_extent_is_taken(
    st: BufferState,
    sb: SuperBlock,
    image: Image,
    inode: InodeInfo,
    nid: Nid,
)
    ensures
        zmap::mapped(sb, image, inode, nid, st.pending) matches Ok(map) ==> {
            &&& st.takes(sb, map)
            &&& map.logical.start <= st.pending
            &&& plen_allowed(sb, None, map.physical.len)
        },
{
    zmap::law_mapped_extent(sb, image, inode, nid, st.pending);
}

/// Reading less of an extent yields the front of what reading all of it yields.
pub proof fn law_extent_front(
    sb: SuperBlock,
    compr: Option<CompressionInfo>,
    image: Image,
    map: Mapping,
    target: Off,
)
    ensures
        extent_data(sb, compr, image, map, map.logical.len) matches Ok(whole) ==> {
            &&& whole.len() == map.logical.len
            &&& extent_data(sb, compr, image, map, target) == Ok::<Seq<u8>, Errno>(
                whole.take(out_len(map, target)),
            )
        },
{
    if let Ok(whole) = extent_data(sb, compr, image, map, map.logical.len) {
        let raw = image(map.device_id as i32, map.physical.start, map.physical.len as nat)->Ok_0;
        law_decoded_len(sb, map, raw, map.logical.len);
        if target <= map.logical.len {
            law_decoded_prefix(sb, map, raw, target, map.logical.len);
        } else {
            law_decoded_prefix(sb, map, raw, map.logical.len, target);
            assert(whole.take(out_len(map, target)) =~= whole);
            assert(decoded(sb, map, raw, target) == decoded(sb, map, raw, map.logical.len));
        }
    }
}

/// What is read of an extent is as long as was asked for.
proof fn lemma_extent_len(
    sb: SuperBlock,
    compr: Option<CompressionInfo>,
    image: Image,
    map: Mapping,
    target: Off,
)
    ensures
        extent_data(sb, compr, image, map, target) matches Ok(d) ==> d.len() == out_len(
            map,
            target,
        ),
{
    if let Ok(raw) = image(map.device_id as i32, map.physical.start, map.physical.len as nat) {
        if raw.len() == map.physical.len {
            law_decoded_len(sb, map, raw, target);
        }
    }
}

/// Hands out the bytes of a file block by block, from the mappings that it is fed.
pub struct MapBufferState<'a> {
    compr: Option<&'a CompressionInfo>,
    pending: Off,
    current: Option<(Mapping, DecodedExtent)>,
}

impl<'a> MapBufferState<'a> {
    /// How far handing out has come.
    pub closed spec fn state(&self) -> BufferState {
        BufferState {
            compr: deref(self.compr),
            pending: self.pending,
            current: match self.current {
                Some((map, ext)) => Some((map, ext.bytes())),
                None => None,
            },
        }
    }

    /// The extent at hand is that of its mapping.
    pub closed spec fn valid(&self) -> bool {
        &&& self.state().valid()
        &&& self.current matches Some((map, ext)) ==> ext.start() == map.logical.start
    }

    /// Begins at the place `offset` of the file.
    pub fn new(compr: Option<&'a CompressionInfo>, offset: Off) -> (r: Self)
        ensures
            r.valid(),
            r.state().valid(),
            r.state() == (BufferState { compr: deref(compr), pending: offset, current: None }),
    {
        MapBufferState { compr, pending: offset, current: None }
    }

    /// Hands out on from the extent at hand. `None` asks for the next mapping.
    pub fn advance<B: Backend + ?Sized>(&mut self, sb: &SuperBlock, backend: &B) -> (r:
        PosixResult<Option<Chunk>>)
        requires
            old(self).valid(),
            sb.blkszbits < 64,
        ensures
            final(self).valid(),
            final(self).state().valid(),
            ({
                ||| (final(self).state(), r) == old(self).state().advance(*sb, backend.image())
                ||| {
                    &&& old(self).state().must_decode(*sb)
                    &&& r == Err::<Option<Chunk>, Errno>(Errno::ENOMEM)
                    &&& alloc_helper::memory_refused()
                    &&& final(self).state() == old(self).state().dropped()
                }
            }),
    {
        let (map, ext) = match self.current.take() {
            None => {
                return Ok(None);
            },
            Some(cur) => cur,
        };
        let ghost st = old(self).state();
        let pending: Off = self.pending;
        let extent_end: Off = map.logical.start + map.logical.len;
        if pending >= extent_end {
            return Ok(None);
        }
        let access = sb.blk_access(pending);
        proof {
            superblock::lemma_block_split(pending, sb.blkszbits);
            let size = sb.spec_blksz();
            assert((pending as int / size + 1) * size == (pending as int / size) * size + size)
                by (nonlinear_arith);
        }
        let block_end: Off = match pending.checked_add(access.len) {
            Some(end) => end,
            None => {
                return Err(Errno::EUCLEAN);
            },
        };
        let end: Off = bytes::min_u64(block_end, extent_end);
        assert(end == st.chunk_end(*sb, map));
        let len: Off = end - pending;
        if ext.covers(end) {
            self.pending = end;
            self.current = Some((map, ext));
            return Ok(Some(Chunk::Decoded { from: pending, len }));
        }
        let target: Off = decode_target(
            map.logical.len,
            end - map.logical.start,
            ext.data_len(),
        );
        let more: DecodedExtent = DecodedExtent::load(sb, backend, self.compr, &map, target)?;
        self.pending = end;
        self.current = Some((map, more));
        Ok(Some(Chunk::Decoded { from: pending, len }))
    }

    /// Takes a new mapping. `None` means that an extent is at hand now.
    pub fn feed<B: Backend + ?Sized>(&mut self, sb: &SuperBlock, backend: &B, map: Mapping) -> (r:
        PosixResult<Option<Chunk>>)
        requires
            old(self).valid(),
            sb.blkszbits < 64,
            old(self).state().takes(*sb, map),
        ensures
            final(self).valid(),
            final(self).state().valid(),
            ({
                ||| (final(self).state(), r) == old(self).state().feed(
                    *sb,
                    backend.image(),
                    map,
                )
                ||| {
                    &&& old(self).state().feed_decodes(*sb, map)
                    &&& r == Err::<Option<Chunk>, Errno>(Errno::ENOMEM)
                    &&& alloc_helper::memory_refused()
                    &&& final(self).state() == old(self).state()
                }
            }),
    {
        if map.logical.start > self.pending {
            return Err(Errno::EUCLEAN);
        }
        match map.algorithm {
            Algorithm::Raw => {
                let access = sb.blk_access(map.physical.start);
                let len: Off = bytes::min_u64(map.physical.len, access.len);
                if len == 0 {
                    return Err(Errno::EUCLEAN);
                }
                self.pending = self.pending + len;
                Ok(
                    Some(
                        Chunk::Raw {
                            device_id: map.device_id as i32,
                            start: map.physical.start,
                            len,
                        },
                    ),
                )
            },
            _ => {
                let needed: Off = (self.pending - map.logical.start).saturating_add(sb.blksz());
                let target: Off = decode_target(map.logical.len, needed, 0);
                let ext: DecodedExtent = DecodedExtent::load(
                    sb,
                    backend,
                    self.compr,
                    &map,
                    target,
                )?;
                self.current = Some((map, ext));
                Ok(None)
            },
        }
    }

    /// Copies the bytes of a chunk of the extent at hand. The copy takes memory, and where there
    /// is none, that is the answer.
    pub fn take(&self, from: Off, len: Off) -> (r: PosixResult<Vec<u8>>)
        requires
            self.valid(),
        ensures
            match self.state().current {
                None => r == Err::<Vec<u8>, Errno>(Errno::EUCLEAN),
                Some((map, data)) => {
                    let start = map.logical.start;
                    if from < start || from > start + data.len() {
                        r == Err::<Vec<u8>, Errno>(Errno::EUCLEAN)
                    } else {
                        match r {
                            Ok(v) => v@ == data.subrange(
                                from - start,
                                from - start + bytes::least(
                                    start + data.len() - from,
                                    len as int,
                                ),
                            ),
                            Err(e) => e == Errno::ENOMEM && alloc_helper::memory_refused(),
                        }
                    }
                },
            },
    {
        match &self.current {
            None => Err(Errno::EUCLEAN),
            Some((_, ext)) => ext.take(from, len),
        }
    }
}

/// What is decoded already takes no memory to hand out, and neither does a mapping that is not
/// compressed.
pub proof fn law_what_is_at_hand_takes_no_memory(st: BufferState, sb: SuperBlock, map: Mapping)
    ensures
        st.current is None ==> !st.must_decode(sb),
        st.current matches Some((m, data)) ==> data.len() >= m.logical.len ==> !st.must_decode(sb),
        map.algorithm == Algorithm::Raw ==> !st.feed_decodes(sb, map),
{
}

/// What goes wrong while an extent is handed out: its block ends beyond the address space, which is
/// corrupt, or more of the extent is wanted than is at hand, and it cannot be decoded. Nothing goes
/// wrong with what is at hand already.
pub proof fn law_failures_of_handing_out(st: BufferState, sb: SuperBlock, image: Image, e: Errno)
    requires
        sb.blkszbits < 64,
        st.valid(),
        st.advance(sb, image).1 == Err::<Option<Chunk>, Errno>(e),
    ensures
        st.current matches Some((m, data)) && {
            &&& st.pending < m.logical.start + m.logical.len
            &&& {
                ||| e == Errno::EUCLEAN && st.pending + power2::pow2(sb.blkszbits as nat) > u64::MAX
                ||| data.len() < m.logical.len && exists|target: Off| #[trigger]
                    extent_data(sb, st.compr, image, m, target) == Err::<Seq<u8>, Errno>(e)
            }
        },
{
    superblock::lemma_block_split(st.pending, sb.blkszbits);
    let size = sb.spec_blksz();
    let nr = st.pending as int / size;
    assert((nr + 1) * size == nr * size + size) by (nonlinear_arith);
    let (map, data) = st.current->0;
    if (nr + 1) * size <= u64::MAX {
        let goal = st.goal(map, data, st.chunk_end(sb, map));
        assert(extent_data(sb, st.compr, image, map, goal) == Err::<Seq<u8>, Errno>(e));
    }
}

/// A new extent is refused for one reason only: it cannot be decoded.
pub proof fn law_failures_of_taking_an_extent(
    st: BufferState,
    sb: SuperBlock,
    image: Image,
    map: Mapping,
)
    requires
        map.logical.start <= st.pending,
        map.algorithm != Algorithm::Raw,
    ensures
        match st.feed(sb, image, map).1 {
            Ok(chunk) => chunk is None,
            Err(e) => exists|target: Off| #[trigger]
                extent_data(sb, st.compr, image, map, target) == Err::<Seq<u8>, Errno>(e),
        },
{
    if let Err(e) = st.feed(sb, image, map).1 {
        let goal = st.first_goal(sb, map);
        assert(extent_data(sb, st.compr, image, map, goal) == Err::<Seq<u8>, Errno>(e));
    }
}

/// What is at hand of an extent once it is taken is its front, decoded, and enough of it for the
/// block that is handed out next.
pub proof fn law_new_extent_covers_the_next_block(
    st: BufferState,
    sb: SuperBlock,
    image: Image,
    map: Mapping,
)
    requires
        sb.blkszbits < 64,
        map.logical.start <= st.pending,
        map.algorithm != Algorithm::Raw,
        st.feed(sb, image, map).1 is Ok,
    ensures
        st.feed(sb, image, map).0.current matches Some((m, data)) && {
            &&& m == map
            &&& data.len() <= map.logical.len
            &&& data.len() == map.logical.len || map.logical.start + data.len() >= st.pending
                + power2::pow2(sb.blkszbits as nat)
            &&& exists|target: Off| #[trigger]
                extent_data(sb, st.compr, image, map, target) == Ok::<Seq<u8>, Errno>(data)
        },
{
    let goal = st.first_goal(sb, map);
    superblock::lemma_block_split(0, sb.blkszbits);
    lemma_extent_len(sb, st.compr, image, map, goal);
    let (_, data) = st.feed(sb, image, map).0.current->0;
    assert(extent_data(sb, st.compr, image, map, goal) == Ok::<Seq<u8>, Errno>(data));
}

/// What is at hand of an extent stays its front, decoded, while it is handed out, and never gets
/// less.
pub proof fn law_extent_at_hand_stays_decoded(
    st: BufferState,
    sb: SuperBlock,
    image: Image,
    target: Off,
)
    requires
        sb.blkszbits < 64,
        st.valid(),
        st.current matches Some((map, data)) && extent_data(sb, st.compr, image, map, target)
            == Ok::<Seq<u8>, Errno>(data),
    ensures
        st.advance(sb, image).0.current matches Some((m, more)) ==> {
            &&& st.current matches Some((map, data)) && m == map && data.len() <= more.len()
            &&& exists|t: Off| #[trigger]
                extent_data(sb, st.compr, image, m, t) == Ok::<Seq<u8>, Errno>(more)
        },
{
    let (map, data) = st.current->0;
    let end = st.chunk_end(sb, map);
    let goal = st.goal(map, data, end);
    lemma_extent_len(sb, st.compr, image, map, goal);
    if let Some((m, more)) = st.advance(sb, image).0.current {
        if end <= map.logical.start + data.len() {
            assert(extent_data(sb, st.compr, image, m, target) == Ok::<Seq<u8>, Errno>(more));
        } else {
            assert(extent_data(sb, st.compr, image, m, goal) == Ok::<Seq<u8>, Errno>(more));
        }
    }
}

} // verus!

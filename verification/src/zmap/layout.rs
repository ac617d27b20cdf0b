//! Where the map header and the index of a compressed inode stand, and what their bytes say.

use crate::bytes;
use crate::errnos::Errno;
use crate::inode::{InodeInfo, Layout};
use crate::map::Mapping;
use crate::superblock;
use crate::superblock::SuperBlock;
use crate::zmap;
use crate::zmap::{LclusterView, MapContext, MapState, Region};
use crate::{Nid, Off};
use vstd::arithmetic::power2;
use vstd::prelude::*;

verus! {

/// Where an inode and its attributes end. The inodes of an image stand one behind the other in
/// slots of 32 bytes, from the metadata area on. A short inode takes one slot and a long one two,
/// and attributes take eight bytes and four more for each slot of theirs.
pub open spec fn inode_end(sb: SuperBlock, inode: InodeInfo, nid: Nid) -> int {
    let slot = sb.meta_blkaddr * power2::pow2(sb.blkszbits as nat) + 32 * nid;
    let (size, icount) = match inode {
        InodeInfo::Extended(i) => (64int, i.i_xattr_icount as int),
        InodeInfo::Compact(i) => (32int, i.i_xattr_icount as int),
    };
    if icount == 0 {
        slot + size
    } else {
        slot + size + 8 + 4 * icount
    }
}

/// The map header stands on the first multiple of eight behind the inode and its attributes.
pub proof fn law_header_stands_behind_the_inode(sb: SuperBlock, inode: InodeInfo, nid: Nid)
    requires
        inode_end(sb, inode, nid) + 7 <= u64::MAX,
    ensures
        zmap::header_pos(sb, inode, nid) % 8 == 0,
        inode_end(sb, inode, nid) <= zmap::header_pos(sb, inode, nid) < inode_end(sb, inode, nid)
            + 8,
{
    assert(nid * 32 == 32 * nid);
}

/// The compact index stands right behind the map header, which takes eight bytes, and the full
/// index another eight bytes further.
pub proof fn law_index_stands_behind_the_header(ctx: MapContext)
    requires
        zmap::header_pos(ctx.sb, ctx.inode, ctx.nid) + 16 <= u64::MAX,
    ensures
        ctx.index_base() == zmap::header_pos(ctx.sb, ctx.inode, ctx.nid) + 8,
        ctx.full_index_base() == zmap::header_pos(ctx.sb, ctx.inode, ctx.nid) + 16,
{
}

/// A file has as many clusters as it takes to hold it, and none that it does not reach into.
pub proof fn law_clusters_cover_the_file(ctx: MapContext)
    requires
        ctx.inode.spec_file_size() + power2::pow2(ctx.sb.blkszbits as nat) <= u64::MAX,
    ensures
        ctx.inode.spec_file_size() <= ctx.totalidx() * power2::pow2(ctx.sb.blkszbits as nat),
        ctx.totalidx() > 0 ==> (ctx.totalidx() - 1) * power2::pow2(ctx.sb.blkszbits as nat)
            < ctx.inode.spec_file_size(),
{
    let unit = power2::pow2(ctx.sb.blkszbits as nat) as int;
    power2::lemma_pow2_pos(ctx.sb.blkszbits as nat);
    let end = ctx.inode.spec_file_size() + unit - 1;
    vstd::arithmetic::div_mod::lemma_fundamental_div_mod(end, unit);
    vstd::arithmetic::div_mod::lemma_mod_bound(end, unit);
    let n = end / unit;
    assert(unit * n == n * unit) by (nonlinear_arith);
    assert((n - 1) * unit == n * unit - unit) by (nonlinear_arith);
}

/// How many bytes the compact entry of a cluster takes.
pub open spec fn entry_size(ctx: MapContext, lcn: u64) -> int {
    if ctx.compact_place(lcn).1 == 1 {
        2
    } else {
        4
    }
}

/// The entries of a compact index follow one another without a gap, from its start on. Each takes
/// two bytes or four.
pub proof fn law_compact_entries_follow_one_another(ctx: MapContext, lcn: u64)
    requires
        lcn < u64::MAX,
    ensures
        ctx.compact_place(0).0 == 0,
        ctx.compact_place(lcn).1 == 1 || ctx.compact_place(lcn).1 == 2,
        ctx.compact_place((lcn + 1) as u64).0 == ctx.compact_place(lcn).0 + entry_size(ctx, lcn),
{
}

/// The clusters of a file can be counted.
proof fn lemma_clusters_bounded(ctx: MapContext)
    ensures
        ctx.totalidx() <= u64::MAX,
{
    let unit = power2::pow2(ctx.sb.blkszbits as nat) as int;
    power2::lemma_pow2_pos(ctx.sb.blkszbits as nat);
    let end = bytes::least(ctx.inode.spec_file_size() + unit - 1, u64::MAX as int);
    vstd::arithmetic::div_mod::lemma_div_is_ordered_by_denominator(end, 1, unit);
}

/// The index stands on a multiple of eight.
proof fn lemma_index_is_aligned(ctx: MapContext)
    requires
        zmap::header_pos(ctx.sb, ctx.inode, ctx.nid) + 8 <= u64::MAX,
    ensures
        ctx.index_base() % 8 == 0,
        ctx.index_base() >= 0,
{
}

/// The entries of four bytes before the first multiple of 32 end there.
proof fn lemma_initial(base: int)
    requires
        base % 8 == 0,
    ensures
        ({
            let initial = (32 - base % 32) / 4 % 8;
            &&& (base + 4 * initial) % 32 == 0
            &&& initial % 2 == 0
            &&& 0 <= initial < 8
        }),
{
}

/// Rounding down to a multiple of sixteen.
proof fn lemma_rounded_down(n: int)
    requires
        n >= 0,
    ensures
        (n / 16 * 16) % 16 == 0,
        0 <= n / 16 * 16 <= n,
{
}

/// Where entry `r` of a row of entries of two bytes stands in its region.
proof fn lemma_two_byte_place(start: int, r: int, count: int)
    requires
        start % 32 == 0,
        count % 16 == 0,
        0 <= r < count,
    ensures
        ({
            let pos = start + 2 * r;
            let k = pos % 32 / 2;
            &&& pos % 2 == 0
            &&& 0 <= k <= r
            &&& r - k + 16 <= count
        }),
{
    let pos = start + 2 * r;
    let q = r / 16;
    let k = r % 16;
    assert(r == 16 * q + k);
    assert(start == start / 32 * 32);
    vstd::arithmetic::div_mod::lemma_fundamental_div_mod_converse(pos, 32, start / 32 + q, 2 * k);
    assert(pos % 32 == 2 * k);
    assert(count == count / 16 * 16);
    assert(q < count / 16);
}

/// Where a row of regions of entries of two bytes ends.
proof fn lemma_two_byte_end(start: int, count: int)
    requires
        start % 32 == 0,
        count % 16 == 0,
    ensures
        (start + 2 * count) % 32 == 0,
{
}

/// Where entry `r` of a row of entries of four bytes stands in its region.
proof fn lemma_four_byte_place(start: int, r: int)
    requires
        start % 8 == 0,
        0 <= r,
    ensures
        ({
            let pos = start + 4 * r;
            let k = pos % 8 / 4;
            &&& pos % 4 == 0
            &&& 0 <= k <= r
            &&& k == r % 2
        }),
{
    let pos = start + 4 * r;
    let q = r / 2;
    let k = r % 2;
    assert(r == 2 * q + k);
    assert(start == start / 8 * 8);
    vstd::arithmetic::div_mod::lemma_fundamental_div_mod_converse(pos, 8, start / 8 + q, 4 * k);
}

/// Entries come in whole regions: an entry of two bytes is one of sixteen of its size that fill 32
/// bytes from a multiple of 32 on, and all sixteen are entries of the file. An entry of four bytes
/// is one of two of its size that fill eight bytes from a multiple of eight on.
pub proof fn law_compact_entries_fill_regions(ctx: MapContext, lcn: u64)
    requires
        zmap::header_pos(ctx.sb, ctx.inode, ctx.nid) + 8 <= u64::MAX,
        lcn < ctx.totalidx(),
        lcn < u64::MAX,
    ensures
        ({
            let (place, shift) = ctx.compact_place(lcn);
            let pos = ctx.index_base() + place;
            if shift == 1 {
                let k = pos % 32 / 2;
                &&& pos % 2 == 0
                &&& k <= lcn
                &&& lcn - k + 16 <= ctx.totalidx()
                &&& forall|i: int|
                    0 <= i < 16 ==> #[trigger] ctx.compact_place((lcn - k + i) as u64) == (
                        place - 2 * k + 2 * i,
                        1u32,
                    )
            } else {
                let k = pos % 8 / 4;
                &&& pos % 4 == 0
                &&& k <= lcn
                &&& forall|i: int|
                    0 <= i < 2 ==> #[trigger] ctx.compact_place((lcn - k + i) as u64) == (
                        place - 4 * k + 4 * i,
                        2u32,
                    )
            }
        }),
{
    lemma_index_is_aligned(ctx);
    let base = ctx.index_base();
    let initial = ctx.compacted_4b_initial();
    let two = ctx.compacted_2b();
    lemma_initial(base);
    let (place, shift) = ctx.compact_place(lcn);
    let pos = base + place;
    if shift == 1 {
        let k = pos % 32 / 2;
        let r = lcn - initial;
        lemma_rounded_down(ctx.totalidx() - initial);
        lemma_clusters_bounded(ctx);
        lemma_two_byte_place(base + 4 * initial, r, two);
        assert(pos == base + 4 * initial + 2 * r);
        assert forall|i: int| 0 <= i < 16 implies #[trigger] ctx.compact_place(
            (lcn - k + i) as u64,
        ) == (place - 2 * k + 2 * i, 1u32) by {
            assert(0 <= lcn - k + i <= u64::MAX);
            assert(initial <= lcn - k + i < initial + two);
        }
    } else {
        let k = pos % 8 / 4;
        if lcn < initial {
            lemma_four_byte_place(base, lcn as int);
            assert forall|i: int| 0 <= i < 2 implies #[trigger] ctx.compact_place(
                (lcn - k + i) as u64,
            ) == (place - 4 * k + 4 * i, 2u32) by {
                assert(0 <= lcn - k + i < initial);
            }
        } else {
            let r = lcn - initial - two;
            if two > 0 {
                lemma_rounded_down(ctx.totalidx() - initial);
            }
            lemma_two_byte_end(base + 4 * initial, two);
            lemma_four_byte_place(base + 4 * initial + 2 * two, r);
            assert(pos == base + 4 * initial + 2 * two + 4 * r);
            assert forall|i: int| 0 <= i < 2 implies #[trigger] ctx.compact_place(
                (lcn - k + i) as u64,
            ) == (place - 4 * k + 4 * i, 2u32) by {
                assert(initial + two <= lcn - k + i <= u64::MAX);
            }
        }
    }
}

/// Entries take two bytes where the header allows it and as many as possible do: only those before
/// the first multiple of 32, and at the end those that no longer fill a region, take four.
pub proof fn law_compact_entries_are_small_where_they_may_be(ctx: MapContext, lcn: u64)
    requires
        zmap::header_pos(ctx.sb, ctx.inode, ctx.nid) + 8 <= u64::MAX,
        lcn < ctx.totalidx(),
    ensures
        ctx.info.advise & 1 == 0 ==> entry_size(ctx, lcn) == 4,
        4 * lcn < (32 - ctx.index_base() % 32) % 32 ==> entry_size(ctx, lcn) == 4,
        entry_size(ctx, lcn) == 4 && ctx.info.advise & 1 != 0 ==> 4 * lcn < (32 - ctx.index_base()
            % 32) % 32 || ctx.totalidx() - lcn <= 15,
{
    lemma_index_is_aligned(ctx);
}

/// A place in a block is a place in a region of the block.
proof fn lemma_place_in_block(pos: int, bits: nat, unit: int)
    requires
        0 <= pos,
        bits >= 5,
        unit == 8 || unit == 32,
    ensures
        ({
            let blksz = power2::pow2(bits) as int;
            &&& blksz >= 32
            &&& pos % blksz % unit == pos % unit
            &&& 0 <= pos % blksz - pos % unit
            &&& pos % blksz - pos % unit + unit <= blksz
        }),
{
    let blksz = power2::pow2(bits) as int;
    power2::lemma2_to64();
    power2::lemma_pow2_adds(5, (bits - 5) as nat);
    power2::lemma_pow2_pos((bits - 5) as nat);
    let m = power2::pow2((bits - 5) as nat) as int;
    assert(blksz == 32 * m);
    let parts = if unit == 32 {
        m
    } else {
        4 * m
    };
    assert(blksz == unit * parts);
    assert(parts > 0);
    vstd::arithmetic::div_mod::lemma_mod_mod(pos, unit, parts);
    vstd::arithmetic::div_mod::lemma_mod_bound(pos, blksz);
    let place = pos % blksz;
    let start = place - pos % unit;
    assert(place % unit == pos % unit);
    if unit == 32 {
        assert(start % 32 == 0);
        assert(blksz % 32 == 0);
    } else {
        assert(start % 8 == 0);
        assert(blksz % 8 == 0);
    }
}

/// The region that the compact entry of a cluster is one of, if `b` is the block that it stands in.
pub open spec fn region_around(ctx: MapContext, lcn: u64, b: Seq<u8>) -> Region {
    let pos = ctx.index_base() + ctx.compact_place(lcn).0;
    let at = pos % power2::pow2(ctx.sb.blkszbits as nat) as int;
    let big_pcluster = ctx.info.advise & 2 != 0;
    let lbits = ctx.info.logical_clusterbits as nat;
    if entry_size(ctx, lcn) == 2 {
        Region {
            bytes: b.subrange(at - pos % 32, at - pos % 32 + 32),
            encodebits: 14,
            lbits,
            vcnt: 16,
            big_pcluster,
        }
    } else {
        Region {
            bytes: b.subrange(at - pos % 8, at - pos % 8 + 8),
            encodebits: 16,
            lbits,
            vcnt: 2,
            big_pcluster,
        }
    }
}

/// The compact entry of a cluster is read from where it stands: the block around it is read from
/// the image, and the entry is the one of its region that its place is the place of.
pub proof fn law_compact_entry_is_read_from_its_place(
    ctx: MapContext,
    st: MapState,
    lcn: u64,
    lookahead: bool,
    b: Seq<u8>,
)
    requires
        ctx.inode.spec_layout() == Layout::CompressedCompact,
        5 <= ctx.sb.blkszbits < 64,
        ctx.index_base() + 4 * ctx.totalidx() <= u64::MAX,
        lcn < ctx.totalidx(),
        entry_size(ctx, lcn) == 2 ==> ctx.info.logical_clusterbits == 12,
        ctx.info.logical_clusterbits <= 14,
        ({
            let pos = ctx.index_base() + ctx.compact_place(lcn).0;
            let blksz = power2::pow2(ctx.sb.blkszbits as nat) as int;
            &&& (ctx.image)(0, (pos - pos % blksz) as Off, blksz as nat) == Ok::<
                Seq<u8>,
                Errno,
            >(b)
            &&& b.len() == blksz
        }),
    ensures
        ({
            let pos = ctx.index_base() + ctx.compact_place(lcn).0;
            let i = if entry_size(ctx, lcn) == 2 {
                pos % 32 / 2
            } else {
                pos % 8 / 4
            };
            let (after, r) = ctx.load(st, lcn, lookahead);
            match region_around(ctx, lcn, b).unpacked(i, lookahead) {
                Err(e) => after == st && r == Err::<(), Errno>(e),
                Ok(u) => {
                    &&& r == Ok::<(), Errno>(())
                    &&& after.lcn == lcn
                    &&& after.cur == u.lcluster
                    &&& after.compressedblks == match u.compressedblks {
                        Some(n) => n,
                        None => st.compressedblks,
                    }
                    &&& after.head == st.head
                    &&& after.partial_ref == st.partial_ref
                },
            }
        }),
{
    reveal(MapContext::load);
    let pos = ctx.index_base() + ctx.compact_place(lcn).0;
    let unit = if entry_size(ctx, lcn) == 2 {
        32int
    } else {
        8int
    };
    assert(ctx.index_base() >= 0);
    assert(0 <= ctx.compact_place(lcn).0 <= 4 * lcn);
    assert(ctx.compacted_2b() <= ctx.totalidx());
    assert(ctx.compact_reads(lcn));
    lemma_place_in_block(pos, ctx.sb.blkszbits as nat, unit);
    assert(pos as Off == pos);
}

/// Entries of two bytes are for clusters of 4 KiB only.
pub proof fn law_small_entries_are_for_small_clusters(
    ctx: MapContext,
    st: MapState,
    lcn: u64,
    lookahead: bool,
)
    requires
        ctx.inode.spec_layout() == Layout::CompressedCompact,
        ctx.index_base() + 4 * ctx.totalidx() <= u64::MAX,
        lcn < ctx.totalidx(),
        entry_size(ctx, lcn) == 2,
        ctx.info.logical_clusterbits != 12,
        ({
            let pos = ctx.index_base() + ctx.compact_place(lcn).0;
            let blksz = power2::pow2(ctx.sb.blkszbits as nat) as int;
            &&& (ctx.image)(0, (pos - pos % blksz) as Off, blksz as nat) matches Ok(b)
            &&& b.len() == blksz
        }),
    ensures
        ctx.load(st, lcn, lookahead) == (st, Err::<(), Errno>(Errno::EOPNOTSUPP)),
{
    reveal(MapContext::load);
    assert(ctx.index_base() >= 0);
    assert(0 <= ctx.compact_place(lcn).0 <= 4 * lcn);
    assert(ctx.compacted_2b() <= ctx.totalidx());
    assert(ctx.compact_reads(lcn));
}

/// Behind the last cluster there are no entries, and a block of the index that is not there as a
/// whole holds none. A failure to read is handed on.
pub proof fn law_compact_entry_that_is_not_there(
    ctx: MapContext,
    st: MapState,
    lcn: u64,
    lookahead: bool,
)
    requires
        ctx.inode.spec_layout() == Layout::CompressedCompact,
        ctx.index_base() + 4 * ctx.totalidx() <= u64::MAX,
    ensures
        ({
            let r = ctx.load(st, lcn, lookahead).1;
            let pos = ctx.index_base() + ctx.compact_place(lcn).0;
            let blksz = power2::pow2(ctx.sb.blkszbits as nat) as int;
            if lcn >= ctx.totalidx() {
                r == Err::<(), Errno>(Errno::EUCLEAN)
            } else {
                match (ctx.image)(0, (pos - pos % blksz) as Off, blksz as nat) {
                    Err(e) => r == Err::<(), Errno>(e),
                    Ok(b) => b.len() != blksz ==> r == Err::<(), Errno>(Errno::EUCLEAN),
                }
            }
        }),
{
    reveal(MapContext::load);
    assert(ctx.index_base() >= 0);
    if lcn < ctx.totalidx() {
        assert(0 <= ctx.compact_place(lcn).0 <= 4 * lcn);
        assert(ctx.compacted_2b() <= ctx.totalidx());
        assert(ctx.compact_reads(lcn));
    }
}

/// The full entry of a head: its kind and whether it refers to a part of an extent, where its data
/// starts, and its block.
pub open spec fn head_entry(kind: u8, partial: bool, ofs: u16, pblk: u32) -> Seq<u8> {
    let advise = if partial {
        0x8000 + kind
    } else {
        kind as int
    };
    bytes::packed16(advise as u16) + bytes::packed16(ofs) + bytes::packed32(pblk)
}

/// The full entry of a non-head: its kind, a field that means nothing, and the distances.
pub open spec fn nonhead_entry(ignored: u16, delta0: u16, delta1: u16) -> Seq<u8> {
    bytes::packed16(2) + bytes::packed16(ignored) + bytes::packed16(delta0) + bytes::packed16(
        delta1,
    )
}

/// Where the full entry of a cluster stands.
pub open spec fn full_place(ctx: MapContext, lcn: u64) -> int {
    zmap::header_pos(ctx.sb, ctx.inode, ctx.nid) + 16 + 8 * lcn
}

/// The fields of eight bytes that were written one after the other.
proof fn lemma_fields(a: u16, b: u16, c: u16, d: u16)
    ensures
        ({
            let s = bytes::packed16(a) + bytes::packed16(b) + bytes::packed16(c) + bytes::packed16(
                d,
            );
            &&& s.len() == 8
            &&& bytes::le16(s, 0) == a
            &&& bytes::le16(s, 2) == b
            &&& bytes::le16(s, 4) == c
            &&& bytes::le16(s, 6) == d
        }),
{
}

/// The fields of a head's entry.
proof fn lemma_head_fields(a: u16, b: u16, c: u32)
    ensures
        ({
            let s = bytes::packed16(a) + bytes::packed16(b) + bytes::packed32(c);
            &&& s.len() == 8
            &&& bytes::le16(s, 0) == a
            &&& bytes::le16(s, 2) == b
            &&& bytes::le32(s, 4) == c
        }),
{
    reveal(bytes::packed32);
    let front = bytes::packed16(a) + bytes::packed16(b);
    bytes::law_packed_fields_are_read_back(front, Seq::empty(), c as u64);
    let s = front + bytes::packed32(c);
    assert(s + Seq::<u8>::empty() =~= s);
}

/// A head that was written into a full index is the head that is loaded. One whose data starts
/// behind its cluster is corrupt.
pub proof fn law_full_head_is_read_back(
    ctx: MapContext,
    st: MapState,
    lcn: u64,
    lookahead: bool,
    kind: u8,
    partial: bool,
    ofs: u16,
    pblk: u32,
)
    requires
        ctx.inode.spec_layout() == Layout::CompressedFull,
        kind == 0 || kind == 1 || kind == 3,
        full_place(ctx, lcn) <= u64::MAX,
        (ctx.image)(0, full_place(ctx, lcn) as Off, 8) == Ok::<Seq<u8>, Errno>(
            head_entry(kind, partial, ofs, pblk),
        ),
    ensures
        ({
            let (after, r) = ctx.load(st, lcn, lookahead);
            if ofs < power2::pow2(ctx.info.logical_clusterbits as nat) {
                &&& r == Ok::<(), Errno>(())
                &&& after.lcn == lcn
                &&& after.cur == (LclusterView {
                    kind,
                    clusterofs: ofs,
                    delta0: 0,
                    delta1: 0,
                    pblk,
                })
                &&& after.partial_ref == (st.partial_ref || partial)
                &&& after.head == st.head
                &&& after.compressedblks == st.compressedblks
            } else {
                r == Err::<(), Errno>(Errno::EUCLEAN)
            }
        }),
{
    reveal(MapContext::load);
    let advise = (if partial {
        0x8000 + kind
    } else {
        kind as int
    }) as u16;
    assert(advise & 3 == advise % 4) by (bit_vector);
    assert(advise & 0x8000 != 0 <==> advise >= 0x8000) by (bit_vector);
    lemma_head_fields(advise, ofs, pblk);
}

/// A non-head that was written into a full index is the non-head that is loaded, with both of its
/// distances.
pub proof fn law_full_nonhead_is_read_back(
    ctx: MapContext,
    st: MapState,
    lcn: u64,
    lookahead: bool,
    ignored: u16,
    delta0: u16,
    delta1: u16,
)
    requires
        ctx.inode.spec_layout() == Layout::CompressedFull,
        ctx.info.logical_clusterbits <= 14,
        delta0 < 0x800,
        full_place(ctx, lcn) <= u64::MAX,
        (ctx.image)(0, full_place(ctx, lcn) as Off, 8) == Ok::<Seq<u8>, Errno>(
            nonhead_entry(ignored, delta0, delta1),
        ),
    ensures
        ({
            let (after, r) = ctx.load(st, lcn, lookahead);
            &&& r == Ok::<(), Errno>(())
            &&& after.lcn == lcn
            &&& after.cur.kind == 2
            &&& after.cur.clusterofs == power2::pow2(ctx.info.logical_clusterbits as nat)
            &&& after.cur.delta0 == delta0
            &&& after.cur.delta1 == delta1
            &&& after.cur.pblk == 0
            &&& after.partial_ref == st.partial_ref
            &&& after.head == st.head
            &&& after.compressedblks == st.compressedblks
        }),
{
    reveal(MapContext::load);
    assert(2u16 & 3 == 2) by (bit_vector);
    assert(delta0 < 0x800 ==> delta0 & 0x800 == 0) by (bit_vector);
    superblock::lemma_block_size(ctx.info.logical_clusterbits);
    if ctx.info.logical_clusterbits < 14 {
        power2::lemma_pow2_strictly_increases(ctx.info.logical_clusterbits as nat, 14);
    }
    power2::lemma2_to64();
    lemma_fields(2, ignored, delta0, delta1);
}

/// A count of blocks that was written into a full index is the count that is loaded, if the header
/// allows physical clusters of several blocks. Its entry is one behind its head.
pub proof fn law_full_count_is_read_back(
    ctx: MapContext,
    st: MapState,
    lcn: u64,
    lookahead: bool,
    ignored: u16,
    count: u16,
    delta1: u16,
)
    requires
        ctx.inode.spec_layout() == Layout::CompressedFull,
        count < 0x800,
        full_place(ctx, lcn) <= u64::MAX,
        (ctx.image)(0, full_place(ctx, lcn) as Off, 8) == Ok::<Seq<u8>, Errno>(
            nonhead_entry(ignored, (0x800 + count) as u16, delta1),
        ),
    ensures
        ({
            let (after, r) = ctx.load(st, lcn, lookahead);
            if ctx.info.advise & 6 != 0 {
                &&& r == Ok::<(), Errno>(())
                &&& after.lcn == lcn
                &&& after.cur.kind == 2
                &&& after.cur.delta0 == 1
                &&& after.cur.delta1 == delta1
                &&& after.compressedblks == count
            } else {
                r == Err::<(), Errno>(Errno::EUCLEAN)
            }
        }),
{
    reveal(MapContext::load);
    let d0 = (0x800 + count) as u16;
    assert(2u16 & 3 == 2) by (bit_vector);
    assert(d0 & 0x800 != 0 && d0 & !0x800u16 == count) by (bit_vector)
        requires
            count < 0x800,
            d0 == 0x800 + count,
    ;
    assert(2u16 | 4u16 == 6) by (bit_vector);
    lemma_fields(2, ignored, d0, delta1);
}

/// A full entry that is not there as a whole is corrupt, and so is one that has no place in the
/// address space. A failure to read is handed on.
pub proof fn law_full_entry_that_is_not_there(
    ctx: MapContext,
    st: MapState,
    lcn: u64,
    lookahead: bool,
)
    requires
        ctx.inode.spec_layout() == Layout::CompressedFull,
        zmap::header_pos(ctx.sb, ctx.inode, ctx.nid) + 16 <= u64::MAX,
    ensures
        ({
            let (after, r) = ctx.load(st, lcn, lookahead);
            if full_place(ctx, lcn) > u64::MAX {
                r == Err::<(), Errno>(Errno::EUCLEAN)
            } else {
                match (ctx.image)(0, full_place(ctx, lcn) as Off, 8) {
                    Err(e) => r == Err::<(), Errno>(e),
                    Ok(b) => b.len() != 8 ==> r == Err::<(), Errno>(Errno::EUCLEAN),
                }
            }
        }),
{
    reveal(MapContext::load);
}

/// A map header: four bytes that mean nothing here, the flags, the two algorithms and the
/// logarithm of the cluster size beyond that of a block, with a bit that the file shares its data.
pub open spec fn header_bytes(ignored: Seq<u8>, advise: u16, algorithms: (u8, u8), bits: u8) -> Seq<
    u8,
> {
    ignored + bytes::packed16(advise) + seq![(algorithms.0 + 16 * algorithms.1) as u8, bits]
}

/// What a header must be like to be accepted: LZ4 for both algorithms, clusters as large as
/// blocks, data of its own, none of the flags for tails that stand elsewhere and for interlaced
/// clusters. Clusters of several blocks need the consent of the superblock, and in a compact index
/// both algorithms have to agree on them. Blocks may be 16 KiB at most.
pub open spec fn header_accepted(
    sb: SuperBlock,
    layout: Layout,
    advise: u16,
    algorithms: (u8, u8),
    bits: u8,
) -> bool {
    &&& algorithms == (0u8, 0u8)
    &&& bits < 128 && bits % 8 == 0
    &&& advise / 8 % 8 == 0
    &&& advise / 2 % 4 != 0 ==> sb.feature_incompat as u32 & 2 != 0
    &&& layout == Layout::CompressedCompact ==> (advise / 2 % 4 == 0 || advise / 2 % 4 == 3)
    &&& sb.blkszbits <= 14
}

/// A header that was written is the header that is read, if it is accepted, and none else is. One
/// that contradicts the superblock or itself is corrupt, the others are not supported.
pub proof fn law_header_is_read_back(
    sb: SuperBlock,
    layout: Layout,
    ignored: Seq<u8>,
    advise: u16,
    algorithms: (u8, u8),
    bits: u8,
)
    requires
        ignored.len() == 4,
        algorithms.0 < 16,
        algorithms.1 < 16,
    ensures
        ({
            let b = header_bytes(ignored, advise, algorithms, bits);
            match zmap::header_info(sb, layout, b) {
                Ok(info) => {
                    &&& header_accepted(sb, layout, advise, algorithms, bits)
                    &&& info.advise == advise
                    &&& info.algorithmtype == (0u8, 0u8)
                    &&& info.logical_clusterbits == sb.blkszbits
                },
                Err(e) => {
                    let unknown = algorithms != (0u8, 0u8) || bits >= 128 || bits % 8 != 0 || advise
                        / 8 % 8 != 0;
                    let contradictory = {
                        ||| advise / 2 % 4 != 0 && sb.feature_incompat as u32 & 2 == 0
                        ||| layout == Layout::CompressedCompact && (advise / 2 % 4 == 1 || advise
                            / 2 % 4 == 2)
                    };
                    &&& !header_accepted(sb, layout, advise, algorithms, bits)
                    &&& e == if contradictory && !unknown {
                        Errno::EUCLEAN
                    } else {
                        Errno::EOPNOTSUPP
                    }
                },
            }
        }),
{
    let b = header_bytes(ignored, advise, algorithms, bits);
    let both = (algorithms.0 + 16 * algorithms.1) as u8;
    let lo = algorithms.0;
    let hi = algorithms.1;
    bytes::law_packed_fields_are_read_back(ignored, seq![both, bits], advise as u64);
    assert(b =~= ignored + bytes::packed16(advise) + seq![both, bits]);
    assert(b[6] == both && b[7] == bits);
    assert(both & 0xf == lo && both >> 4 == hi) by (bit_vector)
        requires
            lo < 16,
            hi < 16,
            both == lo + 16 * hi,
    ;
    assert(bits >> 7 != 0 <==> bits >= 128) by (bit_vector);
    assert(bits & 7 == bits % 8) by (bit_vector);
    assert(0x8u16 | 0x10u16 | 0x20u16 == 0x38) by (bit_vector);
    assert(advise & 0x38 != 0 <==> advise / 8 % 8 != 0) by (bit_vector);
    assert(0x2u16 | 0x4u16 == 0x6) by (bit_vector);
    assert(advise & 0x6 != 0 <==> advise / 2 % 4 != 0) by (bit_vector);
    assert((advise & 0x2 != 0) != (advise & 0x4 != 0) <==> advise / 2 % 4 == 1 || advise / 2 % 4
        == 2) by (bit_vector);
}

/// A place in a file is looked for in the index that the header describes. Behind the end of the
/// file there is nothing to look for, and without a header there is no index.
pub proof fn law_place_is_looked_for_in_the_index(ctx: MapContext, offset: Off)
    ensures
        ({
            let r = zmap::mapped(ctx.sb, ctx.image, ctx.inode, ctx.nid, offset);
            let header = zmap::zinode_info(ctx.sb, ctx.image, ctx.inode, ctx.nid);
            &&& offset >= ctx.inode.spec_file_size() ==> r == Err::<Mapping, Errno>(Errno::EUCLEAN)
            &&& offset < ctx.inode.spec_file_size() && header == Ok::<zmap::ZInfo, Errno>(ctx.info)
                ==> r == ctx.map(offset)
            &&& offset < ctx.inode.spec_file_size() ==> (header matches Err(e) ==> r == Err::<
                Mapping,
                Errno,
            >(e))
        }),
{
}

/// The header is read from its place, eight bytes of it. One that is not there as a whole is
/// corrupt, and a failure to read is handed on. Files that are not compressed have none.
pub proof fn law_header_is_read_from_its_place(ctx: MapContext)
    ensures
        ({
            let layout = ctx.inode.spec_layout();
            let pos = zmap::header_pos(ctx.sb, ctx.inode, ctx.nid);
            let r = zmap::zinode_info(ctx.sb, ctx.image, ctx.inode, ctx.nid);
            if layout != Layout::CompressedFull && layout != Layout::CompressedCompact {
                r == Err::<zmap::ZInfo, Errno>(Errno::EUCLEAN)
            } else {
                match (ctx.image)(0, pos as Off, 8) {
                    Err(e) => r == Err::<zmap::ZInfo, Errno>(e),
                    Ok(b) => if b.len() == 8 {
                        r == zmap::header_info(ctx.sb, layout, b)
                    } else {
                        r == Err::<zmap::ZInfo, Errno>(Errno::EUCLEAN)
                    },
                }
            }
        }),
{
}

/// An entry and a header in memory stand for what their fields say.
pub proof fn law_fields_in_memory(entry: zmap::Lcluster, header: zmap::ZInodeInfo)
    ensures
        entry@.kind == entry.kind,
        entry@.clusterofs == entry.clusterofs,
        entry@.delta0 == entry.delta[0],
        entry@.delta1 == entry.delta[1],
        entry@.pblk == entry.pblk,
        header@.advise == header.advise,
        header@.algorithmtype == (header.algorithmtype[0], header.algorithmtype[1]),
        header@.logical_clusterbits == header.logical_clusterbits,
{
}

/// Only compressed files have an index to load from.
pub proof fn law_other_files_have_no_index(
    ctx: MapContext,
    st: MapState,
    lcn: u64,
    lookahead: bool,
)
    requires
        ctx.inode.spec_layout() != Layout::CompressedFull,
        ctx.inode.spec_layout() != Layout::CompressedCompact,
    ensures
        ctx.load(st, lcn, lookahead) == (st, Err::<(), Errno>(Errno::EINVAL)),
{
    reveal(MapContext::load);
}

} // verus!

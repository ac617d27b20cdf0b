//! What the packed entries of a region say of each other.

use crate::bytes;
use crate::errnos::Errno;
use crate::zmap;
use crate::zmap::Region;
use vstd::arithmetic::power2;
use vstd::prelude::*;

verus! {

/// The entries of a region are read back from where they were packed: in a small region each entry
/// has sixteen bits of its own, in a large one they are fourteen bits apart. The lower bits are a
/// place or a distance, the two above them the kind.
pub proof fn law_region_entry_is_read_back(
    r: Region,
    i: int,
    below: int,
    lo: u32,
    kind: u8,
    above: int,
)
    requires
        r.valid(),
        0 <= i < r.vcnt,
        lo < power2::pow2(r.lbits),
        kind < 4,
        0 <= above,
        ({
            let bit = if r.vcnt == 2 {
                16 * i
            } else {
                14 * i
            };
            &&& 0 <= below < power2::pow2((bit % 8) as nat)
            &&& bytes::le32(r.bytes, bit / 8) == below + (lo + (kind + above * 4) * power2::pow2(
                r.lbits,
            )) * power2::pow2((bit % 8) as nat)
        }),
    ensures
        r.entry(i) == (lo, kind),
{
    let bit = if r.vcnt == 2 {
        16 * i
    } else {
        14 * i
    };
    zmap::law_packed_entry(r.bytes, bit, r.lbits, below, lo, kind, above);
    let bits = r.encodebits;
    assert(bits * i == bit) by (nonlinear_arith)
        requires
            bits == 16 && bit == 16 * i || bits == 14 && bit == 14 * i,
    ;
}

/// Blocks that are counted already are added to those that are found.
proof fn lemma_blocks_are_added(r: Region, j: int, nblk: int, more: int)
    ensures
        r.blocks_before(j, nblk + more) == match r.blocks_before(j, nblk) {
            Ok(n) => Ok::<int, Errno>(n + more),
            Err(e) => Err::<int, Errno>(e),
        },
    decreases bytes::greatest(j, 0),
{
    if j > 0 {
        let (lo, kind) = r.entry(j - 1);
        if r.big_pcluster {
            if kind != 2 {
                lemma_blocks_are_added(r, j - 1, nblk + 1, more);
            } else if lo & 0x800 != 0 {
                let n = lo & !0x800u32;
                lemma_blocks_are_added(r, j - 2, nblk + n, more);
            } else if lo > 1 {
                lemma_blocks_are_added(r, j + 1 - lo, nblk, more);
            }
        } else {
            let head = if kind == 2 {
                j - 1 - lo
            } else {
                j - 1
            };
            lemma_blocks_are_added(
                r,
                head,
                if head >= 0 {
                    nblk + 1
                } else {
                    nblk
                },
                more,
            );
        }
    }
}

/// Whether `h` and `i` are heads of a region with nothing but clusters of the extent of `h` between
/// them, each of which says how far before it `h` is. Where clusters may take several blocks, the
/// first of them holds the count `blocks` instead.
pub open spec fn neighbours(r: Region, h: int, i: int, blocks: u32) -> bool {
    &&& 0 <= h < i < r.vcnt
    &&& r.entry(h).1 != 2
    &&& r.entry(i).1 != 2
    &&& forall|k: int|
        h < k < i ==> #[trigger] r.entry(k) == (
            if r.big_pcluster && k == h + 1 {
                (0x800 + blocks) as u32
            } else {
                (k - h) as u32
            },
            2u8,
        )
}

/// What a head in a region says: where its data starts is what its entry says, and its physical
/// cluster follows that of the head before it. A cluster takes one block, or as many as the count
/// that stands behind its head says.
pub proof fn law_heads_of_a_region_follow_one_another(
    r: Region,
    h: int,
    i: int,
    blocks: u32,
    lookahead: bool,
)
    requires
        r.valid(),
        neighbours(r, h, i, blocks),
        blocks < 0x800,
    ensures
        match r.unpacked(h, lookahead) {
            Err(e) => r.unpacked(i, lookahead) == Err::<zmap::Unpacked, Errno>(e),
            Ok(before) => {
                &&& r.unpacked(i, lookahead) matches Ok(u)
                &&& u.lcluster.kind == r.entry(i).1
                &&& u.lcluster.clusterofs == r.entry(i).0
                &&& u.compressedblks is None
                &&& u.lcluster.pblk == (before.lcluster.pblk + if r.big_pcluster && h + 1 < i {
                    blocks as int
                } else {
                    1
                }) % 0x1_0000_0000
            },
        },
{
    let start: int = if r.big_pcluster {
        0
    } else {
        1
    };
    let step: int = if r.big_pcluster && h + 1 < i {
        blocks as int
    } else {
        1
    };
    zmap::lemma_region_entry_bound(r, i);
    if h + 1 < i {
        let lo = (0x800 + blocks) as u32;
        assert(lo & 0x800 != 0 && lo & !0x800u32 == blocks) by (bit_vector)
            requires
                blocks < 0x800,
                lo == 0x800 + blocks,
        ;
        let d = (i - 1 - h) as u32;
        assert(d < 0x800 ==> d & 0x800 == 0) by (bit_vector);
        assert(r.entry(i - 1).1 == 2);
        assert(r.entry(h + 1).1 == 2);
        if r.big_pcluster && h + 2 < i {
            assert(r.entry(i - 1) == (d, 2u8));
            assert(r.blocks_before(i, start) == r.blocks_before(h + 2, start));
        }
        if r.big_pcluster {
            assert(r.entry(h + 1) == (lo, 2u8));
            assert(r.blocks_before(h + 2, start) == r.blocks_before(h, start + blocks));
        } else {
            assert(r.entry(i - 1) == (d, 2u8));
            assert(r.blocks_before(i, start) == r.blocks_before(h, start + 1));
        }
    } else {
        assert(r.blocks_before(i, start) == r.blocks_before(h, start + 1));
    }
    assert(r.blocks_before(i, start) == r.blocks_before(h, start + step));
    lemma_blocks_are_added(r, h, start, step);
    if let Ok(n) = r.blocks_before(h, start) {
        lemma_modulo(r.base_pblk() + n, step);
    }
}

/// Adding before or after cutting off makes no difference.
proof fn lemma_modulo(x: int, y: int)
    ensures
        (x + y) % 0x1_0000_0000 == (x % 0x1_0000_0000 + y) % 0x1_0000_0000,
{
}

/// The physical cluster of the first head of a region: the region ends with a block number, and
/// clusters of one block count on from it. Where clusters may take several blocks, it is the block
/// of a head that the region starts with.
pub proof fn law_first_head_of_a_region(r: Region, i: int, lookahead: bool)
    requires
        r.valid(),
        0 <= i < r.vcnt,
        r.entry(i).1 != 2,
        r.big_pcluster ==> i == 0,
        forall|k: int| 0 <= k < i ==> (#[trigger] r.entry(k)).1 == 2 && r.entry(k).0 > k,
    ensures
        ({
            let base = bytes::le32(r.bytes, r.bytes.len() - 4);
            &&& r.unpacked(i, lookahead) matches Ok(u)
            &&& u.lcluster.kind == r.entry(i).1
            &&& u.lcluster.clusterofs == r.entry(i).0
            &&& u.lcluster.delta0 == 0 && u.lcluster.delta1 == 0
            &&& u.compressedblks is None
            &&& u.lcluster.pblk == if r.big_pcluster {
                base as int
            } else {
                (base + 1) % 0x1_0000_0000
            }
        }),
{
    zmap::lemma_region_entry_bound(r, i);
    let start: int = if r.big_pcluster {
        0
    } else {
        1
    };
    if i > 0 {
        assert(r.entry(i - 1).1 == 2 && r.entry(i - 1).0 > i - 1);
        assert(r.blocks_before(i - 1 - r.entry(i - 1).0, start) == Ok::<int, Errno>(start));
    }
    assert(r.blocks_before(i, start) == Ok::<int, Errno>(start));
}

/// A non-head says itself how many blocks the cluster of the head before it takes, or, unless it is
/// the last of its region, how far before it its head is.
pub proof fn law_nonhead_of_a_region(r: Region, i: int)
    requires
        r.valid(),
        0 <= i < r.vcnt,
        i < r.vcnt - 1 || r.entry(i).0 >= 0x800,
        r.entry(i).1 == 2,
        r.entry(i).0 < 0x1000,
    ensures
        ({
            let lo = r.entry(i).0;
            match r.unpacked(i, false) {
                Ok(u) => {
                    &&& u.lcluster.kind == 2
                    &&& u.lcluster.clusterofs == power2::pow2(r.lbits)
                    &&& u.lcluster.pblk == 0
                    &&& u.lcluster.delta1 == 0
                    &&& if lo < 0x800 {
                        u.lcluster.delta0 == lo && u.compressedblks is None
                    } else {
                        &&& u.lcluster.delta0 == 1 && u.compressedblks == Some((lo - 0x800) as u32)
                        &&& r.big_pcluster && lo > 0x800
                    }
                },
                Err(e) => e == Errno::EUCLEAN && lo >= 0x800 && (!r.big_pcluster || lo == 0x800),
            }
        }),
{
    let lo = r.entry(i).0;
    zmap::lemma_region_entry_bound(r, i);
    assert(lo & 0x800 == 0 <==> lo < 0x800) by (bit_vector)
        requires
            lo < 0x1000,
    ;
    assert(0x800 <= lo ==> lo & !0x800u32 == (lo - 0x800) as u32) by (bit_vector)
        requires
            lo < 0x1000,
    ;
}

/// The last entry of a region is one further from its head than the entry before it, whatever that
/// is.
pub proof fn law_last_entry_of_a_region(r: Region)
    requires
        r.valid(),
        r.entry(r.vcnt - 1).1 == 2,
        r.entry(r.vcnt - 1).0 < 0x800,
        r.entry(r.vcnt - 2).0 < 0x1000,
    ensures
        r.unpacked(r.vcnt - 1, false) matches Ok(u) && {
            &&& u.compressedblks is None
            &&& r.entry(r.vcnt - 2).1 != 2 ==> u.lcluster.delta0 == 1
            &&& r.entry(r.vcnt - 2).1 == 2 ==> match r.unpacked(r.vcnt - 2, false) {
                Ok(before) => u.lcluster.delta0 == before.lcluster.delta0 + 1,
                Err(_) => true,
            }
        },
{
    let lo = r.entry(r.vcnt - 1).0;
    let last = r.entry(r.vcnt - 2).0;
    zmap::lemma_region_entry_bound(r, r.vcnt - 1);
    zmap::lemma_region_entry_bound(r, r.vcnt - 2);
    assert(lo < 0x800 ==> lo & 0x800 == 0) by (bit_vector);
    if r.entry(r.vcnt - 2).1 == 2 {
        law_nonhead_of_a_region(r, r.vcnt - 2);
        assert(last & 0x800 == 0 <==> last < 0x800) by (bit_vector)
            requires
                last < 0x1000,
        ;
    }
}

/// Entries that are counted already are added to those that are found.
proof fn lemma_distances_are_added(r: Region, i: int, d: int)
    requires
        r.valid(),
        0 <= i < r.vcnt,
        0 <= d <= 0x100 + i,
    ensures
        zmap::la_distance(r.bytes, r.encodebits, r.lbits, r.vcnt, i, d) == match zmap::la_distance(
            r.bytes,
            r.encodebits,
            r.lbits,
            r.vcnt,
            i,
            0,
        ) {
            Ok(n) => Ok::<u16, Errno>((n + d) as u16),
            Err(e) => Err::<u16, Errno>(e),
        },
        zmap::la_distance(r.bytes, r.encodebits, r.lbits, r.vcnt, i, d) matches Ok(n) ==> n
            <= 0x4000 + r.vcnt - i + d,
    decreases r.vcnt - i,
{
    zmap::lemma_region_entry_bound(r, i);
    if r.entry(i).1 == 2 && i + 1 < r.vcnt {
        lemma_distances_are_added(r, i + 1, 0);
        lemma_distances_are_added(r, i + 1, d + 1);
        lemma_distances_are_added(r, i + 1, 1);
    }
}

/// How far ahead the next head is: from the entry right before it one step, and from every other
/// one more step than from the entry behind it. Only the last entry of a region says itself how far
/// it is, unless it is a count.
pub proof fn law_distance_to_the_next_head(r: Region, i: int)
    requires
        r.valid(),
        0 <= i < r.vcnt,
        r.entry(i).1 == 2,
        r.entry(r.vcnt - 1).0 < 0x1000,
    ensures
        ({
            let ahead = zmap::la_distance(r.bytes, r.encodebits, r.lbits, r.vcnt, i, 0);
            let lo = r.entry(i).0;
            if i + 1 < r.vcnt {
                if r.entry(i + 1).1 != 2 {
                    ahead == Ok::<u16, Errno>(1)
                } else {
                    match zmap::la_distance(r.bytes, r.encodebits, r.lbits, r.vcnt, i + 1, 0) {
                        Ok(n) => ahead == Ok::<u16, Errno>((n + 1) as u16),
                        Err(e) => ahead == Err::<u16, Errno>(e),
                    }
                }
            } else if lo >= 0x800 {
                ahead == Ok::<u16, Errno>(1)
            } else if lo == 0 {
                ahead == Err::<u16, Errno>(Errno::EUCLEAN)
            } else {
                ahead == Ok::<u16, Errno>(lo as u16)
            }
        }),
        r.unpacked(i, true) matches Ok(u) ==> zmap::la_distance(
            r.bytes,
            r.encodebits,
            r.lbits,
            r.vcnt,
            i,
            0,
        ) == Ok::<u16, Errno>(u.lcluster.delta1),
{
    zmap::lemma_region_entry_bound(r, i);
    if i + 1 < r.vcnt {
        zmap::lemma_region_entry_bound(r, i + 1);
        lemma_distances_are_added(r, i + 1, 1);
    } else {
        let lo = r.entry(i).0;
        assert(lo & 0x800 == 0 <==> lo < 0x800) by (bit_vector)
            requires
                lo < 0x1000,
        ;
    }
}

/// Looking ahead adds the distance to the next head to what an entry says, and changes nothing
/// else. Where the distance cannot be told, the entry is not read.
pub proof fn law_looking_ahead_only_adds_the_distance(r: Region, i: int)
    requires
        r.valid(),
        0 <= i < r.vcnt,
    ensures
        ({
            let ahead = zmap::la_distance(r.bytes, r.encodebits, r.lbits, r.vcnt, i, 0);
            if r.entry(i).1 != 2 {
                r.unpacked(i, true) == r.unpacked(i, false)
            } else {
                match ahead {
                    Err(e) => r.unpacked(i, true) == Err::<zmap::Unpacked, Errno>(e),
                    Ok(d) => match r.unpacked(i, false) {
                        Err(e) => r.unpacked(i, true) == Err::<zmap::Unpacked, Errno>(e),
                        Ok(u) => {
                            &&& r.unpacked(i, true) matches Ok(w)
                            &&& w.compressedblks == u.compressedblks
                            &&& w.lcluster == (zmap::LclusterView { delta1: d, ..u.lcluster })
                        },
                    },
                }
            }
        }),
{
}

/// Where clusters may take several blocks, a non-head right before a head that is neither a count
/// nor at least two entries behind its own head is corrupt, and the block of the head cannot be
/// told.
pub proof fn law_block_that_cannot_be_told(r: Region, i: int, lookahead: bool)
    requires
        r.valid(),
        r.big_pcluster,
        0 < i < r.vcnt,
        r.entry(i).1 != 2,
        r.entry(i - 1).1 == 2,
        r.entry(i - 1).0 <= 1,
    ensures
        r.unpacked(i, lookahead) == Err::<zmap::Unpacked, Errno>(Errno::EUCLEAN),
{
    let lo = r.entry(i - 1).0;
    assert(lo <= 1 ==> lo & 0x800 == 0) by (bit_vector);
}

} // verus!

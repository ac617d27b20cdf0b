//! The extents of a file whose index is consistent.
//!
//! An index can be corrupt in many ways, and then a search for a place may end in an extent that
//! does not hold it. In a consistent index heads and non-heads agree with one another. There every
//! extent that a search ends in holds the place that was asked for.

use crate::bytes;
use crate::errnos::{Errno, PosixResult};
use crate::inode::Layout;
use crate::map::{Algorithm, MapType, Mapping};
use crate::superblock;
use crate::zmap;
use crate::zmap::{
    LclusterView, MapContext, MapState, LCLUSTER_TYPE_HEAD1, LCLUSTER_TYPE_NONHEAD,
    LCLUSTER_TYPE_PLAIN, MAX_LOOKBACK_STEPS,
};
use crate::{Blk, Off};
use vstd::arithmetic::power2;
use vstd::prelude::*;

verus! {

impl MapContext {
    /// The entry of cluster `lcn`.
    pub open spec fn entry(self, lcn: int, lookahead: bool) -> PosixResult<LclusterView> {
        match self.load(self.start(), lcn as u64, lookahead) {
            (st, Ok(())) => Ok(st.cur),
            (_, Err(e)) => Err(e),
        }
    }

    /// How many logical clusters the file touches.
    pub open spec fn clusters(self) -> int {
        (self.inode.spec_file_size() + self.cluster_size() - 1) / self.cluster_size()
    }

    /// Whether an extent starts in cluster `lcn`, be it of a kind that is supported or not.
    pub open spec fn is_head(self, lcn: int) -> bool {
        self.entry(lcn, false) matches Ok(e) && e.kind != LCLUSTER_TYPE_NONHEAD
    }

    /// Whether an extent of a kind that is supported starts in cluster `lcn`.
    pub open spec fn is_supported(self, lcn: int) -> bool {
        self.entry(lcn, false) matches Ok(e) && (e.kind == LCLUSTER_TYPE_PLAIN || e.kind
            == LCLUSTER_TYPE_HEAD1)
    }

    /// Where the extent that starts in cluster `lcn` starts.
    pub open spec fn head_start(self, lcn: int) -> int {
        lcn * self.cluster_size() + self.entry(lcn, false)->Ok_0.clusterofs
    }

    /// Whether no extent starts from cluster `a` on and before cluster `b`.
    pub open spec fn headless(self, a: int, b: int) -> bool {
        forall|k: int| a <= k < b && 0 <= k < self.clusters() ==> !#[trigger] self.is_head(k)
    }

    /// Whether the entry of cluster `lcn` agrees with the others: it is a head that starts within
    /// its cluster, or a non-head that skips no head on its way back and on.
    pub open spec fn agrees(self, lcn: int) -> bool {
        &&& self.entry(lcn, false) matches Ok(back)
        &&& self.entry(lcn, true) matches Ok(on)
        &&& on.kind == back.kind
        &&& on.clusterofs == back.clusterofs
        &&& self.is_head(lcn) || {
            &&& back.kind == LCLUSTER_TYPE_NONHEAD
            &&& self.headless(lcn - back.delta0 + 1, lcn)
            &&& self.headless(lcn, lcn + on.delta1)
        }
    }

    /// Whether the index is consistent: all entries agree, and the clusters that an entry can refer
    /// to have addresses.
    pub open spec fn consistent(self) -> bool {
        &&& self.valid()
        &&& (self.clusters() + 0x1_0000) * self.cluster_size() <= u64::MAX
        &&& forall|lcn: int| 0 <= lcn < self.clusters() ==> #[trigger] self.agrees(lcn)
    }

    /// The last cluster up to `lcn` in which an extent starts, or else the first one of all.
    pub open spec fn last_head(self, lcn: int) -> int
        decreases lcn,
    {
        if lcn <= 0 || self.is_head(lcn) {
            lcn
        } else {
            self.last_head(lcn - 1)
        }
    }

    /// The first cluster from `lcn` on in which an extent starts, or the end of the file.
    pub open spec fn next_head(self, lcn: int) -> int
        decreases self.clusters() - lcn,
    {
        if lcn >= self.clusters() || self.is_head(lcn) {
            lcn
        } else {
            self.next_head(lcn + 1)
        }
    }

    /// Where the extent that starts in cluster `lcn` ends: with the next one, or with the file if
    /// that comes first.
    pub open spec fn extent_end(self, lcn: int) -> int {
        let next = self.next_head(lcn + 1);
        let size = self.inode.spec_file_size() as int;
        if next < self.clusters() {
            bytes::least(self.head_start(next), size)
        } else {
            size
        }
    }
}

/// The entry that is loaded does not depend on how far the search has come.
proof fn lemma_loaded(ctx: MapContext, st: MapState, lcn: u64, lookahead: bool)
    requires
        ctx.valid(),
    ensures
        ({
            let (next, r) = ctx.load(st, lcn, lookahead);
            match ctx.entry(lcn as int, lookahead) {
                Ok(e) => r is Ok && next.cur == e && next.lcn == lcn,
                Err(_) => r is Err,
            }
        }),
{
    zmap::law_load_is_stateless(ctx, st, ctx.start(), lcn, lookahead);
    zmap::law_loaded_entry(ctx, st, lcn, lookahead);
}

/// Behind the last head up to a cluster there is none.
proof fn lemma_last_head(ctx: MapContext, lcn: int)
    requires
        0 <= lcn < ctx.clusters(),
    ensures
        0 <= ctx.last_head(lcn) <= lcn,
        ctx.headless(ctx.last_head(lcn) + 1, lcn + 1),
    decreases lcn,
{
    if lcn > 0 && !ctx.is_head(lcn) {
        lemma_last_head(ctx, lcn - 1);
    }
}

/// Clusters without a head change nothing about the last head before them.
proof fn lemma_last_head_skips(ctx: MapContext, a: int, b: int)
    requires
        0 <= a <= b < ctx.clusters(),
        ctx.headless(a + 1, b + 1),
    ensures
        ctx.last_head(b) == ctx.last_head(a),
    decreases b - a,
{
    if a < b {
        lemma_last_head_skips(ctx, a, b - 1);
    }
}

/// The next head is not before the cluster that one looks from, and there is none before it.
proof fn lemma_next_head(ctx: MapContext, lcn: int)
    requires
        0 <= lcn <= ctx.clusters(),
    ensures
        lcn <= ctx.next_head(lcn) <= ctx.clusters(),
        ctx.next_head(lcn) < ctx.clusters() ==> ctx.is_head(ctx.next_head(lcn)),
        ctx.headless(lcn, ctx.next_head(lcn)),
    decreases ctx.clusters() - lcn,
{
    if lcn < ctx.clusters() && !ctx.is_head(lcn) {
        lemma_next_head(ctx, lcn + 1);
    }
}

/// Clusters without a head change nothing about the next head behind them.
proof fn lemma_next_head_skips(ctx: MapContext, a: int, b: int)
    requires
        0 <= a <= b <= ctx.clusters(),
        ctx.headless(a, b),
    ensures
        ctx.next_head(a) == ctx.next_head(b),
    decreases b - a,
{
    if a < b {
        assert(!ctx.is_head(a));
        lemma_next_head_skips(ctx, a + 1, b);
    }
}

/// A search that skips no head on its first step back ends in the last head.
proof fn lemma_lookback_ends_in_last_head(ctx: MapContext, st: MapState, distance: u64, steps: int)
    requires
        ctx.consistent(),
        0 <= steps,
        st.lcn < ctx.clusters(),
    ensures
        ({
            let (next, r) = ctx.lookback(st, distance, steps);
            r is Ok ==> {
                &&& st.lcn >= distance
                &&& next.lcn == ctx.last_head(st.lcn - distance)
                &&& ctx.is_supported(next.lcn as int)
                &&& ctx.entry(next.lcn as int, false) == Ok::<LclusterView, Errno>(next.cur)
                &&& next.head == next.cur.kind
            }
        }),
    decreases MAX_LOOKBACK_STEPS + 1 - steps,
{
    if st.lcn >= distance {
        let at = (st.lcn - distance) as u64;
        lemma_loaded(ctx, st, at, false);
        assert(ctx.agrees(at as int));
        let (next, r) = ctx.load(st, at, false);
        if r is Ok && next.cur.kind == LCLUSTER_TYPE_NONHEAD && next.cur.delta0 != 0 && steps + 1
            <= MAX_LOOKBACK_STEPS {
            let back = next.cur.delta0 as u64;
            lemma_lookback_ends_in_last_head(ctx, next, back, steps + 1);
            if at >= back {
                assert(!ctx.is_head(at as int));
                lemma_last_head_skips(ctx, at - back, at as int);
            }
        }
    }
}

/// The end that is found for an extent is where it ends.
proof fn lemma_decompressedlen_is_exact(
    ctx: MapContext,
    st: MapState,
    head: int,
    lcn: u64,
    steps: int,
)
    requires
        ctx.consistent(),
        0 <= steps,
        0 <= head < ctx.clusters(),
        ctx.is_head(head),
        ctx.head_start(head) <= u64::MAX,
        head <= lcn < ctx.clusters() + 0x1_0000,
        ctx.headless(head + 1, lcn as int),
    ensures
        ({
            let la = ctx.head_start(head);
            ctx.decompressedlen(st, la as Off, lcn, steps).1 matches Ok(llen) ==> la + llen
                == ctx.extent_end(head)
        }),
    decreases ctx.max_steps() + 1 - steps,
{
    let size = ctx.cluster_size();
    let n = ctx.clusters();
    let la = ctx.head_start(head) as Off;
    superblock::lemma_block_size(ctx.info.logical_clusterbits);
    assert(lcn * size <= (n + 0x1_0000) * size) by (nonlinear_arith)
        requires
            lcn <= n + 0x1_0000,
            size >= 1,
    ;
    superblock::lemma_block_mul(lcn, ctx.info.logical_clusterbits);
    lemma_clusters(ctx, lcn as int);
    lemma_head_place(ctx, head);
    if lcn >= n {
        lemma_next_head_skips(ctx, head + 1, n);
    } else {
        lemma_loaded(ctx, st, lcn, true);
        assert(ctx.agrees(lcn as int));
        let (next, r) = ctx.load(st, lcn, true);
        let is_head = next.cur.kind == LCLUSTER_TYPE_PLAIN || next.cur.kind
            == LCLUSTER_TYPE_HEAD1;
        if is_head && lcn != head {
            lemma_next_head_skips(ctx, head + 1, lcn as int);
        } else if is_head || next.cur.kind == LCLUSTER_TYPE_NONHEAD {
            let on = if is_head {
                MapState { cur: LclusterView { delta1: 1, ..next.cur }, ..next }
            } else {
                next
            };
            if on.cur.delta1 != 0 && lcn + on.cur.delta1 <= u64::MAX && steps + 1
                <= ctx.max_steps() {
                let further = (lcn + on.cur.delta1) as u64;
                assert(ctx.headless(head + 1, further as int));
                lemma_decompressedlen_is_exact(ctx, on, head, further, steps + 1);
            }
        }
    }
}

/// A cluster is one of the file exactly if it starts before the end of the file.
proof fn lemma_clusters(ctx: MapContext, lcn: int)
    requires
        ctx.valid(),
        0 <= lcn,
    ensures
        lcn < ctx.clusters() <==> lcn * ctx.cluster_size() < ctx.inode.spec_file_size(),
{
    let size = ctx.cluster_size();
    let file = ctx.inode.spec_file_size() as int;
    superblock::lemma_block_size(ctx.info.logical_clusterbits);
    let n = ctx.clusters();
    let rem = (file + size - 1) % size;
    vstd::arithmetic::div_mod::lemma_fundamental_div_mod(file + size - 1, size);
    vstd::arithmetic::div_mod::lemma_mod_bound(file + size - 1, size);
    assert(file + size - 1 == size * n + rem);
    if lcn < n {
        assert(lcn * size + size <= size * n) by (nonlinear_arith)
            requires
                lcn + 1 <= n,
                size >= 1,
        ;
    } else {
        assert(size * n <= lcn * size) by (nonlinear_arith)
            requires
                n <= lcn,
                size >= 1,
        ;
    }
}

/// An extent starts in the cluster of its head.
proof fn lemma_head_place(ctx: MapContext, head: int)
    requires
        ctx.consistent(),
        0 <= head < ctx.clusters(),
        ctx.is_head(head),
    ensures
        head * ctx.cluster_size() <= ctx.head_start(head) < (head + 1) * ctx.cluster_size(),
        ctx.head_start(head) / ctx.cluster_size() == head,
        ctx.head_start(head) <= u64::MAX,
{
    let size = ctx.cluster_size();
    superblock::lemma_block_size(ctx.info.logical_clusterbits);
    assert(head * size + size <= (ctx.clusters() + 0x1_0000) * size) by (nonlinear_arith)
        requires
            head + 1 <= ctx.clusters() + 0x1_0000,
            size >= 1,
    ;
    assert((head + 1) * size == head * size + size) by (nonlinear_arith);
    assert(head <= u64::MAX) by (nonlinear_arith)
        requires
            head * size <= u64::MAX,
            size >= 1,
            head >= 0,
    ;
    zmap::law_loaded_entry(ctx, ctx.start(), head as u64, false);
    let ofs = ctx.entry(head, false)->Ok_0.clusterofs as int;
    vstd::arithmetic::div_mod::lemma_fundamental_div_mod_converse(
        head * size + ofs,
        size,
        head,
        ofs,
    );
}

/// The head of the extent that holds the place `offset`.
pub open spec fn head_of(ctx: MapContext, offset: Off) -> int {
    let lcn = offset as int / ctx.cluster_size();
    if ctx.is_head(lcn) && ctx.head_start(lcn) > offset {
        ctx.last_head(lcn - 1)
    } else {
        ctx.last_head(lcn)
    }
}

/// Whether an extent has started at or before the place `offset`, of whatever kind it is.
pub open spec fn has_extent(ctx: MapContext, offset: Off) -> bool {
    &&& 0 <= head_of(ctx, offset)
    &&& ctx.is_head(head_of(ctx, offset))
    &&& ctx.head_start(head_of(ctx, offset)) <= offset
}

/// An extent that starts in an earlier cluster starts before the place.
proof fn lemma_earlier_head(ctx: MapContext, h: int, offset: Off)
    requires
        ctx.consistent(),
        offset < ctx.inode.spec_file_size(),
        0 <= h < offset as int / ctx.cluster_size(),
        ctx.is_head(h),
    ensures
        ctx.head_start(h) <= offset,
{
    let size = ctx.cluster_size();
    let lcn = offset as int / size;
    superblock::lemma_block_split(offset, ctx.info.logical_clusterbits);
    lemma_clusters(ctx, lcn);
    lemma_head_place(ctx, h);
    assert((h + 1) * size <= lcn * size) by (nonlinear_arith)
        requires
            h + 1 <= lcn,
            size >= 1,
    ;
}

/// Where there is a head, the last head up to a cluster behind it is one, and not before it.
proof fn lemma_last_head_from(ctx: MapContext, h: int, lcn: int)
    requires
        0 <= h <= lcn,
        ctx.is_head(h),
    ensures
        h <= ctx.last_head(lcn) <= lcn,
        ctx.is_head(ctx.last_head(lcn)),
    decreases lcn,
{
    if h < lcn && !ctx.is_head(lcn) {
        lemma_last_head_from(ctx, h, lcn - 1);
    }
}

/// At a place behind the start of an extent an extent has started.
proof fn lemma_has_extent(ctx: MapContext, h: int, offset: Off)
    requires
        ctx.consistent(),
        offset < ctx.inode.spec_file_size(),
        0 <= h < ctx.clusters(),
        ctx.is_head(h),
        ctx.head_start(h) <= offset,
    ensures
        has_extent(ctx, offset),
{
    let size = ctx.cluster_size();
    let lcn = offset as int / size;
    superblock::lemma_block_split(offset, ctx.info.logical_clusterbits);
    lemma_head_place(ctx, h);
    vstd::arithmetic::div_mod::lemma_div_is_ordered(ctx.head_start(h), offset as int, size);
    if ctx.is_head(lcn) && ctx.head_start(lcn) > offset {
        lemma_last_head_from(ctx, h, lcn - 1);
    } else {
        lemma_last_head_from(ctx, h, lcn);
    }
    if head_of(ctx, offset) < lcn {
        lemma_earlier_head(ctx, head_of(ctx, offset), offset);
    }
}

/// The extent of a place holds the place, if an extent has started by then.
proof fn lemma_head_of(ctx: MapContext, offset: Off)
    requires
        ctx.consistent(),
        offset < ctx.inode.spec_file_size(),
        has_extent(ctx, offset),
    ensures
        head_of(ctx, offset) < ctx.clusters(),
        ctx.head_start(head_of(ctx, offset)) <= offset < ctx.extent_end(head_of(ctx, offset)),
{
    let size = ctx.cluster_size();
    let lcn = offset as int / size;
    superblock::lemma_block_split(offset, ctx.info.logical_clusterbits);
    lemma_clusters(ctx, lcn);
    let h = head_of(ctx, offset);
    if ctx.is_head(lcn) && ctx.head_start(lcn) > offset {
        assert(lcn != 0);
        lemma_last_head(ctx, lcn - 1);
    } else {
        lemma_last_head(ctx, lcn);
    }
    lemma_head_place(ctx, h);
    if h < lcn {
        assert((h + 1) * size <= lcn * size) by (nonlinear_arith)
            requires
                h + 1 <= lcn,
                size >= 1,
        ;
    }
    let next = ctx.next_head(h + 1);
    lemma_next_head(ctx, h + 1);
    if next < ctx.clusters() {
        lemma_head_place(ctx, next);
        if next > lcn {
            assert((lcn + 1) * size <= next * size) by (nonlinear_arith)
                requires
                    lcn + 1 <= next,
                    size >= 1,
            ;
            assert((lcn + 1) * size == lcn * size + size) by (nonlinear_arith);
        } else {
            // The only head between the two is the one that starts behind the place.
            assert(next == lcn);
        }
    }
}

/// Where a search for a place in a consistent index ends.
proof fn lemma_found(ctx: MapContext, offset: Off)
    requires
        ctx.consistent(),
        offset < ctx.inode.spec_file_size(),
    ensures
        ctx.map(offset) matches Ok(m) ==> {
            let h = head_of(ctx, offset);
            &&& has_extent(ctx, offset)
            &&& ctx.is_supported(h)
            &&& m.logical.start == ctx.head_start(h)
            &&& m.logical.start + m.logical.len == ctx.extent_end(h)
            &&& m.physical.start == ctx.sb.spec_blkpos(ctx.entry(h, false)->Ok_0.pblk)
            &&& (m.algorithm == Algorithm::Shifted) == (ctx.entry(h, false)->Ok_0.kind
                == LCLUSTER_TYPE_PLAIN)
        },
{
    let size = ctx.cluster_size();
    let lcn = offset as int / size;
    superblock::lemma_block_split(offset, ctx.info.logical_clusterbits);
    superblock::lemma_block_size(ctx.info.logical_clusterbits);
    lemma_clusters(ctx, lcn);
    let h = head_of(ctx, offset);
    lemma_last_head(ctx, lcn);
    if lcn > 0 {
        lemma_last_head(ctx, lcn - 1);
    }
    lemma_loaded(ctx, ctx.start(), lcn as u64, false);
    assert(ctx.agrees(lcn));
    let (st, r) = ctx.load(ctx.start(), lcn as u64, false);
    if r is Ok {
        lemma_lookback_ends_in_last_head(ctx, st, 1, 0);
        lemma_lookback_ends_in_last_head(ctx, st, st.cur.delta0 as u64, 0);
        if st.cur.kind == LCLUSTER_TYPE_NONHEAD && st.cur.delta0 <= lcn {
            lemma_last_head_skips(ctx, lcn - st.cur.delta0, lcn);
        }
        let (found, fr) = ctx.find_head(st, offset as int % size);
        if fr is Ok {
            assert(found.lcn == h);
            if h < lcn {
                lemma_earlier_head(ctx, h, offset);
            }
            lemma_head_place(ctx, h);
            lemma_head_of(ctx, offset);
            assert(ctx.entry(h, false) == Ok::<LclusterView, Errno>(found.cur));
            let (next, _) = ctx.compressedlen(found);
            lemma_decompressedlen_is_exact(ctx, next, h, found.lcn, 0);
            superblock::lemma_block_size(ctx.sb.blkszbits);
            assert(0 <= found.cur.pblk * ctx.sb.spec_blksz() <= u32::MAX * 0x4000_0000)
                by (nonlinear_arith)
                requires
                    0 <= found.cur.pblk <= u32::MAX,
                    1 <= ctx.sb.spec_blksz() <= 0x4000_0000,
            ;
        }
    }
}

/// In a consistent index the extent that is found holds the place that was asked for: it starts
/// with the last head that does not start behind the place, and ends with the next head or with
/// the file. Where no extent has started by then, or the last one is of a kind that is not
/// supported, none is found.
pub proof fn law_extent_holds_the_place(ctx: MapContext, offset: Off)
    requires
        ctx.consistent(),
        offset < ctx.inode.spec_file_size(),
    ensures
        ctx.map(offset) matches Ok(m) ==> {
            let h = head_of(ctx, offset);
            &&& has_extent(ctx, offset)
            &&& ctx.is_supported(h)
            &&& m.logical.start == ctx.head_start(h)
            &&& m.logical.start + m.logical.len == ctx.extent_end(h)
            &&& m.logical.start <= offset < m.logical.start + m.logical.len
            &&& m.logical.start + m.logical.len <= ctx.inode.spec_file_size()
        },
{
    lemma_found(ctx, offset);
    if ctx.map(offset) is Ok {
        lemma_head_of(ctx, offset);
    }
}

/// In a consistent index the extents that are found for two places do not overlap: where one holds
/// both places, they are the same extent.
pub proof fn law_found_extents_agree(ctx: MapContext, a: Off, b: Off, m: Mapping, w: Mapping)
    requires
        ctx.consistent(),
        a < ctx.inode.spec_file_size(),
        b < ctx.inode.spec_file_size(),
        ctx.map(a) == Ok::<Mapping, Errno>(m),
        ctx.map(b) == Ok::<Mapping, Errno>(w),
        m.logical.start <= b < m.logical.start + m.logical.len,
    ensures
        w.logical == m.logical,
        w.physical.start == m.physical.start,
        w.algorithm == m.algorithm,
{
    lemma_found(ctx, a);
    lemma_found(ctx, b);
    lemma_head_of(ctx, a);
    lemma_head_of(ctx, b);
    let h = head_of(ctx, a);
    let k = head_of(ctx, b);
    if h < k {
        lemma_extents_apart(ctx, h, k);
    } else if k < h {
        lemma_extents_apart(ctx, k, h);
    }
}

/// An extent ends before the next one starts.
proof fn lemma_extents_apart(ctx: MapContext, h: int, k: int)
    requires
        ctx.consistent(),
        0 <= h < k < ctx.clusters(),
        ctx.is_head(h),
        ctx.is_head(k),
    ensures
        ctx.extent_end(h) <= ctx.head_start(k),
{
    let size = ctx.cluster_size();
    superblock::lemma_block_size(ctx.info.logical_clusterbits);
    let next = ctx.next_head(h + 1);
    lemma_next_head(ctx, h + 1);
    assert(next <= k);
    lemma_head_place(ctx, next);
    lemma_head_place(ctx, k);
    if next < k {
        assert((next + 1) * size <= k * size) by (nonlinear_arith)
            requires
                next + 1 <= k,
                size >= 1,
        ;
    }
}

impl MapContext {
    /// The count of compressed blocks that the entry of cluster `lcn` holds, if it holds one: then
    /// it makes no difference what was counted before.
    pub open spec fn block_count(self, lcn: int) -> Option<Blk> {
        let counted = MapState { compressedblks: 1, ..self.start() };
        let a = self.load(self.start(), lcn as u64, false).0.compressedblks;
        let b = self.load(counted, lcn as u64, false).0.compressedblks;
        if a == b {
            Some(a)
        } else {
            None
        }
    }

    /// Whether a search can pass by cluster `lcn`: its entry is not a partial reference, a non-head
    /// sends the search back, and a count of compressed blocks stands right behind a head.
    pub open spec fn passable(self, lcn: int) -> bool {
        &&& !self.load(self.start(), lcn as u64, false).0.partial_ref
        &&& self.entry(lcn, false) matches Ok(e) ==> e.kind == LCLUSTER_TYPE_NONHEAD ==> e.delta0
            > 0
        &&& self.block_count(lcn) is Some ==> self.is_head(lcn - 1)
    }

    /// Whether a search can pass by every cluster of the file.
    pub open spec fn traceable(self) -> bool {
        forall|lcn: int| 0 <= lcn < self.clusters() ==> #[trigger] self.passable(lcn)
    }

    /// How often a search that has come to cluster `lcn` is sent on until it comes to a head.
    pub open spec fn hops(self, lcn: int) -> int
        decreases lcn,
    {
        let back = self.entry(lcn, false)->Ok_0.delta0;
        if lcn <= 0 || self.is_head(lcn) || back == 0 || back > lcn {
            0
        } else {
            1 + self.hops(lcn - back)
        }
    }

    /// How often the search for the place `offset` is sent on.
    pub open spec fn search_hops(self, offset: Off) -> int {
        let lcn = offset as int / self.cluster_size();
        if !self.is_head(lcn) {
            self.hops(lcn - self.entry(lcn, false)->Ok_0.delta0)
        } else if self.head_start(lcn) > offset {
            self.hops(lcn - 1)
        } else {
            0
        }
    }

    /// Whether the search for the place `offset` can come to an end: the cluster of the place is
    /// not the head of a kind that is not supported, and the search is not sent on too often.
    pub open spec fn searchable(self, offset: Off) -> bool {
        let lcn = offset as int / self.cluster_size();
        &&& self.is_head(lcn) ==> self.is_supported(lcn)
        &&& self.search_hops(offset) <= 256
    }

    /// Whether the search has come to the head in cluster `h`, and no count of compressed blocks
    /// was met but the one of that extent.
    pub open spec fn at_head(self, st: MapState, h: int) -> bool {
        &&& st.lcn == h
        &&& self.entry(h, false) == Ok::<LclusterView, Errno>(st.cur)
        &&& st.head == st.cur.kind
        &&& !st.partial_ref
        &&& self.counts_of(st, h)
    }

    /// Whether no count of compressed blocks was met but the one of the extent of head `h`.
    pub open spec fn counts_of(self, st: MapState, h: int) -> bool {
        st.compressedblks == 0 || self.block_count(h + 1) == Some(st.compressedblks)
    }
}

/// What loading an entry does to the count of compressed blocks and to the note of a partial
/// reference is up to the entry alone. Only a non-head right behind its head holds a count.
proof fn lemma_counted(ctx: MapContext, st: MapState, lcn: u64)
    requires
        ctx.valid(),
    ensures
        ({
            let (next, r) = ctx.load(st, lcn, false);
            &&& next.compressedblks == match ctx.block_count(lcn as int) {
                Some(n) => n,
                None => st.compressedblks,
            }
            &&& ctx.block_count(lcn as int) is Some ==> {
                &&& ctx.entry(lcn as int, false) matches Ok(e)
                &&& e.kind == LCLUSTER_TYPE_NONHEAD
                &&& e.delta0 == 1
            }
            &&& next.partial_ref == (st.partial_ref || ctx.load(
                ctx.start(),
                lcn,
                false,
            ).0.partial_ref)
        }),
{
    reveal(MapContext::load);
}

/// A look-back in a traceable index comes to the last head, unless it is sent on too often.
proof fn lemma_lookback_traced(ctx: MapContext, st: MapState, distance: u64, steps: int)
    requires
        ctx.consistent(),
        ctx.traceable(),
        0 <= steps <= 256,
        1 <= distance <= st.lcn < ctx.clusters(),
        !st.partial_ref,
        ctx.is_supported(ctx.last_head(st.lcn - distance)),
        ctx.counts_of(st, ctx.last_head(st.lcn - distance)),
    ensures
        ({
            let at = st.lcn - distance;
            let (next, r) = ctx.lookback(st, distance, steps);
            &&& r is Ok ==> ctx.at_head(next, ctx.last_head(at))
            &&& ctx.hops(at) + steps <= 256 <==> r is Ok
            &&& r is Err ==> r == Err::<(), Errno>(Errno::EUCLEAN)
        }),
    decreases MAX_LOOKBACK_STEPS + 1 - steps,
{
    let at = (st.lcn - distance) as u64;
    lemma_loaded(ctx, st, at, false);
    lemma_counted(ctx, st, at);
    assert(ctx.agrees(at as int));
    assert(ctx.passable(at as int));
    let (next, r) = ctx.load(st, at, false);
    if !ctx.is_head(at as int) {
        let back = next.cur.delta0 as u64;
        lemma_hops(ctx, at - back);
        lemma_last_head(ctx, at as int);
        assert(back <= at) by {
            if back > at {
                assert(!ctx.is_head(ctx.last_head(at as int)));
            }
        }
        if steps + 1 <= MAX_LOOKBACK_STEPS {
            lemma_last_head_skips(ctx, at - back, at as int);
            lemma_lookback_traced(ctx, next, back, steps + 1);
        }
    }
}

/// A search is not sent on a negative number of times.
proof fn lemma_hops(ctx: MapContext, lcn: int)
    ensures
        ctx.hops(lcn) >= 0,
    decreases lcn,
{
    let back = ctx.entry(lcn, false)->Ok_0.delta0;
    if lcn > 0 && !ctx.is_head(lcn) && 0 < back <= lcn {
        lemma_hops(ctx, lcn - back);
    }
}

/// A search for a place in a traceable index comes to the head of its extent, unless it is sent on
/// too often.
proof fn lemma_search_traced(ctx: MapContext, offset: Off)
    requires
        ctx.consistent(),
        ctx.traceable(),
        offset < ctx.inode.spec_file_size(),
        has_extent(ctx, offset),
        ctx.is_supported(head_of(ctx, offset)),
    ensures
        ({
            let size = ctx.cluster_size();
            let lcn = (offset as int / size) as u64;
            let (st, loaded) = ctx.load(ctx.start(), lcn, false);
            let (found, r) = ctx.find_head(st, offset as int % size);
            &&& loaded is Ok
            &&& r is Ok ==> ctx.at_head(found, head_of(ctx, offset))
            &&& ctx.searchable(offset) <==> r is Ok
            &&& ctx.search_hops(offset) > 256 && (ctx.is_head(lcn as int) ==> ctx.is_supported(
                lcn as int,
            )) ==> r == Err::<(), Errno>(Errno::EUCLEAN)
        }),
{
    let size = ctx.cluster_size();
    let at = offset as int / size;
    let lcn = at as u64;
    superblock::lemma_block_split(offset, ctx.info.logical_clusterbits);
    lemma_clusters(ctx, at);
    lemma_loaded(ctx, ctx.start(), lcn, false);
    lemma_counted(ctx, ctx.start(), lcn);
    assert(ctx.agrees(at));
    assert(ctx.passable(at));
    let (st, _) = ctx.load(ctx.start(), lcn, false);
    if ctx.is_head(at) {
        if ctx.head_start(at) > offset {
            assert(at != 0);
            lemma_lookback_traced(ctx, st, 1, 0);
        }
    } else {
        let back = st.cur.delta0 as u64;
        lemma_last_head(ctx, at);
        assert(back <= at) by {
            if back > at {
                assert(!ctx.is_head(ctx.last_head(at)));
            }
        }
        lemma_last_head_skips(ctx, at - back, at);
        lemma_lookback_traced(ctx, st, back, 0);
    }
}

/// The size of a physical cluster does not depend on how its head was come to.
proof fn lemma_compressedlen_agrees(ctx: MapContext, h: int, f: MapState, g: MapState)
    requires
        ctx.valid(),
        0 <= h < u64::MAX,
        ctx.at_head(f, h),
        ctx.at_head(g, h),
        ctx.compressedlen(f).1 is Ok,
    ensures
        ctx.compressedlen(g).1 == ctx.compressedlen(f).1,
{
    let behind = (h + 1) as u64;
    lemma_loaded(ctx, f, behind, false);
    lemma_loaded(ctx, g, behind, false);
    lemma_counted(ctx, f, behind);
    lemma_counted(ctx, g, behind);
}

/// The length of an extent does not depend on how its head was come to.
proof fn lemma_decompressedlen_agrees(
    ctx: MapContext,
    f: MapState,
    g: MapState,
    la: Off,
    lcn: u64,
    steps: int,
)
    requires
        ctx.valid(),
    ensures
        ctx.decompressedlen(f, la, lcn, steps).1 == ctx.decompressedlen(g, la, lcn, steps).1,
    decreases ctx.max_steps() + 1 - steps,
{
    zmap::law_load_is_stateless(ctx, f, g, lcn, true);
    let (a, r) = ctx.load(f, lcn, true);
    let (b, _) = ctx.load(g, lcn, true);
    if r is Ok {
        let head = a.cur.kind == LCLUSTER_TYPE_PLAIN || a.cur.kind == LCLUSTER_TYPE_HEAD1;
        let (on_a, on_b) = if head {
            (
                MapState { cur: LclusterView { delta1: 1, ..a.cur }, ..a },
                MapState { cur: LclusterView { delta1: 1, ..b.cur }, ..b },
            )
        } else {
            (a, b)
        };
        if steps + 1 <= ctx.max_steps() && lcn + on_a.cur.delta1 <= u64::MAX {
            lemma_decompressedlen_agrees(
                ctx,
                on_a,
                on_b,
                la,
                (lcn + on_a.cur.delta1) as u64,
                steps + 1,
            );
        }
    }
}

/// In a consistent index that can be traced every place of an extent leads to the same extent, and
/// to the same physical cluster. The exceptions are a place from which the search for the head
/// would be sent on too often, and one in the cluster in which an extent of a kind that is not
/// supported starts.
pub proof fn law_places_of_an_extent_agree(ctx: MapContext, a: Off, b: Off, m: Mapping)
    requires
        ctx.consistent(),
        ctx.traceable(),
        a < ctx.inode.spec_file_size(),
        ctx.map(a) == Ok::<Mapping, Errno>(m),
        m.logical.start <= b < m.logical.start + m.logical.len,
        ctx.searchable(b),
    ensures
        ctx.map(b) == Ok::<Mapping, Errno>(m),
{
    law_extent_holds_the_place(ctx, a);
    lemma_head_of(ctx, a);
    lemma_has_extent(ctx, head_of(ctx, a), b);
    lemma_head_of(ctx, b);
    let h = head_of(ctx, a);
    let k = head_of(ctx, b);
    if h < k {
        lemma_extents_apart(ctx, h, k);
    } else if k < h {
        lemma_extents_apart(ctx, k, h);
    }
    lemma_search_traced(ctx, a);
    lemma_search_traced(ctx, b);
    lemma_head_place(ctx, h);
    let size = ctx.cluster_size();
    let (f, _) = ctx.find_head(
        ctx.load(ctx.start(), (a as int / size) as u64, false).0,
        a as int % size,
    );
    let (g, _) = ctx.find_head(
        ctx.load(ctx.start(), (b as int / size) as u64, false).0,
        b as int % size,
    );
    assert(ctx.map(a) == ctx.measure(f));
    assert(ctx.map(b) == ctx.measure(g));
    lemma_compressedlen_agrees(ctx, h, f, g);
    let la = h * size + f.cur.clusterofs;
    lemma_decompressedlen_agrees(
        ctx,
        ctx.compressedlen(f).0,
        ctx.compressedlen(g).0,
        la as Off,
        f.lcn,
        0,
    );
}

impl MapContext {
    /// How many bytes the physical cluster of the extent takes that starts in cluster `h`: one
    /// cluster if it is stored as it is or clusters of several blocks are not in use, and else as
    /// many blocks as the entry behind the head counts, or one cluster if that is a head itself.
    pub open spec fn physical_len(self, h: int) -> Option<int> {
        let cluster = power2::pow2(self.info.logical_clusterbits as nat) as int;
        let block = power2::pow2(self.sb.blkszbits as nat) as int;
        if self.entry(h, false)->Ok_0.kind == 0 || self.info.advise & 2 == 0 {
            Some(cluster)
        } else {
            match self.block_count(h + 1) {
                Some(n) => if n > 0 {
                    Some(n * block)
                } else {
                    None
                },
                None => if self.is_supported(h + 1) {
                    Some(cluster)
                } else {
                    None
                },
            }
        }
    }

    /// Whether the end of the extent that starts in cluster `h` can be come to: every cluster on
    /// the way sends on, and what follows is of a kind that is supported.
    pub open spec fn end_in_reach(self, h: int) -> bool {
        let next = self.next_head(h + 1);
        &&& next < self.clusters() ==> self.is_supported(next)
        &&& forall|k: int| h < k < next ==> (#[trigger] self.entry(k, true))->Ok_0.delta1 > 0
    }
}

/// The end of an extent is found if it can be come to and is not too far away.
proof fn lemma_decompressedlen_succeeds(
    ctx: MapContext,
    st: MapState,
    head: int,
    lcn: u64,
    steps: int,
)
    requires
        ctx.consistent(),
        0 <= head < ctx.clusters(),
        ctx.is_supported(head),
        ctx.end_in_reach(head),
        ctx.head_start(head) < ctx.extent_end(head),
        head <= lcn,
        lcn <= ctx.next_head(head + 1) || ctx.clusters() <= lcn < ctx.clusters() + 0x1_0000,
        0 <= steps <= lcn - head,
    ensures
        ({
            let r = ctx.decompressedlen(st, ctx.head_start(head) as Off, lcn, steps).1;
            &&& ctx.next_head(head + 1) - head <= ctx.max_steps() ==> r is Ok
            &&& r is Err ==> r == Err::<int, Errno>(Errno::EOPNOTSUPP)
        }),
    decreases ctx.max_steps() + 1 - steps,
{
    let size = ctx.cluster_size();
    let n = ctx.clusters();
    let la = ctx.head_start(head) as Off;
    let next_head = ctx.next_head(head + 1);
    superblock::lemma_block_size(ctx.info.logical_clusterbits);
    lemma_next_head(ctx, head + 1);
    lemma_head_place(ctx, head);
    lemma_clusters(ctx, lcn as int);
    assert(lcn * size <= (n + 0x1_0000) * size) by (nonlinear_arith)
        requires
            lcn <= n + 0x1_0000,
            size >= 1,
    ;
    superblock::lemma_block_mul(lcn, ctx.info.logical_clusterbits);
    assert(ctx.extent_end(head) <= ctx.inode.spec_file_size());
    if lcn < n {
        lemma_loaded(ctx, st, lcn, true);
        assert(ctx.agrees(lcn as int));
        let (next, _) = ctx.load(st, lcn, true);
        if lcn != next_head {
            assert(lcn != head ==> !ctx.is_head(lcn as int));
            let on = if lcn == head {
                MapState { cur: LclusterView { delta1: 1, ..next.cur }, ..next }
            } else {
                next
            };
            assert(on.cur.delta1 > 0);
            let further = (lcn + on.cur.delta1) as u64;
            assert(n + 0x1_0000 <= (n + 0x1_0000) * size) by (nonlinear_arith)
                requires
                    size >= 1,
                    n >= 0,
            ;
            assert(lcn + on.cur.delta1 <= u64::MAX);
            assert(further <= next_head || n <= further) by {
                if next_head < n && further > next_head {
                    assert(ctx.is_head(next_head));
                    assert(ctx.headless(lcn as int, lcn + on.cur.delta1));
                }
            }
            if steps + 1 <= ctx.max_steps() {
                lemma_decompressedlen_succeeds(ctx, on, head, further, steps + 1);
            }
        } else {
            assert(ctx.is_supported(next_head));
        }
    }
}

/// An extent that is not too long does not touch too many clusters.
proof fn lemma_few_clusters(ctx: MapContext, h: int)
    requires
        ctx.consistent(),
        0 <= h < ctx.clusters(),
        ctx.is_head(h),
        ctx.extent_end(h) - ctx.head_start(h) <= 0xc0_0000,
    ensures
        ctx.next_head(h + 1) - h <= ctx.max_steps(),
{
    let size = ctx.cluster_size();
    let next = ctx.next_head(h + 1);
    superblock::lemma_block_size(ctx.info.logical_clusterbits);
    lemma_next_head(ctx, h + 1);
    lemma_head_place(ctx, h);
    lemma_clusters(ctx, next);
    lemma_clusters(ctx, next - 1);
    let q = 0xc0_0000int / size;
    vstd::arithmetic::div_mod::lemma_fundamental_div_mod(0xc0_0000, size);
    vstd::arithmetic::div_mod::lemma_mod_bound(0xc0_0000, size);
    if next < ctx.clusters() {
        lemma_head_place(ctx, next);
    }
    assert(ctx.extent_end(h) > (next - 1) * size) by {
        assert((next - 1) * size + size == next * size) by (nonlinear_arith);
    }
    let d = next - 1 - (h + 1);
    assert((next - 1) * size - (h + 1) * size == d * size) by (nonlinear_arith)
        requires
            d == next - 1 - (h + 1),
    ;
    assert(d * size < 0xc0_0000);
    assert(d <= q) by (nonlinear_arith)
        requires
            d * size < 0xc0_0000,
            0xc0_0000 < size * q + size,
            size >= 1,
    ;
}

/// The size of a physical cluster, once its head is found.
proof fn lemma_compressedlen_is_exact(ctx: MapContext, st: MapState, h: int)
    requires
        ctx.valid(),
        0 <= h < u64::MAX,
        ctx.at_head(st, h),
        ctx.is_supported(h),
    ensures
        match ctx.physical_len(h) {
            Some(p) => ctx.compressedlen(st).1 == Ok::<int, Errno>(p),
            None => ctx.compressedlen(st).1 is Err,
        },
{
    let behind = (h + 1) as u64;
    lemma_loaded(ctx, st, behind, false);
    lemma_counted(ctx, st, behind);
    let more = (ctx.info.logical_clusterbits - ctx.sb.blkszbits) as nat;
    power2::lemma_pow2_adds(more, ctx.sb.blkszbits as nat);
}

/// In a consistent index that can be traced every place is found, and its extent is exactly this:
/// it starts with the last head that does not start behind the place and ends with the next head or
/// with the file. Its physical cluster stands where the head says and is as large as the index
/// says, and the kind of the head says how it is stored. The exceptions are a place from which the
/// search would be sent on too often or ends in a kind that is not supported, an extent or a
/// cluster that is too long, and one that is stored as it is and does not fit its cluster.
pub proof fn law_every_place_is_mapped(ctx: MapContext, offset: Off)
    requires
        ctx.consistent(),
        ctx.traceable(),
        offset < ctx.inode.spec_file_size(),
        has_extent(ctx, offset),
        ctx.is_supported(head_of(ctx, offset)),
        ctx.searchable(offset),
        ctx.end_in_reach(head_of(ctx, offset)),
        ctx.physical_len(head_of(ctx, offset)) is Some,
    ensures
        ({
            let h = head_of(ctx, offset);
            let head = ctx.entry(h, false)->Ok_0;
            let llen = ctx.extent_end(h) - ctx.head_start(h);
            let plen = ctx.physical_len(h)->Some_0;
            if llen > 0xc0_0000 || plen > 0x10_0000 {
                ctx.map(offset) == Err::<Mapping, Errno>(Errno::EOPNOTSUPP)
            } else if head.kind == 0 && llen > plen {
                ctx.map(offset) == Err::<Mapping, Errno>(Errno::EUCLEAN)
            } else {
                &&& ctx.map(offset) matches Ok(m)
                &&& m.logical.start == h * power2::pow2(ctx.info.logical_clusterbits as nat)
                    + head.clusterofs
                &&& m.logical.len == llen
                &&& m.physical.start == head.pblk * power2::pow2(ctx.sb.blkszbits as nat)
                &&& m.physical.len == plen
                &&& m.device_id == 0
                &&& m.map_type == MapType::Normal
                &&& head.kind == 0 ==> m.algorithm == Algorithm::Shifted && m.algorithm_format == 3
                &&& head.kind == 1 ==> m.algorithm == Algorithm::Lz4 && m.algorithm_format
                    == ctx.info.algorithmtype.0
            }
        }),
{
    let h = head_of(ctx, offset);
    let size = ctx.cluster_size();
    let lcn = (offset as int / size) as u64;
    lemma_head_of(ctx, offset);
    lemma_search_traced(ctx, offset);
    lemma_head_place(ctx, h);
    superblock::lemma_block_size(ctx.info.logical_clusterbits);
    superblock::lemma_block_size(ctx.sb.blkszbits);
    let (found, _) = ctx.find_head(
        ctx.load(ctx.start(), lcn, false).0,
        offset as int % size,
    );
    assert(ctx.map(offset) == ctx.measure(found));
    assert(ctx.clusters() <= u64::MAX) by {
        let n = ctx.clusters();
        assert(n <= (n + 0x1_0000) * size) by (nonlinear_arith)
            requires
                size >= 1,
                n >= 0,
        ;
    }
    lemma_compressedlen_is_exact(ctx, found, h);
    if ctx.extent_end(h) - ctx.head_start(h) <= 0xc0_0000 {
        lemma_few_clusters(ctx, h);
    }
    lemma_next_head(ctx, h + 1);
    let (next, _) = ctx.compressedlen(found);
    lemma_decompressedlen_succeeds(ctx, next, h, found.lcn, 0);
    lemma_decompressedlen_is_exact(ctx, next, h, found.lcn, 0);
    let plen = ctx.physical_len(h)->Some_0;
    assert(plen > 0) by {
        let block = ctx.sb.spec_blksz();
        if let Some(n) = ctx.block_count(h + 1) {
            assert(n > 0 ==> n * block > 0) by (nonlinear_arith)
                requires
                    block >= 1,
            ;
        }
    }
    let pblk = found.cur.pblk;
    let block = ctx.sb.spec_blksz();
    assert(0 <= pblk * block <= u32::MAX * 0x4000_0000) by (nonlinear_arith)
        requires
            0 <= pblk <= u32::MAX,
            1 <= block <= 0x4000_0000,
    ;
}

/// A search that would be sent on too often is given up.
pub proof fn law_long_searches_are_given_up(ctx: MapContext, offset: Off)
    requires
        ctx.consistent(),
        ctx.traceable(),
        offset < ctx.inode.spec_file_size(),
        has_extent(ctx, offset),
        ctx.is_supported(head_of(ctx, offset)),
        ctx.is_head(offset as int / ctx.cluster_size()) ==> ctx.is_supported(
            offset as int / ctx.cluster_size(),
        ),
        ctx.search_hops(offset) > 256,
    ensures
        ctx.map(offset) == Err::<Mapping, Errno>(Errno::EUCLEAN),
{
    lemma_search_traced(ctx, offset);
    superblock::lemma_block_split(offset, ctx.info.logical_clusterbits);
}

/// A place in a cluster whose own head starts at or before it is not found if that head is of a
/// kind that is not supported, or refers to a part of an extent.
pub proof fn law_unsupported_heads_are_refused(ctx: MapContext, offset: Off)
    requires
        ctx.valid(),
        ({
            let size = power2::pow2(ctx.info.logical_clusterbits as nat) as int;
            let (st, r) = ctx.load(ctx.start(), (offset as int / size) as u64, false);
            &&& r is Ok
            &&& ({
                ||| st.cur.kind == 3
                ||| st.partial_ref && st.cur.kind < 2 && st.cur.clusterofs <= offset as int % size
            })
        }),
    ensures
        ctx.map(offset) == Err::<Mapping, Errno>(Errno::EOPNOTSUPP),
{
}

/// A search that comes to nothing ends in an error: an entry that cannot be loaded is why, a head
/// that starts behind the place in the first cluster is corrupt, and so is a non-head that sends
/// the search to itself or to before the file.
pub proof fn law_searches_that_come_to_nothing(ctx: MapContext, offset: Off)
    requires
        ctx.valid(),
    ensures
        ({
            let size = power2::pow2(ctx.info.logical_clusterbits as nat) as int;
            let lcn = offset as int / size;
            match ctx.entry(lcn, false) {
                Err(e) => ctx.map(offset) == Err::<Mapping, Errno>(e),
                Ok(entry) => {
                    &&& entry.kind == 2 && (entry.delta0 == 0 || entry.delta0 > lcn) ==> ctx.map(
                        offset,
                    ) == Err::<Mapping, Errno>(Errno::EUCLEAN)
                    &&& entry.kind < 2 && lcn == 0 && entry.clusterofs > offset as int % size
                        ==> ctx.map(offset) == Err::<Mapping, Errno>(Errno::EUCLEAN)
                    &&& entry.kind == 2 && 0 < entry.delta0 <= lcn ==> match ctx.entry(
                        lcn - entry.delta0,
                        false,
                    ) {
                        Err(e) => ctx.map(offset) == Err::<Mapping, Errno>(e),
                        Ok(back) => back.kind == 3 ==> ctx.map(offset) == Err::<Mapping, Errno>(
                            Errno::EOPNOTSUPP,
                        ),
                    }
                },
            }
        }),
{
    let size = ctx.cluster_size();
    let lcn = offset as int / size;
    superblock::lemma_block_split(offset, ctx.info.logical_clusterbits);
    let (st, r) = ctx.load(ctx.start(), lcn as u64, false);
    zmap::law_loaded_entry(ctx, ctx.start(), lcn as u64, false);
    if r is Ok {
        zmap::law_load_is_stateless(ctx, st, ctx.start(), lcn as u64, false);
        if st.cur.delta0 <= lcn {
            let at = (lcn - st.cur.delta0) as u64;
            zmap::law_load_is_stateless(ctx, st, ctx.start(), at, false);
        }
    }
}

/// An extent whose lengths the index does not give is not mapped. Where a count of blocks is called
/// for, the entry behind the head has to be a count or a head. A cluster that does not send on is
/// corrupt, and a head of a kind that is not supported is no end.
pub proof fn law_extents_without_lengths_are_refused(ctx: MapContext, offset: Off)
    requires
        ctx.consistent(),
        ctx.traceable(),
        offset < ctx.inode.spec_file_size(),
        has_extent(ctx, offset),
        ctx.is_supported(head_of(ctx, offset)),
        ctx.searchable(offset),
    ensures
        ({
            let h = head_of(ctx, offset);
            &&& ctx.physical_len(h) is None ==> match ctx.entry(h + 1, false) {
                Ok(_) => ctx.map(offset) == Err::<Mapping, Errno>(Errno::EUCLEAN),
                Err(e) => ctx.map(offset) == Err::<Mapping, Errno>(e),
            }
            &&& ctx.physical_len(h) is Some && h + 1 < ctx.clusters() ==> match ctx.entry(
                h + 1,
                true,
            ) {
                Ok(e) => {
                    &&& e.kind == 3 ==> ctx.map(offset) == Err::<Mapping, Errno>(Errno::EOPNOTSUPP)
                    &&& e.kind == 2 && e.delta1 == 0 ==> ctx.map(offset) == Err::<Mapping, Errno>(
                        Errno::EUCLEAN,
                    )
                },
                Err(e) => ctx.map(offset) == Err::<Mapping, Errno>(e),
            }
        }),
{
    let h = head_of(ctx, offset);
    let size = ctx.cluster_size();
    let lcn = (offset as int / size) as u64;
    lemma_head_of(ctx, offset);
    lemma_search_traced(ctx, offset);
    lemma_head_place(ctx, h);
    superblock::lemma_block_size(ctx.info.logical_clusterbits);
    let (found, _) = ctx.find_head(
        ctx.load(ctx.start(), lcn, false).0,
        offset as int % size,
    );
    assert(ctx.map(offset) == ctx.measure(found));
    let n = ctx.clusters();
    assert(n + 0x1_0000 <= (n + 0x1_0000) * size) by (nonlinear_arith)
        requires
            size >= 1,
            n >= 0,
    ;
    lemma_compressedlen_is_exact(ctx, found, h);
    let behind = (h + 1) as u64;
    lemma_counted(ctx, found, behind);
    zmap::law_load_is_stateless(ctx, found, ctx.start(), behind, false);
    if ctx.physical_len(h) is Some && h + 1 < n {
        let (next, _) = ctx.compressedlen(found);
        let la = ctx.head_start(h) as Off;
        lemma_clusters(ctx, h);
        lemma_clusters(ctx, h + 1);
        lemma_loaded(ctx, next, h as u64, true);
        assert(ctx.agrees(h));
        assert(h * size <= (n + 0x1_0000) * size) by (nonlinear_arith)
            requires
                h <= n + 0x1_0000,
                size >= 1,
        ;
        assert(behind * size <= (n + 0x1_0000) * size) by (nonlinear_arith)
            requires
                behind <= n + 0x1_0000,
                size >= 1,
        ;
        superblock::lemma_block_mul(h as u64, ctx.info.logical_clusterbits);
        superblock::lemma_block_mul(behind, ctx.info.logical_clusterbits);
        let (first, _) = ctx.load(next, h as u64, true);
        let on = MapState { cur: LclusterView { delta1: 1, ..first.cur }, ..first };
        zmap::law_load_is_stateless(ctx, on, ctx.start(), behind, true);
        assert(ctx.max_steps() >= 1) by {
            vstd::arithmetic::div_mod::lemma_div_pos_is_pos(0xc0_0000, size);
        }
        assert(ctx.decompressedlen(next, la, h as u64, 0) == ctx.decompressedlen(
            on,
            la,
            behind,
            1,
        ));
    }
}

/// Only a compact index takes memory to read, and only for a place of the file.
pub proof fn law_full_index_takes_no_memory(ctx: MapContext, offset: Off)
    requires
        ctx.inode.spec_layout() != Layout::CompressedCompact || offset
            >= ctx.inode.spec_file_size(),
    ensures
        !zmap::mapping_allocates(ctx.sb, ctx.image, ctx.inode, ctx.nid, offset),
{
}

} // verus!

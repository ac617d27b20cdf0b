//! Maps of compressed files.

use erofs::data::raw_iters::temp_iter::TempBufferMapIter;
use erofs::data::{Backend, FileBackend};
use erofs::dir::DirVisitor;
use erofs::errnos::{Errno, PosixResult};
use erofs::inode::{CompactInodeInfo, Format, Inode, InodeInfo, Layout};
use erofs::map::{Algorithm, MapIter, MapResult, MapType, Mapping, Segment};
use erofs::superblock::{FileSystem, SuperBlock};
use erofs::xattrs::{XAttrSharedEntries, XAttrValue};
use erofs::zmap::{
    align_up_8, compact_la_distance, decode_compactedbits, map_blocks, Lcluster, Mapper,
    ZInodeInfo, ADVISE_BIG_PCLUSTER_1, ADVISE_BIG_PCLUSTER_2, ADVISE_COMPACTED_2B,
    ADVISE_FRAGMENT_PCLUSTER, ADVISE_INLINE_PCLUSTER, ADVISE_INTERLACED_PCLUSTER,
    LCLUSTER_TYPE_HEAD1, LCLUSTER_TYPE_HEAD2, LCLUSTER_TYPE_NONHEAD, LCLUSTER_TYPE_PLAIN,
    LI_D0_CBLKCNT, LI_PARTIAL_REF,
};
use erofs::{Nid, Off};

#[derive(Debug)]
struct SimpleInode {
    info: InodeInfo,
    nid: Nid,
    xattrs: XAttrSharedEntries,
}

impl Inode for SimpleInode {
    fn new(
        _sb: &SuperBlock,
        info: InodeInfo,
        nid: Nid,
        xattrs_shared_entries: XAttrSharedEntries,
    ) -> Self {
        SimpleInode {
            info,
            nid,
            xattrs: xattrs_shared_entries,
        }
    }

    fn info(&self) -> &InodeInfo {
        &self.info
    }

    fn nid(&self) -> Nid {
        self.nid
    }

    fn xattrs_shared_entries(&self) -> &XAttrSharedEntries {
        &self.xattrs
    }
}

/// A device that is never read.
struct NullBackend;

impl Backend for NullBackend {
    fn fill(&self, _data: &mut [u8], _device_id: i32, _offset: Off) -> PosixResult<u64> {
        Err(Errno::EIO)
    }
}

fn test_sb() -> SuperBlock {
    SuperBlock {
        blkszbits: 12,
        blocks: 1 << 20,
        meta_blkaddr: 1,
        ..Default::default()
    }
}

fn inode_of(format: u16, file_size: u64) -> SimpleInode {
    let info = InodeInfo::Compact(CompactInodeInfo {
        i_format: Format(format),
        i_xattr_icount: 0,
        i_mode: 0o100000,
        i_nlink: 1,
        i_size: file_size as u32,
        i_reserved: [0u8; 4],
        i_u: [0u8; 4],
        i_ino: 1,
        i_uid: 0,
        i_gid: 0,
        i_reserved2: [0u8; 4],
    });
    SimpleInode::new(
        &test_sb(),
        info,
        1,
        XAttrSharedEntries {
            name_filter: 0,
            shared_indexes: Vec::new(),
        },
    )
}

fn test_inode(file_size: u64) -> SimpleInode {
    inode_of(0, file_size)
}

fn test_zinfo(advise: u16) -> ZInodeInfo {
    ZInodeInfo {
        advise,
        algorithmtype: [0, 0],
        logical_clusterbits: 12,
    }
}

/// Writes a packed region of entries, each given by its type and its value. The value of a
/// non-head is its distance back, except for the last entry, where it is the distance on.
fn pack_indexes(out: &mut [u8], items: &[(u8, u16)], lbits: u32, destsize: usize, base: u32) {
    let vcnt = items.len();
    let encodebits = (vcnt * destsize * 8 - 32) / vcnt;
    let mut pos = 0usize;
    for (kind, offset) in items {
        let v = ((*kind as u32) << lbits) | *offset as u32;
        let rem = pos & 7;
        out[pos / 8] = (out[pos / 8] & ((1u8 << rem) - 1)) | ((v << rem) as u8);
        out[pos / 8 + 1] = (v >> (8 - rem)) as u8;
        out[pos / 8 + 2] = (v >> (16 - rem)) as u8;
        pos += encodebits;
    }
    out[vcnt * destsize - 4..vcnt * destsize].copy_from_slice(&base.to_le_bytes());
}

/// Decodes entry `i` of a packed region.
fn decode_one(
    items: &[(u8, u16)],
    destsize: usize,
    base: u32,
    i: usize,
    lookahead: bool,
    advise: u16,
) -> PosixResult<Lcluster> {
    let vcnt = items.len();
    let pack_bytes = vcnt * destsize;
    let mut buf = vec![0u8; pack_bytes];
    pack_indexes(&mut buf, items, 12, destsize, base);
    let sb = test_sb();
    let inode = test_inode(1 << 20);
    let mut m = Mapper::new(&sb, &NullBackend, &inode, test_zinfo(advise));
    m.unpack_compact(
        &buf,
        destsize.trailing_zeros(),
        i as Off * destsize as Off,
        lookahead,
    )
}

#[test]
fn decode_compactedbits_unaligned() {
    // Two entries of 16 bits: the second one starts with the third byte.
    let mut buf = [0u8; 8];
    pack_indexes(&mut buf, &[(3u8, 0xabc), (0u8, 0x123)], 12, 4, 0x1000);
    assert_eq!(decode_compactedbits(&buf, 0, 12).unwrap(), (0xabc, 3));
    assert_eq!(decode_compactedbits(&buf, 16, 12).unwrap(), (0x123, 0));
    // Reading over the end is an error.
    assert_eq!(
        decode_compactedbits(&buf[..3], 16, 12).unwrap_err(),
        Errno::EUCLEAN
    );
}

#[test]
fn unpack_head_and_nonhead_pair() {
    let items = [(LCLUSTER_TYPE_HEAD1, 0u16), (LCLUSTER_TYPE_NONHEAD, 1u16)];
    let head = decode_one(&items, 4, 5, 0, false, 0).unwrap();
    assert_eq!(head.kind, LCLUSTER_TYPE_HEAD1);
    assert_eq!(head.clusterofs, 0);
    assert_eq!(head.pblk, 6);

    // The distance back of the last entry follows from the entry before it.
    let tail = decode_one(&items, 4, 5, 1, true, 0).unwrap();
    assert_eq!(tail.kind, LCLUSTER_TYPE_NONHEAD);
    assert_eq!(tail.delta[0], 1);
    assert_eq!(tail.delta[1], 1);
    assert_eq!(tail.clusterofs, 1 << 12);
}

#[test]
fn unpack_nonhead_chain_derives_delta_from_previous() {
    let items = [(LCLUSTER_TYPE_NONHEAD, 1u16), (LCLUSTER_TYPE_NONHEAD, 3u16)];
    let tail = decode_one(&items, 4, 9, 1, true, 0).unwrap();
    assert_eq!(tail.delta[0], 2);
    assert_eq!(tail.delta[1], 3);
}

#[test]
fn unpack_two_heads_count_pblk() {
    let items = [(LCLUSTER_TYPE_HEAD1, 0u16), (LCLUSTER_TYPE_HEAD1, 1000u16)];
    let second = decode_one(&items, 4, 10, 1, false, 0).unwrap();
    assert_eq!(second.clusterofs, 1000);
    assert_eq!(second.pblk, 12);
}

#[test]
fn unpack_big_pcluster_counts_cblkcn_blocks() {
    let cblk = LI_D0_CBLKCNT | 4;
    let items = [(LCLUSTER_TYPE_NONHEAD, cblk), (LCLUSTER_TYPE_HEAD1, 0u16)];
    let head = decode_one(&items, 4, 100, 1, false, ADVISE_BIG_PCLUSTER_1).unwrap();
    assert_eq!(head.pblk, 104);

    // An entry that counts blocks is one behind its head.
    let cn = decode_one(&items, 4, 100, 0, false, ADVISE_BIG_PCLUSTER_1).unwrap();
    assert_eq!(cn.delta[0], 1);
}

#[test]
fn unpack_cblkcn_without_big_pcluster_is_rejected() {
    let cblk = LI_D0_CBLKCNT | 4;
    let items = [(LCLUSTER_TYPE_NONHEAD, cblk), (LCLUSTER_TYPE_HEAD1, 0u16)];
    let mut buf = vec![0u8; 8];
    pack_indexes(&mut buf, &items, 12, 4, 100);
    let sb = test_sb();
    let inode = test_inode(1 << 20);
    let mut m = Mapper::new(&sb, &NullBackend, &inode, test_zinfo(ADVISE_COMPACTED_2B));
    assert_eq!(
        m.unpack_compact(&buf, 2, 0, false).unwrap_err(),
        Errno::EUCLEAN
    );
}

#[test]
fn pack_indexes_roundtrip_sixteen_entries() {
    // Sixteen entries of 14 bits, which start at every second bit of a byte.
    let mut items = Vec::new();
    for i in 0..16u16 {
        items.push((LCLUSTER_TYPE_NONHEAD, i + 1));
    }
    items[0] = (LCLUSTER_TYPE_HEAD1, 7);
    for (i, _) in items.iter().enumerate() {
        let lc = decode_one(&items, 2, 0x2000, i, false, 0).unwrap();
        if i == 0 {
            assert_eq!(lc.kind, LCLUSTER_TYPE_HEAD1);
            assert_eq!(lc.clusterofs, 7);
        } else {
            assert_eq!(lc.kind, LCLUSTER_TYPE_NONHEAD);
        }
    }
}

#[test]
fn sixteen_entries_are_decoded_as_they_were_packed() {
    let mut items = Vec::new();
    for i in 0..16u16 {
        items.push(((i % 4) as u8, 100 * i));
    }
    let mut buf = vec![0u8; 32];
    pack_indexes(&mut buf, &items, 12, 2, 0);
    for (i, item) in items.iter().enumerate() {
        assert_eq!(
            decode_compactedbits(&buf, 14 * i as u32, 12),
            Ok((item.1 as u32, item.0))
        );
    }
}

#[test]
fn distances_run_to_the_next_head() {
    let mut items = vec![(LCLUSTER_TYPE_NONHEAD, 1u16); 16];
    items[5] = (LCLUSTER_TYPE_HEAD1, 0);
    items[15] = (LCLUSTER_TYPE_NONHEAD, 4);
    let mut buf = vec![0u8; 32];
    pack_indexes(&mut buf, &items, 12, 2, 0);
    assert_eq!(compact_la_distance(&buf, 14, 12, 16, 2), Ok(3));
    assert_eq!(compact_la_distance(&buf, 14, 12, 16, 5), Ok(0));
    // The last entry says how far it is from there on.
    assert_eq!(compact_la_distance(&buf, 14, 12, 16, 14), Ok(5));
    items[15] = (LCLUSTER_TYPE_NONHEAD, 0);
    let mut buf = vec![0u8; 32];
    pack_indexes(&mut buf, &items, 12, 2, 0);
    assert_eq!(
        compact_la_distance(&buf, 14, 12, 16, 14),
        Err(Errno::EUCLEAN)
    );
}

#[test]
fn addresses_are_rounded_up_to_eight() {
    assert_eq!(align_up_8(0), 0);
    assert_eq!(align_up_8(1), 8);
    assert_eq!(align_up_8(4160), 4160);
    assert_eq!(align_up_8(u64::MAX - 7), u64::MAX - 7);
    assert_eq!(align_up_8(u64::MAX - 6), u64::MAX);
}

/// A device in memory.
struct MemBackend(Vec<u8>);

impl Backend for MemBackend {
    fn fill(&self, data: &mut [u8], _device_id: i32, offset: Off) -> PosixResult<u64> {
        if offset >= self.0.len() as u64 {
            return Ok(0);
        }
        let at = offset as usize;
        let n = data.len().min(self.0.len() - at);
        data[..n].copy_from_slice(&self.0[at..at + n]);
        Ok(n as u64)
    }
}

impl FileBackend for MemBackend {}

struct NoMaps;

impl MapIter for NoMaps {
    fn next(&mut self) -> Option<MapResult> {
        None
    }
}

struct TestFs {
    sb: SuperBlock,
    device: MemBackend,
}

impl FileSystem<SimpleInode> for TestFs {
    type B = MemBackend;
    type Blocks<'a> = TempBufferMapIter<'a, MemBackend, NoMaps>;

    fn superblock(&self) -> &SuperBlock {
        &self.sb
    }

    fn backend(&self) -> &MemBackend {
        &self.device
    }

    fn inode_info(&self, _nid: Nid) -> PosixResult<InodeInfo> {
        Err(Errno::ENOSYS)
    }

    fn find_nid(&self, _dir: &SimpleInode, _name: &str) -> PosixResult<Option<Nid>> {
        Ok(None)
    }

    fn fill_dentries<V: DirVisitor>(
        &self,
        _dir: &SimpleInode,
        _visitor: &mut V,
    ) -> PosixResult<()> {
        Ok(())
    }

    fn mapped_iter<'a>(
        &'a self,
        _inode: &'a SimpleInode,
        _offset: Off,
    ) -> PosixResult<Self::Blocks<'a>> {
        Err(Errno::ENOSYS)
    }

    fn get_xattr(
        &self,
        _inode: &SimpleInode,
        _index: u32,
        _name: &[u8],
        _buffer: &mut Option<&mut [u8]>,
    ) -> PosixResult<XAttrValue> {
        Err(Errno::ENODATA)
    }

    fn list_xattrs(&self, _inode: &SimpleInode, _buffer: &mut [u8]) -> PosixResult<usize> {
        Ok(0)
    }
}

const FULL: u16 = 1 << 1;
const COMPACT: u16 = 3 << 1;

/// The inode stands at 4128 and takes 32 bytes, so the map header stands at 4160.
const HEADER: usize = 4160;

fn image(advise: u16, algorithms: u8, clusterbits: u8) -> Vec<u8> {
    let mut img = vec![0u8; 16384];
    img[HEADER + 4..HEADER + 6].copy_from_slice(&advise.to_le_bytes());
    img[HEADER + 6] = algorithms;
    img[HEADER + 7] = clusterbits;
    img
}

fn put_head(img: &mut [u8], lcn: usize, kind: u8, clusterofs: u16, pblk: u32) {
    let at = HEADER + 16 + 8 * lcn;
    img[at..at + 2].copy_from_slice(&(kind as u16).to_le_bytes());
    img[at + 2..at + 4].copy_from_slice(&clusterofs.to_le_bytes());
    img[at + 4..at + 8].copy_from_slice(&pblk.to_le_bytes());
}

fn put_nonhead(img: &mut [u8], lcn: usize, d0: u16, d1: u16) {
    let at = HEADER + 16 + 8 * lcn;
    img[at..at + 2].copy_from_slice(&(LCLUSTER_TYPE_NONHEAD as u16).to_le_bytes());
    img[at + 4..at + 6].copy_from_slice(&d0.to_le_bytes());
    img[at + 6..at + 8].copy_from_slice(&d1.to_le_bytes());
}

fn fs_on(img: Vec<u8>) -> TestFs {
    TestFs {
        sb: test_sb(),
        device: MemBackend(img),
    }
}

fn mapping(la: u64, llen: u64, pa: u64, plen: u64, algorithm: Algorithm) -> Mapping {
    Mapping {
        logical: Segment {
            start: la,
            len: llen,
        },
        physical: Segment {
            start: pa,
            len: plen,
        },
        algorithm_format: if algorithm == Algorithm::Shifted { 3 } else { 0 },
        device_id: 0,
        map_type: MapType::Normal,
        algorithm,
    }
}

/// Two extents: up to 8197, and the rest.
fn two_extents() -> Vec<u8> {
    let mut img = image(0, 0, 0);
    put_head(&mut img, 0, LCLUSTER_TYPE_HEAD1, 0, 10);
    put_nonhead(&mut img, 1, 1, 1);
    put_head(&mut img, 2, LCLUSTER_TYPE_HEAD1, 5, 11);
    put_nonhead(&mut img, 3, 1, 1);
    img
}

#[test]
fn every_place_of_an_extent_leads_to_it() {
    let fs = fs_on(two_extents());
    let inode = inode_of(FULL, 12388);
    let first = mapping(0, 8197, 10 * 4096, 4096, Algorithm::Lz4);
    let second = mapping(8197, 12388 - 8197, 11 * 4096, 4096, Algorithm::Lz4);
    for offset in [0, 1, 4095, 4096, 8191, 8192, 8196] {
        assert_eq!(map_blocks(&fs, &inode, offset), Ok(first));
    }
    for offset in [8197, 8198, 12287, 12288, 12387] {
        assert_eq!(map_blocks(&fs, &inode, offset), Ok(second));
    }
    assert_eq!(map_blocks(&fs, &inode, 12388), Err(Errno::EUCLEAN));
}

#[test]
fn a_plain_extent_is_not_longer_than_its_cluster() {
    let mut img = image(0, 0, 0);
    put_head(&mut img, 0, LCLUSTER_TYPE_PLAIN, 0, 7);
    put_head(&mut img, 1, LCLUSTER_TYPE_PLAIN, 0, 8);
    let fs = fs_on(img.clone());
    let inode = inode_of(FULL, 5000);
    assert_eq!(
        map_blocks(&fs, &inode, 100),
        Ok(mapping(0, 4096, 7 * 4096, 4096, Algorithm::Shifted))
    );
    assert_eq!(
        map_blocks(&fs, &inode, 4096),
        Ok(mapping(4096, 904, 8 * 4096, 4096, Algorithm::Shifted))
    );
    put_nonhead(&mut img, 1, 1, 1);
    let fs = fs_on(img);
    assert_eq!(map_blocks(&fs, &inode, 100), Err(Errno::EUCLEAN));
}

#[test]
fn a_big_cluster_counts_its_blocks() {
    let mut img = image(ADVISE_BIG_PCLUSTER_1, 0, 0);
    put_head(&mut img, 0, LCLUSTER_TYPE_HEAD1, 0, 20);
    put_nonhead(&mut img, 1, LI_D0_CBLKCNT | 2, 3);
    put_nonhead(&mut img, 2, 2, 2);
    put_nonhead(&mut img, 3, 3, 1);
    let mut fs = fs_on(img);
    fs.sb.feature_incompat = 0x2;
    let inode = inode_of(FULL, 16384);
    for offset in [0, 5000, 9000, 16383] {
        assert_eq!(
            map_blocks(&fs, &inode, offset),
            Ok(mapping(0, 16384, 20 * 4096, 8192, Algorithm::Lz4))
        );
    }
    // Without the feature the header is corrupt.
    fs.sb.feature_incompat = 0;
    assert_eq!(map_blocks(&fs, &inode, 0), Err(Errno::EUCLEAN));
}

#[test]
fn a_chain_without_a_head_is_corrupt() {
    let inode = inode_of(FULL, 12388);
    // The first entry leads nowhere.
    let mut img = two_extents();
    put_nonhead(&mut img, 0, 1, 1);
    assert_eq!(map_blocks(&fs_on(img), &inode, 0), Err(Errno::EUCLEAN));
    // A distance of nothing.
    let mut img = two_extents();
    put_nonhead(&mut img, 1, 0, 1);
    assert_eq!(map_blocks(&fs_on(img), &inode, 8192), Err(Errno::EUCLEAN));
    // The first extent would start before the file.
    let mut img = two_extents();
    put_head(&mut img, 0, LCLUSTER_TYPE_HEAD1, 9, 10);
    assert_eq!(map_blocks(&fs_on(img), &inode, 8), Err(Errno::EUCLEAN));
    // A start outside of the cluster.
    let mut img = two_extents();
    put_head(&mut img, 0, LCLUSTER_TYPE_HEAD1, 4096, 10);
    assert_eq!(map_blocks(&fs_on(img), &inode, 0), Err(Errno::EUCLEAN));
}

#[test]
fn what_is_not_supported_is_refused() {
    let inode = inode_of(FULL, 12388);
    // The second kind of head.
    let mut img = two_extents();
    put_head(&mut img, 0, LCLUSTER_TYPE_HEAD2, 0, 10);
    assert_eq!(map_blocks(&fs_on(img), &inode, 0), Err(Errno::EOPNOTSUPP));
    // A reference to a part of a cluster.
    let mut img = two_extents();
    let at = HEADER + 16;
    img[at..at + 2].copy_from_slice(&(LI_PARTIAL_REF | LCLUSTER_TYPE_HEAD1 as u16).to_le_bytes());
    assert_eq!(map_blocks(&fs_on(img), &inode, 0), Err(Errno::EOPNOTSUPP));
}

#[test]
fn a_compact_index_is_read() {
    // The index starts at 4168, so six entries of four bytes come first.
    let mut img = image(0, 0, 0);
    let base = HEADER + 8;
    let pairs: [[(u8, u16); 2]; 2] = [
        [(LCLUSTER_TYPE_HEAD1, 0), (LCLUSTER_TYPE_NONHEAD, 1)],
        [(LCLUSTER_TYPE_HEAD1, 5), (LCLUSTER_TYPE_NONHEAD, 1)],
    ];
    for (i, pair) in pairs.iter().enumerate() {
        let at = base + 8 * i;
        pack_indexes(&mut img[at..at + 8], pair, 12, 4, 9 + i as u32);
    }
    let fs = fs_on(img);
    let inode = inode_of(COMPACT, 12388);
    assert_eq!(
        map_blocks(&fs, &inode, 5000),
        Ok(mapping(0, 8197, 10 * 4096, 4096, Algorithm::Lz4))
    );
    assert_eq!(
        map_blocks(&fs, &inode, 8197),
        Ok(mapping(
            8197,
            12388 - 8197,
            11 * 4096,
            4096,
            Algorithm::Lz4
        ))
    );
}

#[test]
fn a_device_that_ends_early_is_corrupt() {
    let inode = inode_of(FULL, 12388);
    let mut img = two_extents();
    img.truncate(HEADER + 7);
    assert_eq!(map_blocks(&fs_on(img), &inode, 0), Err(Errno::EUCLEAN));
    let mut img = two_extents();
    img.truncate(HEADER + 16 + 8);
    assert_eq!(map_blocks(&fs_on(img), &inode, 8192), Err(Errno::EUCLEAN));
}

#[test]
fn headers_are_checked() {
    let sb = test_sb();
    let header = |advise: u16, algorithms: u8, clusterbits: u8| {
        let a = advise.to_le_bytes();
        [0, 0, 0, 0, a[0], a[1], algorithms, clusterbits]
    };
    let parse = |sb: &SuperBlock, layout: Layout, h: [u8; 8]| {
        ZInodeInfo::parse(sb, layout, &h).map(|i| (i.advise, i.logical_clusterbits))
    };
    let full = Layout::CompressedFull;
    assert_eq!(parse(&sb, full, header(1, 0, 0)), Ok((1, 12)));
    // A file that stands in the packed inode.
    assert_eq!(
        parse(&sb, full, header(0, 0, 0x80)),
        Err(Errno::EOPNOTSUPP)
    );
    // Other algorithms.
    assert_eq!(parse(&sb, full, header(0, 1, 0)), Err(Errno::EOPNOTSUPP));
    assert_eq!(
        parse(&sb, full, header(0, 0x10, 0)),
        Err(Errno::EOPNOTSUPP)
    );
    // Clusters that are larger than a block.
    assert_eq!(parse(&sb, full, header(0, 0, 1)), Err(Errno::EOPNOTSUPP));
    for advise in [
        ADVISE_INLINE_PCLUSTER,
        ADVISE_INTERLACED_PCLUSTER,
        ADVISE_FRAGMENT_PCLUSTER,
    ] {
        assert_eq!(
            parse(&sb, full, header(advise, 0, 0)),
            Err(Errno::EOPNOTSUPP)
        );
    }
    // Big clusters need the feature, and in a compact index both kinds of heads have them.
    let one = header(ADVISE_BIG_PCLUSTER_1, 0, 0);
    let both = header(ADVISE_BIG_PCLUSTER_1 | ADVISE_BIG_PCLUSTER_2, 0, 0);
    assert_eq!(parse(&sb, full, one), Err(Errno::EUCLEAN));
    let big = SuperBlock {
        feature_incompat: 0x2,
        ..sb
    };
    assert_eq!(parse(&big, full, one), Ok((2, 12)));
    let compact = Layout::CompressedCompact;
    assert_eq!(parse(&big, compact, one), Err(Errno::EUCLEAN));
    assert_eq!(parse(&big, compact, both), Ok((6, 12)));
    // Blocks that are too large for an index.
    let huge = SuperBlock {
        blkszbits: 15,
        ..sb
    };
    assert_eq!(parse(&huge, full, header(0, 0, 0)), Err(Errno::EOPNOTSUPP));
}

#[test]
fn a_file_that_is_not_compressed_has_no_header() {
    let fs = fs_on(two_extents());
    let inode = inode_of(0, 12388);
    assert_eq!(
        ZInodeInfo::read(&fs, &inode).map(|i| i.advise),
        Err(Errno::EUCLEAN)
    );
    assert_eq!(map_blocks(&fs, &inode, 0), Err(Errno::EUCLEAN));
}

#[test]
fn an_extent_ends_with_the_file() {
    // The second head starts behind the end of the file, within its last cluster.
    let mut img = image(0, 0, 0);
    put_head(&mut img, 0, LCLUSTER_TYPE_HEAD1, 0, 10);
    put_head(&mut img, 1, LCLUSTER_TYPE_HEAD1, 100, 11);
    let fs = fs_on(img);
    let inode = inode_of(FULL, 4146);
    for offset in [0, 4095, 4096, 4145] {
        assert_eq!(
            map_blocks(&fs, &inode, offset),
            Ok(mapping(0, 4146, 10 * 4096, 4096, Algorithm::Lz4))
        );
    }
    // In a longer file the first extent ends with the second head.
    let inode = inode_of(FULL, 8000);
    assert_eq!(
        map_blocks(&fs, &inode, 4195),
        Ok(mapping(0, 4196, 10 * 4096, 4096, Algorithm::Lz4))
    );
}

#[test]
fn large_clusters_are_not_supported() {
    let sb = test_sb();
    let inode = test_inode(1 << 20);
    let pack = [0u8; 64];
    for bits in [15, 40, 63] {
        let info = ZInodeInfo {
            logical_clusterbits: bits,
            ..test_zinfo(0)
        };
        let mut m = Mapper::new(&sb, &NullBackend, &inode, info);
        assert_eq!(
            m.unpack_compact(&pack, 2, 0, false).err(),
            Some(Errno::EOPNOTSUPP)
        );
    }
    let mut fs = fs_on(two_extents());
    let inode = inode_of(FULL, 12388);
    fs.sb.blkszbits = 40;
    assert!(map_blocks(&fs, &inode, 0).is_err());
}

#[test]
fn a_block_of_the_index_has_to_be_there() {
    let sb = test_sb();
    let inode = inode_of(3 << 1, 1 << 14);
    let mut m = Mapper::new(&sb, &NullBackend, &inode, test_zinfo(0));
    let block = [0u8; 4096];
    assert_eq!(
        m.take_compact_entry(0, false, &block, Err(Errno::ENODEV)),
        Err(Errno::ENODEV)
    );
    assert_eq!(
        m.take_compact_entry(0, false, &block, Ok(4095)),
        Err(Errno::EUCLEAN)
    );
    assert_eq!(m.take_compact_entry(0, false, &block, Ok(4096)), Ok(()));
    // The file has four clusters.
    assert_eq!(m.take_compact_entry(3, false, &block, Ok(4096)), Ok(()));
    assert_eq!(
        m.take_compact_entry(4, false, &block, Ok(4096)),
        Err(Errno::EUCLEAN)
    );
}

#[test]
fn an_extent_of_another_kind_only_fails_where_it_is_met() {
    // Two extents that are supported, and one that is not.
    let mut img = image(0, 0, 0);
    put_head(&mut img, 0, LCLUSTER_TYPE_HEAD1, 0, 10);
    put_head(&mut img, 1, LCLUSTER_TYPE_HEAD1, 0, 11);
    put_head(&mut img, 2, LCLUSTER_TYPE_HEAD2, 7, 12);
    let fs = fs_on(img);
    let inode = inode_of(FULL, 12288);
    assert_eq!(
        map_blocks(&fs, &inode, 5),
        Ok(mapping(0, 4096, 10 * 4096, 4096, Algorithm::Lz4))
    );
    for offset in [4096, 8192, 8198, 8199, 12287] {
        assert_eq!(map_blocks(&fs, &inode, offset), Err(Errno::EOPNOTSUPP));
    }
}

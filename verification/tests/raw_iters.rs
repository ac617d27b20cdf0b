//! Handing out the bytes of files and areas.

use erofs::compression::CompressionInfo;
use erofs::data::raw_iters::decoded::{
    check_plen, decode_delivered, decode_extent, decode_into, decode_target, extent_block,
    lz4_block, Chunk, DecodedExtent, MapBufferState,
};
use erofs::data::raw_iters::ref_iter::{ContinuousRefIter, RefMapIter};
use erofs::data::raw_iters::temp_iter::{ContinuousTempBufferIter, TempBufferMapIter};
use erofs::data::raw_iters::traits::{BufferMapIter, ContinuousBufferIter};
use erofs::data::{Backend, BlockBuffer, Buffer, FileBackend, MemoryBackend, RefBuffer, TempBuffer};
use erofs::errnos::{Errno, PosixResult};
use erofs::map::{Algorithm, MapIter, MapResult, MapType, Mapping, Segment};
use erofs::superblock::SuperBlock;
use erofs::Off;

/// A device in memory. From `broken` on it cannot be read.
struct Device {
    data: Vec<u8>,
    broken: u64,
}

impl Backend for Device {
    fn fill(&self, data: &mut [u8], _device_id: i32, offset: Off) -> PosixResult<u64> {
        if offset + data.len() as u64 > self.broken {
            return Err(Errno::EIO);
        }
        if offset >= self.data.len() as u64 {
            return Ok(0);
        }
        let at = offset as usize;
        let n = data.len().min(self.data.len() - at);
        data[..n].copy_from_slice(&self.data[at..at + n]);
        Ok(n as u64)
    }
}

impl FileBackend for Device {}

impl<'a> MemoryBackend<'a> for Device {
    fn as_buf(&'a self, _device_id: i32, offset: Off, len: Off) -> PosixResult<RefBuffer<'a>> {
        let end = offset + len;
        if end > self.broken || end > self.data.len() as u64 {
            return Err(Errno::EIO);
        }
        Ok(RefBuffer::new(&self.data[offset as usize..end as usize]))
    }
}

fn device(data: Vec<u8>) -> Device {
    Device {
        data,
        broken: u64::MAX,
    }
}

/// Hands out mappings; a failure is reported again and again.
struct Maps(Vec<MapResult>);

impl MapIter for Maps {
    fn next(&mut self) -> Option<MapResult> {
        match self.0.first() {
            None => None,
            Some(Err(e)) => Some(Err(*e)),
            Some(Ok(_)) => Some(self.0.remove(0)),
        }
    }
}

fn sb(feature_incompat: i32) -> SuperBlock {
    SuperBlock {
        blkszbits: 12,
        feature_incompat,
        ..Default::default()
    }
}

fn map(la: u64, llen: u64, pa: u64, plen: u64, algorithm: Algorithm) -> Mapping {
    Mapping {
        logical: Segment {
            start: la,
            len: llen,
        },
        physical: Segment {
            start: pa,
            len: plen,
        },
        algorithm_format: 0,
        device_id: 0,
        map_type: MapType::Normal,
        algorithm,
    }
}

/// An LZ4 block of `len` times the byte `b`, with `len` at least 20.
fn run_of(b: u8, len: usize) -> Vec<u8> {
    let mut block = vec![0x1f, b, 0x01, 0x00];
    let mut extension = len - 20;
    while extension >= 255 {
        block.push(0xff);
        extension -= 255;
    }
    block.push(extension as u8);
    block
}

/// A cluster of one block that holds `block` at its end.
fn padded(block: &[u8]) -> Vec<u8> {
    let mut cluster = vec![0u8; 4096 - block.len()];
    cluster.extend_from_slice(block);
    cluster
}

fn lens_and_bytes<'a, T: BufferMapIter<'a>>(iter: &mut T) -> PosixResult<(Vec<usize>, Vec<u8>)> {
    let mut lens = Vec::new();
    let mut bytes = Vec::new();
    while let Some(buf) = iter.next() {
        let buf = buf?;
        lens.push(buf.content().len());
        bytes.extend_from_slice(buf.content());
    }
    Ok((lens, bytes))
}

fn read_temp(
    sb: &SuperBlock,
    dev: &Device,
    compr: Option<&CompressionInfo>,
    maps: Vec<MapResult>,
    offset: Off,
) -> PosixResult<(Vec<usize>, Vec<u8>)> {
    lens_and_bytes(&mut TempBufferMapIter::new(
        sb,
        dev,
        compr,
        Maps(maps),
        offset,
    ))
}

fn read_ref(
    sb: &SuperBlock,
    dev: &Device,
    compr: Option<&CompressionInfo>,
    maps: Vec<MapResult>,
    offset: Off,
) -> PosixResult<(Vec<usize>, Vec<u8>)> {
    lens_and_bytes(&mut RefMapIter::new(sb, dev, compr, Maps(maps), offset))
}

#[test]
fn raw_mappings_are_handed_out_as_they_are() {
    let sb = sb(0);
    let dev = device((0..20000u32).map(|i| (i % 251) as u8).collect());
    let maps = || {
        vec![
            Ok(map(0, 4096, 4096, 4096, Algorithm::Raw)),
            Ok(map(4096, 300, 8192 + 100, 300, Algorithm::Raw)),
        ]
    };
    let mut expected = dev.data[4096..8192].to_vec();
    expected.extend_from_slice(&dev.data[8292..8592]);
    for read in [read_temp, read_ref] {
        let (lens, bytes) = read(&sb, &dev, None, maps(), 0).unwrap();
        assert_eq!(lens, [4096, 300]);
        assert_eq!(bytes, expected);
    }
}

#[test]
fn a_raw_buffer_ends_with_its_block() {
    let sb = sb(0);
    let dev = device(vec![7; 20000]);
    let maps = vec![Ok(map(0, 5000, 100, 5000, Algorithm::Raw))];
    assert_eq!(
        read_temp(&sb, &dev, None, maps, 0).unwrap(),
        (vec![3996], vec![7; 3996])
    );
}

#[test]
fn a_raw_buffer_is_filled_up_with_zeros() {
    let sb = sb(0);
    let dev = device(vec![7; 4100]);
    let maps = || vec![Ok(map(0, 10, 4096, 10, Algorithm::Raw))];
    let (_, bytes) = read_temp(&sb, &dev, None, maps(), 0).unwrap();
    assert_eq!(bytes, [7, 7, 7, 7, 0, 0, 0, 0, 0, 0]);
    // What is borrowed has to be there.
    assert_eq!(read_ref(&sb, &dev, None, maps(), 0), Err(Errno::EIO));
}

#[test]
fn an_extent_is_handed_out_block_by_block() {
    let sb = sb(1);
    let dev = device(padded(&run_of(b'A', 10000)));
    for read in [read_temp, read_ref] {
        for (offset, lens) in [
            (0, vec![4096, 4096, 1808]),
            (100, vec![3996, 4096, 1808]),
            (4096, vec![4096, 1808]),
            (9999, vec![1]),
        ] {
            let maps = vec![Ok(map(0, 10000, 0, 4096, Algorithm::Lz4))];
            let (got, bytes) = read(&sb, &dev, None, maps, offset).unwrap();
            assert_eq!(got, lens);
            assert_eq!(bytes, vec![b'A'; 10000 - offset as usize]);
        }
    }
}

#[test]
fn a_long_extent_is_decoded_in_steps() {
    let sb = sb(1);
    let dev = device(padded(&run_of(b'x', 200_001)));
    let maps = vec![Ok(map(5, 200_001, 0, 4096, Algorithm::Lz4))];
    let (lens, bytes) = read_temp(&sb, &dev, None, maps, 5).unwrap();
    assert_eq!(bytes, vec![b'x'; 200_001]);
    assert_eq!(lens[0], 4091);
    assert!(lens.iter().all(|l| 0 < *l && *l <= 4096));
}

#[test]
fn extents_follow_one_another() {
    let sb = sb(1);
    let mut data = padded(&run_of(1, 5000));
    data.extend_from_slice(&padded(&run_of(2, 6000)));
    data.extend_from_slice(&vec![3; 4096]);
    let dev = device(data);
    let maps = vec![
        Ok(map(0, 5000, 0, 4096, Algorithm::Lz4)),
        Ok(map(5000, 6000, 4096, 4096, Algorithm::Lz4)),
        Ok(map(11000, 1000, 8192, 4096, Algorithm::Shifted)),
    ];
    let (lens, bytes) = read_temp(&sb, &dev, None, maps, 1000).unwrap();
    let mut expected = vec![1; 4000];
    expected.extend_from_slice(&vec![2; 6000]);
    expected.extend_from_slice(&vec![3; 1000]);
    assert_eq!(bytes, expected);
    assert_eq!(lens, [3096, 904, 3192, 2808, 1000]);
}

#[test]
fn without_padding_the_block_starts_with_the_cluster() {
    let sb = sb(0);
    let mut cluster = run_of(b'B', 100);
    cluster.resize(4096, 0);
    let dev = device(cluster);
    let maps = vec![Ok(map(0, 100, 0, 4096, Algorithm::Lz4))];
    let (lens, bytes) = read_temp(&sb, &dev, None, maps, 0).unwrap();
    assert_eq!(lens, [100]);
    assert_eq!(bytes, vec![b'B'; 100]);
}

#[test]
fn corrupt_extents_are_refused() {
    let padding = sb(1);
    let dev = device(padded(&run_of(b'A', 10000)));
    let small = CompressionInfo {
        lz4_max_distance: 0,
        lz4_max_pclusterblks: 0,
    };
    let lz4 = Algorithm::Lz4;
    let cases = [
        // A mapping behind the place that comes next.
        map(1, 10, 0, 4096, lz4),
        // Clusters of nothing, of a part of a block, and of too many blocks.
        map(0, 10, 0, 0, lz4),
        map(0, 10, 0, 100, lz4),
        map(0, 10, 0, 0x10_0000 + 4096, lz4),
        // A cluster that is larger than the image allows.
        map(0, 10, 0, 8192, lz4),
        // More than a cluster that is not compressed holds.
        map(0, 4097, 0, 4096, Algorithm::Shifted),
        // Nothing to hand out.
        map(0, 10, 0, 0, Algorithm::Raw),
        // A cluster that is not on the device.
        map(0, 10, 4096, 4096, lz4),
    ];
    for case in cases {
        assert_eq!(
            read_temp(&padding, &dev, Some(&small), vec![Ok(case)], 0),
            Err(Errno::EUCLEAN)
        );
    }
    // More than was compressed.
    let maps = vec![Ok(map(0, 10001, 0, 4096, lz4))];
    assert_eq!(
        read_temp(&padding, &dev, Some(&small), maps, 0),
        Err(Errno::EIO)
    );
    // A cluster of zeros.
    let zeros = device(vec![0; 4096]);
    let maps = vec![Ok(map(0, 10, 0, 4096, lz4))];
    assert_eq!(
        read_temp(&padding, &zeros, None, maps, 0),
        Err(Errno::EUCLEAN)
    );
}

#[test]
fn failures_are_passed_on() {
    let sb = sb(1);
    let mut dev = device(padded(&run_of(b'A', 10000)));
    assert_eq!(
        read_temp(&sb, &dev, None, vec![Err(Errno::EIO)], 0),
        Err(Errno::EIO)
    );
    assert_eq!(read_temp(&sb, &dev, None, vec![], 0), Ok((vec![], vec![])));
    dev.broken = 0;
    let maps = vec![Ok(map(0, 10000, 0, 4096, Algorithm::Lz4))];
    assert_eq!(read_temp(&sb, &dev, None, maps, 0), Err(Errno::EIO));
    let maps = vec![Ok(map(0, 10, 0, 10, Algorithm::Raw))];
    assert_eq!(read_temp(&sb, &dev, None, maps, 0), Err(Errno::EIO));
}

#[test]
fn the_end_stays_the_end() {
    let sb = sb(0);
    let dev = device(vec![1; 4096]);
    let maps = Maps(vec![Ok(map(0, 10, 0, 10, Algorithm::Raw))]);
    let mut iter = TempBufferMapIter::new(&sb, &dev, None, maps, 0);
    assert!(matches!(iter.next(), Some(Ok(_))));
    assert!(iter.next().is_none());
    assert!(iter.next().is_none());
}

fn drain<'a, T: ContinuousBufferIter<'a>>(iter: &mut T) -> (Vec<usize>, Vec<u8>) {
    let mut lens = Vec::new();
    let mut bytes = Vec::new();
    while let Some(buf) = iter.next() {
        let buf = buf.unwrap();
        lens.push(buf.content().len());
        bytes.extend_from_slice(buf.content());
    }
    (lens, bytes)
}

#[test]
fn an_area_is_handed_out_as_it_stands_on_the_device() {
    let sb = sb(0);
    let dev = device((0..20000u32).map(|i| (i % 253) as u8).collect());
    let mut temp = ContinuousTempBufferIter::new(&sb, &dev, 4000, 5000);
    let mut borrowed = ContinuousRefIter::new(&sb, &dev, 4000, 5000);
    assert!(!temp.eof() && !borrowed.eof());
    let expected = (vec![96, 4096, 808], dev.data[4000..9000].to_vec());
    assert_eq!(drain(&mut temp), expected);
    assert_eq!(drain(&mut borrowed), expected);
    assert!(temp.eof() && borrowed.eof());
}

#[test]
fn bytes_of_an_area_can_be_skipped() {
    let sb = sb(0);
    let dev = device((0..20000u32).map(|i| (i % 253) as u8).collect());
    let mut temp = ContinuousTempBufferIter::new(&sb, &dev, 4000, 5000);
    let mut borrowed = ContinuousRefIter::new(&sb, &dev, 4000, 5000);
    temp.advance_off(200);
    borrowed.advance_off(200);
    let expected = (vec![3992, 808], dev.data[4200..9000].to_vec());
    assert_eq!(drain(&mut temp), expected);
    assert_eq!(drain(&mut borrowed), expected);
    let mut all = ContinuousRefIter::new(&sb, &dev, 4000, 5000);
    all.advance_off(5000);
    assert!(all.eof());
    assert!(all.next().is_none());
}

#[test]
fn a_failing_area_stays_where_it_is() {
    let sb = sb(0);
    let mut dev = device(vec![9; 8192]);
    dev.broken = 4096;
    let mut temp = ContinuousTempBufferIter::new(&sb, &dev, 4090, 10);
    assert!(matches!(temp.next(), Some(Ok(_))));
    assert!(matches!(temp.next(), Some(Err(Errno::EIO))));
    assert!(matches!(temp.next(), Some(Err(Errno::EIO))));
    assert!(!temp.eof());
    let mut borrowed = ContinuousRefIter::new(&sb, &dev, 4090, 10);
    assert!(matches!(borrowed.next(), Some(Ok(_))));
    assert!(matches!(borrowed.next(), Some(Err(Errno::EIO))));
    assert!(!borrowed.eof());
}

#[test]
fn decoding_grows_with_what_was_decoded() {
    assert_eq!(decode_target(1_000_000, 10, 0), 0x1_0000);
    assert_eq!(decode_target(1_000_000, 70_000, 0), 70_000);
    assert_eq!(decode_target(1_000_000, 70_000, 65_536), 131_072);
    assert_eq!(decode_target(100, 10, 0), 100);
    assert_eq!(decode_target(u64::MAX, 1, u64::MAX), u64::MAX);
}

#[test]
fn less_of_an_extent_is_its_front() {
    let sb = sb(1);
    let mut block = vec![0x36, b'a', b'b', b'c', 0x03, 0x00];
    block.extend_from_slice(&[0x30, b'x', b'y', b'z']);
    let raw = padded(&block);
    let m = map(0, 16, 0, 4096, Algorithm::Lz4);
    let whole = decode_extent(&sb, &m, &raw, 16).unwrap();
    assert_eq!(whole, b"abcabcabcabcaxyz");
    for target in 1..=20u64 {
        let len = target.min(16) as usize;
        assert_eq!(
            decode_extent(&sb, &m, &raw, target).unwrap(),
            &whole[..len]
        );
    }
    // At least one byte is decoded.
    assert_eq!(decode_extent(&sb, &m, &raw, 0).unwrap(), b"a");
    let plain = map(0, 16, 0, 4096, Algorithm::Raw);
    assert_eq!(
        decode_extent(&sb, &plain, &raw, 16),
        Err(Errno::EUCLEAN)
    );
}

#[test]
fn padding_is_skipped_in_the_first_block() {
    assert_eq!(lz4_block(&sb(1), &[0, 0, 5, 0]), Ok(&[5u8, 0][..]));
    assert_eq!(lz4_block(&sb(0), &[0, 0, 5, 0]), Ok(&[0u8, 0, 5, 0][..]));
    assert_eq!(lz4_block(&sb(1), &[0, 0]), Err(Errno::EUCLEAN));
    let mut late = vec![0u8; 4096];
    late.push(1);
    assert_eq!(lz4_block(&sb(1), &late), Err(Errno::EUCLEAN));
}

#[test]
fn cluster_sizes_are_checked() {
    let sb = sb(0);
    let two = CompressionInfo {
        lz4_max_distance: 0,
        lz4_max_pclusterblks: 2,
    };
    assert!(check_plen(&sb, None, 4096));
    assert!(check_plen(&sb, None, 0x10_0000));
    assert!(!check_plen(&sb, None, 0x10_1000));
    assert!(!check_plen(&sb, None, 0));
    assert!(!check_plen(&sb, None, 4097));
    assert!(check_plen(&sb, Some(&two), 8192));
    assert!(!check_plen(&sb, Some(&two), 12288));
}

#[test]
fn a_decoded_extent_hands_out_copies() {
    let sb = sb(1);
    let dev = device(padded(&run_of(b'q', 1000)));
    let m = map(500, 1000, 0, 4096, Algorithm::Lz4);
    let ext = DecodedExtent::load(&sb, &dev, None, &m, 600).unwrap();
    assert_eq!(ext.data_len(), 600);
    assert!(ext.covers(1100));
    assert!(!ext.covers(1101));
    assert_eq!(ext.take(500, 10), Ok(vec![b'q'; 10]));
    assert_eq!(ext.take(1095, 10), Ok(vec![b'q'; 5]));
    assert_eq!(ext.take(1100, 10), Ok(vec![]));
    assert_eq!(ext.take(1101, 1), Err(Errno::EUCLEAN));
    assert_eq!(ext.take(499, 1), Err(Errno::EUCLEAN));
}

#[test]
fn chunks_start_where_the_last_one_ended() {
    let sb = sb(1);
    let dev = device(padded(&run_of(b'q', 9000)));
    let mut state = MapBufferState::new(None, 4000);
    assert_eq!(state.advance(&sb, &dev), Ok(None));
    assert_eq!(state.take(4000, 1), Err(Errno::EUCLEAN));
    let m = map(0, 9000, 0, 4096, Algorithm::Lz4);
    assert_eq!(state.feed(&sb, &dev, m), Ok(None));
    let chunks: Vec<Option<Chunk>> = (0..4)
        .map(|_| state.advance(&sb, &dev).unwrap())
        .collect();
    assert_eq!(
        chunks,
        [
            Some(Chunk::Decoded {
                from: 4000,
                len: 96
            }),
            Some(Chunk::Decoded {
                from: 4096,
                len: 4096
            }),
            Some(Chunk::Decoded {
                from: 8192,
                len: 808
            }),
            None,
        ]
    );
    let raw = map(9000, 50, 4096 + 4090, 50, Algorithm::Raw);
    assert_eq!(
        state.feed(&sb, &dev, raw),
        Ok(Some(Chunk::Raw {
            device_id: 0,
            start: 8186,
            len: 6
        }))
    );
}

#[test]
fn an_extent_at_the_end_of_the_address_space_is_corrupt() {
    let sb = sb(1);
    let dev = device(padded(&run_of(b'q', 9000)));
    let start = u64::MAX - 4000;
    let mut state = MapBufferState::new(None, start);
    let m = map(start, 4000, 0, 4096, Algorithm::Lz4);
    assert_eq!(state.feed(&sb, &dev, m), Ok(None));
    assert_eq!(state.advance(&sb, &dev), Err(Errno::EUCLEAN));
}

#[test]
fn buffers_show_their_bytes() {
    let temp = TempBuffer::new(vec![1, 2, 3, 4, 5], 1, 4);
    assert_eq!(temp.content(), [2, 3, 4]);
    assert_eq!(BlockBuffer::Temp(temp).content(), [2, 3, 4]);
    let data = [7u8, 8];
    assert_eq!(BlockBuffer::Ref(RefBuffer::new(&data)).content(), [7, 8]);
}

#[test]
fn a_block_that_yields_too_little_is_an_io_error() {
    // The block decodes to one byte, and eight are wanted.
    let dev = device(padded(&[0x10, b'A']));
    let m = map(0, 8, 0, 4096, Algorithm::Lz4);
    assert_eq!(
        DecodedExtent::load(&sb(1), &dev, None, &m, 8).err(),
        Some(Errno::EIO)
    );
    assert_eq!(
        decode_extent(&sb(1), &m, &padded(&[0x10, b'A']), 8),
        Err(Errno::EIO)
    );
    // One byte is there.
    let ext = DecodedExtent::load(&sb(1), &dev, None, &m, 1).unwrap();
    assert_eq!(ext.take(0, 8), Ok(vec![b'A']));
}

#[test]
fn a_large_block_size_only_limits_the_cluster() {
    let sb = SuperBlock {
        blkszbits: 40,
        ..Default::default()
    };
    let info = CompressionInfo {
        lz4_max_distance: 0,
        lz4_max_pclusterblks: 0xffff,
    };
    assert!(!check_plen(&sb, Some(&info), 4096));
    assert!(!check_plen(&sb, None, 1 << 40));
}

#[test]
fn what_a_device_delivers_is_decoded_or_refused() {
    let sb = sb(1);
    let m = map(0, 8, 0, 4096, Algorithm::Lz4);
    let cluster = padded(&run_of(b'A', 20));
    assert_eq!(
        decode_delivered(&sb, &m, &cluster, Ok(4096), 8),
        Ok(vec![b'A'; 8])
    );
    assert_eq!(
        decode_delivered(&sb, &m, &cluster, Ok(4095), 8),
        Err(Errno::EUCLEAN)
    );
    assert_eq!(
        decode_delivered(&sb, &m, &cluster, Err(Errno::ENODEV), 8),
        Err(Errno::ENODEV)
    );
}

#[test]
fn an_extent_is_decoded_into_the_room_there_is() {
    let mut data = [0u8; 4];
    assert_eq!(
        decode_into(Algorithm::Lz4, &[0x20, 1, 2], &mut data),
        Err(Errno::EIO)
    );
    assert_eq!(data, [1, 2, 0, 0]);
    assert_eq!(
        decode_into(Algorithm::Lz4, &[0x20, 1], &mut data),
        Err(Errno::EUCLEAN)
    );
    assert_eq!(decode_into(Algorithm::Lz4, &[0x40, 5, 6, 7, 8], &mut data), Ok(()));
    assert_eq!(data, [5, 6, 7, 8]);
    assert_eq!(decode_into(Algorithm::Shifted, &[9; 6], &mut data), Ok(()));
    assert_eq!(data, [9; 4]);
    let raw = [3u8; 4];
    for (llen, algorithm, expected) in [
        (4, Algorithm::Shifted, Ok(&raw[..])),
        (5, Algorithm::Shifted, Err(Errno::EUCLEAN)),
        (4, Algorithm::Raw, Err(Errno::EUCLEAN)),
        (9, Algorithm::Lz4, Ok(&raw[..])),
    ] {
        assert_eq!(
            extent_block(&sb(1), &map(0, llen, 0, 4, algorithm), &raw),
            expected
        );
    }
}

#[test]
fn a_failing_extent_is_passed_by() {
    // The first extent is corrupt, the second one is not, and then the mappings fail.
    let mut data = vec![0u8; 4096];
    data.extend(padded(&run_of(b'B', 100)));
    let dev = device(data);
    let padding = sb(1);
    let maps = vec![
        Ok(map(0, 100, 0, 4096, Algorithm::Lz4)),
        Ok(map(0, 100, 4096, 4096, Algorithm::Lz4)),
        Err(Errno::EIO),
    ];
    let mut iter = TempBufferMapIter::new(&padding, &dev, None, Maps(maps.clone()), 0);
    assert_eq!(iter.next().unwrap().err(), Some(Errno::EUCLEAN));
    assert_eq!(iter.next().unwrap().unwrap().content(), &[b'B'; 100]);
    assert_eq!(iter.next().unwrap().err(), Some(Errno::EIO));
    assert_eq!(iter.next().unwrap().err(), Some(Errno::EIO));
    let mut iter = RefMapIter::new(&padding, &dev, None, Maps(maps), 0);
    assert_eq!(iter.next().unwrap().err(), Some(Errno::EUCLEAN));
    assert_eq!(iter.next().unwrap().unwrap().content(), &[b'B'; 100]);
    assert_eq!(iter.next().unwrap().err(), Some(Errno::EIO));
}

#[test]
fn borrowed_bytes_need_no_room_for_a_block() {
    let large = SuperBlock {
        blkszbits: 40,
        ..Default::default()
    };
    let dev = device(vec![7; 5000]);
    let mut iter = ContinuousRefIter::new(&large, &dev, 100, 4900);
    assert_eq!(iter.next().unwrap().unwrap().content(), &[7; 4900]);
    assert!(iter.next().is_none());
    let maps = vec![Ok(map(0, 5000, 0, 5000, Algorithm::Raw))];
    let mut iter = RefMapIter::new(&large, &dev, None, Maps(maps), 0);
    assert_eq!(iter.next().unwrap().unwrap().content().len(), 5000);
    assert!(iter.next().is_none());
}

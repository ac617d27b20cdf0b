//! Compression configurations.

use erofs::compression::{
    load_compr_cfgs, parse_lz4_cfgs, read_cfg_record, CompressionInfo,
    EROFS_FEATURE_INCOMPAT_COMPR_CFGS, LZ4_CFGS_SIZE,
};
use erofs::data::Backend;
use erofs::errnos::{Errno, PosixResult};
use erofs::superblock::SuperBlock;
use erofs::Off;

/// An image in memory: a request behind its end is answered with what there is.
struct MemBackend(Vec<u8>);

impl Backend for MemBackend {
    fn fill(&self, data: &mut [u8], _device_id: i32, offset: Off) -> PosixResult<u64> {
        let end = (offset as usize).saturating_add(data.len());
        if offset as usize >= self.0.len() {
            return Ok(0);
        }
        let n = end.min(self.0.len()) - offset as usize;
        data[..n].copy_from_slice(&self.0[offset as usize..offset as usize + n]);
        Ok(n as u64)
    }
}

/// A device that cannot be read.
struct BrokenBackend;

impl Backend for BrokenBackend {
    fn fill(&self, _data: &mut [u8], _device_id: i32, _offset: Off) -> PosixResult<u64> {
        Err(Errno::EIO)
    }
}

fn empty_sb() -> SuperBlock {
    SuperBlock {
        blkszbits: 12,
        blocks: 64,
        ..Default::default()
    }
}

#[test]
fn no_compression_returns_none() {
    let backend = MemBackend(vec![0u8; 4096]);
    assert!(load_compr_cfgs(&backend, &empty_sb()).unwrap().is_none());
}

#[test]
fn legacy_image_uses_u1_as_max_distance() {
    let backend = MemBackend(vec![0u8; 4096]);
    let mut sb = empty_sb();
    sb.compression = 65535u16 as i16;
    let info = load_compr_cfgs(&backend, &sb).unwrap().unwrap();
    assert_eq!(info.lz4_max_distance, 65535);
    assert_eq!(info.lz4_max_pclusterblks, 1);
}

/// An image with a configuration behind its superblock.
fn image_with_cfg(sb_extslots: u8, alg_bits: u16, cfg: &[u8]) -> (MemBackend, SuperBlock) {
    let mut sb = empty_sb();
    sb.sb_extslots = sb_extslots;
    sb.feature_incompat = EROFS_FEATURE_INCOMPAT_COMPR_CFGS as i32;
    sb.compression = alg_bits as i16;

    let sb_size = 128 + sb_extslots as usize * 16;
    let cfg_off = 1024 + sb_size;
    let mut img = vec![0u8; (cfg_off + 2 + cfg.len()).max(4096)];
    img[cfg_off..cfg_off + 2].copy_from_slice(&(cfg.len() as u16).to_le_bytes());
    img[cfg_off + 2..cfg_off + 2 + cfg.len()].copy_from_slice(cfg);
    (MemBackend(img), sb)
}

#[test]
fn lz4_cfgs_are_parsed() {
    let mut cfg = [0u8; LZ4_CFGS_SIZE];
    cfg[0..2].copy_from_slice(&65535u16.to_le_bytes());
    cfg[2..4].copy_from_slice(&16u16.to_le_bytes());
    let (backend, sb) = image_with_cfg(0, 0x1, &cfg);
    let info = load_compr_cfgs(&backend, &sb).unwrap().unwrap();
    assert_eq!(info.lz4_max_distance, 65535);
    assert_eq!(info.lz4_max_pclusterblks, 16);
}

#[test]
fn reserved_pclusterblks_is_one() {
    let mut cfg = [0u8; LZ4_CFGS_SIZE];
    cfg[2..4].copy_from_slice(&0u16.to_le_bytes());
    let (backend, sb) = image_with_cfg(0, 0x1, &cfg);
    assert_eq!(
        load_compr_cfgs(&backend, &sb)
            .unwrap()
            .unwrap()
            .lz4_max_pclusterblks,
        1
    );
}

#[test]
fn lzma_and_deflate_are_rejected() {
    let cfg = [0u8; LZ4_CFGS_SIZE];
    for bits in [0x2u16, 0x4, 0x6] {
        let (backend, sb) = image_with_cfg(0, bits, &cfg);
        assert_eq!(
            load_compr_cfgs(&backend, &sb).unwrap_err(),
            Errno::EOPNOTSUPP
        );
    }
}

#[test]
fn unknown_algorithm_bits_are_clean() {
    let (backend, sb) = image_with_cfg(0, 0x8, &[]);
    assert_eq!(load_compr_cfgs(&backend, &sb).unwrap_err(), Errno::EUCLEAN);
}

#[test]
fn short_cfg_payload_is_rejected() {
    let (backend, sb) = image_with_cfg(0, 0x1, &[0u8; LZ4_CFGS_SIZE - 1]);
    assert_eq!(load_compr_cfgs(&backend, &sb).unwrap_err(), Errno::EUCLEAN);
}

#[test]
fn oversized_pclusterblks_is_rejected() {
    let mut cfg = [0u8; LZ4_CFGS_SIZE];
    // With blocks of 4096 bytes the limit is 1 MiB / 4096 = 256.
    cfg[2..4].copy_from_slice(&257u16.to_le_bytes());
    let (backend, sb) = image_with_cfg(0, 0x1, &cfg);
    assert_eq!(load_compr_cfgs(&backend, &sb).unwrap_err(), Errno::EUCLEAN);
}

#[test]
fn oversized_superblock_is_rejected() {
    let cfg = [0u8; LZ4_CFGS_SIZE];
    // The superblock takes 128 + 192 * 16 = 3200 bytes, more than 4096 - 1024.
    let (backend, sb) = image_with_cfg(192, 0x1, &cfg);
    assert_eq!(load_compr_cfgs(&backend, &sb).unwrap_err(), Errno::EUCLEAN);
}

#[test]
fn cfg_records_are_four_byte_aligned() {
    let mut img = vec![0u8; 256];
    // The first record has five bytes and ends at 7, so the next one starts at 8.
    img[0..2].copy_from_slice(&5u16.to_le_bytes());
    img[2..7].copy_from_slice(b"hello");
    img[8..10].copy_from_slice(&3u16.to_le_bytes());
    img[10..13].copy_from_slice(b"abc");
    let backend = MemBackend(img);

    let mut offset = 0;
    let mut buf = [0u8; 5];
    assert_eq!(read_cfg_record(&backend, &mut offset, &mut buf).unwrap(), 5);
    assert_eq!(&buf, b"hello");
    assert_eq!(offset, 7);
    let mut buf = [0u8; 3];
    assert_eq!(read_cfg_record(&backend, &mut offset, &mut buf).unwrap(), 3);
    assert_eq!(&buf, b"abc");
    assert_eq!(offset, 13);
}

#[test]
fn zero_length_prefix_means_65536() {
    let mut img = vec![0u8; 128];
    img[0..2].copy_from_slice(&0u16.to_le_bytes());
    let backend = MemBackend(img);
    let mut offset = 0;
    assert_eq!(
        read_cfg_record(&backend, &mut offset, &mut []).unwrap(),
        65536
    );
    assert_eq!(offset, 2 + 65536);
}

#[test]
fn cfg_area_beyond_device_is_rejected() {
    // The record claims 4096 bytes, which do not fit on a device of one block.
    let mut img = vec![0u8; 8192];
    img[1024 + 128..1024 + 130].copy_from_slice(&4096u16.to_le_bytes());
    let mut sb = empty_sb();
    sb.feature_incompat = EROFS_FEATURE_INCOMPAT_COMPR_CFGS as i32;
    sb.compression = 0x1;
    sb.blocks = 1;
    assert_eq!(
        load_compr_cfgs(&MemBackend(img), &sb).unwrap_err(),
        Errno::EUCLEAN
    );
}

#[test]
fn truncated_payload_is_rejected() {
    let cfg_off = 1024 + 128;
    // The record claims 14 bytes, and the device ends after five of them.
    let mut img = vec![0u8; cfg_off + 2 + 5];
    img[cfg_off..cfg_off + 2].copy_from_slice(&14u16.to_le_bytes());
    let mut sb = empty_sb();
    sb.feature_incompat = EROFS_FEATURE_INCOMPAT_COMPR_CFGS as i32;
    sb.compression = 0x1;
    let backend = MemBackend(img);
    assert_eq!(load_compr_cfgs(&backend, &sb).unwrap_err(), Errno::EUCLEAN);
}

#[test]
fn a_device_failure_is_passed_on() {
    let mut sb = empty_sb();
    sb.feature_incompat = EROFS_FEATURE_INCOMPAT_COMPR_CFGS as i32;
    sb.compression = 0x1;
    assert_eq!(
        load_compr_cfgs(&BrokenBackend, &sb).unwrap_err(),
        Errno::EIO
    );
    // Without compression nothing is read.
    assert_eq!(load_compr_cfgs(&BrokenBackend, &empty_sb()), Ok(None));
}

#[test]
fn the_largest_cluster_is_accepted() {
    let mut payload = [0u8; LZ4_CFGS_SIZE];
    payload[0..2].copy_from_slice(&0x1234u16.to_le_bytes());
    payload[2..4].copy_from_slice(&256u16.to_le_bytes());
    assert_eq!(
        parse_lz4_cfgs(&empty_sb(), &payload),
        Ok(CompressionInfo {
            lz4_max_distance: 0x1234,
            lz4_max_pclusterblks: 256,
        })
    );
    payload[2..4].copy_from_slice(&257u16.to_le_bytes());
    assert_eq!(parse_lz4_cfgs(&empty_sb(), &payload), Err(Errno::EUCLEAN));
}

#[test]
fn a_record_longer_than_the_buffer_fills_it() {
    let mut img = vec![0u8; 64];
    img[4..6].copy_from_slice(&9u16.to_le_bytes());
    img[6..15].copy_from_slice(b"abcdefghi");
    let backend = MemBackend(img);
    // A place that is not a multiple of four is rounded up.
    let mut offset = 1;
    let mut buf = [0u8; 4];
    assert_eq!(read_cfg_record(&backend, &mut offset, &mut buf), Ok(9));
    assert_eq!(&buf, b"abcd");
    assert_eq!(offset, 15);
}

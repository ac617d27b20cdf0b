//! Vectors, fields, inodes and the geometry of an image.

use erofs::alloc_helper::{copied, extend_from_slice, push_vec, vec_with_capacity, zeroed};
use erofs::bytes::{max_u64, min_u64, read_le16, read_le32, read_le64};
use erofs::inode::{CompactInodeInfo, ExtendedInodeInfo, Format, InodeInfo, Layout, Type};
use erofs::superblock::SuperBlock;

#[test]
fn vectors_grow() {
    let mut v = vec![1u8];
    assert_eq!(push_vec(&mut v, 2), Ok(()));
    assert_eq!(extend_from_slice(&mut v, &[3, 4]), Ok(()));
    assert_eq!(v, [1, 2, 3, 4]);
    assert_eq!(copied(&v[1..3]), Ok(vec![2, 3]));
}

#[test]
fn a_new_vector_has_the_length_that_was_asked_for() {
    assert_eq!(vec_with_capacity::<u32>(3), Ok(vec![0, 0, 0]));
    assert_eq!(zeroed(2), Ok(vec![0u8, 0]));
    assert_eq!(zeroed(0), Ok(vec![]));
}

#[test]
fn memory_that_is_not_there_is_an_error() {
    assert_eq!(zeroed(usize::MAX), Err(erofs::errnos::Errno::ENOMEM));
    assert_eq!(
        vec_with_capacity::<u64>(usize::MAX / 8),
        Err(erofs::errnos::Errno::ENOMEM)
    );
}

#[test]
fn fields_are_little_endian() {
    let b = [0x01, 0x02, 0x03, 0x04, 0x05, 0x06, 0x07, 0x08, 0xff];
    assert_eq!(read_le16(&b, 7), 0xff08);
    assert_eq!(read_le32(&b, 0), 0x0403_0201);
    assert_eq!(read_le64(&b, 1), 0xff08_0706_0504_0302);
    assert_eq!(min_u64(3, 4), 3);
    assert_eq!(max_u64(3, 4), 4);
}

#[test]
fn addresses_are_split_into_blocks() {
    let sb = SuperBlock {
        blkszbits: 12,
        meta_blkaddr: 3,
        inos: 77,
        blocks: 9,
        ..Default::default()
    };
    assert_eq!(sb.blksz(), 4096);
    assert_eq!(sb.blkpos(5), 20480);
    assert_eq!(sb.iloc(10), 3 * 4096 + 320);
    assert_eq!(sb.iloc(u64::MAX), u64::MAX);
    assert_eq!(sb.blocks(), 9);
    assert_eq!(sb.inos(), 77);
    let a = sb.blk_access(10000);
    assert_eq!((a.nr, a.base, a.off, a.len), (2, 8192, 1808, 2288));
    let a = sb.blk_access(8192);
    assert_eq!((a.nr, a.base, a.off, a.len), (2, 8192, 0, 4096));
}

fn compact(format: u16, icount: u16, mode: u16) -> InodeInfo {
    InodeInfo::Compact(CompactInodeInfo {
        i_format: Format(format),
        i_xattr_icount: icount,
        i_mode: mode,
        i_nlink: 2,
        i_size: 1234,
        i_reserved: [0; 4],
        i_u: [0; 4],
        i_ino: 1,
        i_uid: 3,
        i_gid: 4,
        i_reserved2: [0; 4],
    })
}

#[test]
fn the_short_form_of_an_inode_is_read() {
    let info = compact(3 << 1, 0, 0o100644);
    assert_eq!(info.format().layout(), Layout::CompressedCompact);
    assert_eq!(info.file_size(), 1234);
    assert_eq!(info.inode_size(), 32);
    assert_eq!(info.xattr_size(), 0);
    assert_eq!(info.mode(), 0o100644);
    assert_eq!((info.nlink(), info.uid(), info.gid()), (2, 3, 4));
}

#[test]
fn the_long_form_of_an_inode_is_read() {
    let info = InodeInfo::Extended(ExtendedInodeInfo {
        i_format: Format(1 | 1 << 1),
        i_xattr_icount: 3,
        i_mode: 0o040755,
        i_reserved: [0; 2],
        i_size: 1 << 40,
        i_u: [0; 4],
        i_ino: 1,
        i_uid: 70000,
        i_gid: 70001,
        i_mtime: 99,
        i_mtime_nsec: 5,
        i_nlink: 70002,
        i_reserved2: [0; 16],
    });
    assert_eq!(info.format().layout(), Layout::CompressedFull);
    assert_eq!(info.file_size(), 1 << 40);
    assert_eq!(info.inode_size(), 64);
    assert_eq!(info.xattr_size(), 20);
    assert_eq!(info.inode_type(), Type::Directory);
    assert_eq!(
        (info.nlink(), info.uid(), info.gid()),
        (70002, 70000, 70001)
    );
}

#[test]
fn the_mode_tells_the_type() {
    for (mode, t) in [
        (0o100000, Type::Regular),
        (0o040000, Type::Directory),
        (0o120000, Type::Link),
        (0o020000, Type::Character),
        (0o060000, Type::Block),
        (0o010000, Type::Fifo),
        (0o140000, Type::Socket),
        (0o000000, Type::Unknown),
    ] {
        assert_eq!(compact(0, 0, mode | 0o777).inode_type(), t);
    }
}

//! Mounting an image, and what the virtual filesystem asks of it.

use erofs::data::raw_iters::temp_iter::TempBufferMapIter;
use erofs::data::{Backend, BlockBuffer, FileBackend, RefBuffer};
use erofs::dir::{DirVisitor, Dirent, DirentDesc};
use erofs::errnos::{Errno, PosixResult};
use erofs::inode::{CompactInodeInfo, ExtendedInodeInfo, Format, Inode, InodeInfo, Type};
use erofs::map::{Algorithm, MapIter, MapResult, MapType, Mapping, Segment};
use erofs::mount::directory::{finish_listing, finish_search, same_bytes};
use erofs::mount::errno::{from_erofs_errno, SystemError};
use erofs::mount::fs::{
    check_super_probe, make_mount_data, mount_image, mount_source, probe_erofs_superblock, Disk,
    ErofsFileSystem, ErofsMountData, ErofsSuperProbe, ImageFileSystem, Refusal, EROFS_MAGIC_V1,
};
use erofs::mount::inode::{
    copy_block, erofs_type_to_file_type, read_answered, take_block, ErofsInode, ErofsSysInode,
};
use erofs::mount::source::{BlockDevBackend, BlockDevSource, BlockDevice, Source, LBA_SIZE};
use erofs::mount::vfs::{
    is_blank, FileType, FsInfo, FsReconfigureRequest, InodeId, InodeMode, MountFlags,
    PosixTimeSpec,
};
use erofs::superblock::{FileSystem, SuperBlock};
use erofs::xattrs::{XAttrSharedEntries, XAttrValue};
use erofs::{Nid, Off};
use std::sync::Arc;

#[test]
fn errors_keep_their_names() {
    for (a, b) in [
        (Errno::EPERM, SystemError::EPERM),
        (Errno::ENOENT, SystemError::ENOENT),
        (Errno::EIO, SystemError::EIO),
        (Errno::ENOMEM, SystemError::ENOMEM),
        (Errno::EACCES, SystemError::EACCES),
        (Errno::EEXIST, SystemError::EEXIST),
        (Errno::ENODEV, SystemError::ENODEV),
        (Errno::ENOTDIR, SystemError::ENOTDIR),
        (Errno::EISDIR, SystemError::EISDIR),
        (Errno::EINVAL, SystemError::EINVAL),
        (Errno::ENOSPC, SystemError::ENOSPC),
        (Errno::EROFS, SystemError::EROFS),
        (Errno::ENODATA, SystemError::ENODATA),
        (Errno::ERANGE, SystemError::ERANGE),
        (Errno::ENOSYS, SystemError::ENOSYS),
        (Errno::EUCLEAN, SystemError::EUCLEAN),
        (Errno::EOPNOTSUPP, SystemError::EIO),
    ] {
        assert_eq!(from_erofs_errno(a), b);
    }
}

/// A disk in memory that may be cut off or broken.
struct RamDisk {
    data: Vec<u8>,
    broken: bool,
}

impl BlockDevice for RamDisk {
    fn read_at_sync(
        &self,
        lba_start: usize,
        count: usize,
        buf: &mut [u8],
    ) -> Result<usize, SystemError> {
        assert_eq!(buf.len(), count * LBA_SIZE);
        if self.broken {
            return Err(SystemError::ENODEV);
        }
        let at = (lba_start * LBA_SIZE).min(self.data.len());
        let n = buf.len().min(self.data.len() - at);
        buf[..n].copy_from_slice(&self.data[at..at + n]);
        Ok(n)
    }
}

fn ram_disk(data: Vec<u8>) -> Arc<RamDisk> {
    Arc::new(RamDisk {
        data,
        broken: false,
    })
}

fn counting(len: usize) -> Vec<u8> {
    (0..len).map(|i| (i % 255) as u8).collect()
}

#[test]
fn any_range_of_a_block_device_can_be_read() {
    let data = counting(4 * LBA_SIZE);
    let source = BlockDevSource::new(ram_disk(data.clone()));
    for offset in [0usize, 1, 511, 512, 513, 1000] {
        for len in [0usize, 1, 2, 511, 512, 513, 1024] {
            let mut buf = vec![0xee; len];
            assert_eq!(source.fill(&mut buf, 5, offset as u64), Ok(len as u64));
            assert_eq!(buf, &data[offset..offset + len]);
        }
    }
}

#[test]
fn a_short_block_device_delivers_what_it_has() {
    let data = counting(LBA_SIZE + 10);
    let backend = BlockDevBackend::new(BlockDevSource::new(ram_disk(data.clone())));
    let mut buf = [0xee; 20];
    assert_eq!(backend.fill(&mut buf, 0, LBA_SIZE as u64), Ok(10));
    assert_eq!(&buf[..10], &data[LBA_SIZE..]);
    assert_eq!(&buf[10..], [0xee; 10]);
    assert_eq!(backend.fill(&mut buf, 0, LBA_SIZE as u64 + 10), Ok(0));
    assert_eq!(backend.fill(&mut buf, 0, 100 * LBA_SIZE as u64), Ok(0));
}

#[test]
fn a_broken_block_device_is_an_io_error() {
    let source = BlockDevSource::new(Arc::new(RamDisk {
        data: vec![],
        broken: true,
    }));
    assert_eq!(source.fill(&mut [0; 4], 0, 0), Err(Errno::EIO));
}

fn image(magic: u32, compression: i16, extra_devices: i16) -> Vec<u8> {
    let mut img = vec![0u8; 8192];
    img[1024..1028].copy_from_slice(&magic.to_le_bytes());
    img[1024 + 84..1024 + 86].copy_from_slice(&compression.to_le_bytes());
    img[1024 + 86..1024 + 88].copy_from_slice(&extra_devices.to_le_bytes());
    img
}

fn backend_on(img: Vec<u8>) -> BlockDevBackend<RamDisk> {
    BlockDevBackend::new(BlockDevSource::new(ram_disk(img)))
}

#[test]
fn the_superblock_is_probed() {
    assert_eq!(
        probe_erofs_superblock(&backend_on(image(0x1234_5678, -2, 3))),
        Ok(ErofsSuperProbe {
            magic: 0x1234_5678,
            compression: -2,
            extra_devices: 3,
        })
    );
    let mut short = image(EROFS_MAGIC_V1, 0, 0);
    short.truncate(1024 + 127);
    assert_eq!(
        probe_erofs_superblock(&backend_on(short)),
        Err(SystemError::EUCLEAN)
    );
    let broken = BlockDevBackend::new(BlockDevSource::new(Arc::new(RamDisk {
        data: vec![],
        broken: true,
    })));
    assert_eq!(probe_erofs_superblock(&broken), Err(SystemError::EIO));
}

#[test]
fn images_that_cannot_be_mounted_are_refused() {
    let probe = |magic, compression, extra_devices| {
        check_super_probe(&ErofsSuperProbe {
            magic,
            compression,
            extra_devices,
        })
    };
    assert_eq!(probe(EROFS_MAGIC_V1, 0, 0), None);
    for (refusal, reason, error) in [
        (
            probe(7, 1, 1),
            Refusal::BadMagic { magic: 7 },
            SystemError::EUCLEAN,
        ),
        (
            probe(EROFS_MAGIC_V1, -1, 0),
            Refusal::Compressed { algorithms: -1 },
            SystemError::EOPNOTSUPP_OR_ENOTSUP,
        ),
        (
            probe(EROFS_MAGIC_V1, 1, 1),
            Refusal::Compressed { algorithms: 1 },
            SystemError::EOPNOTSUPP_OR_ENOTSUP,
        ),
        (
            probe(EROFS_MAGIC_V1, 0, 1),
            Refusal::ExtraDevices { count: 1 },
            SystemError::EUCLEAN,
        ),
    ] {
        assert_eq!(refusal, Some(reason));
        assert_eq!(reason.error(), error);
    }
}

/// The mappings of a file that stands in one run, block by block.
struct Run {
    at: u64,
    end: u64,
    shift: u64,
    fails: bool,
}

impl MapIter for Run {
    fn next(&mut self) -> Option<MapResult> {
        if self.at >= self.end {
            if self.fails {
                return Some(Err(Errno::EUCLEAN));
            }
            return None;
        }
        let block_end = (self.at / 4096 + 1) * 4096;
        let len = block_end.min(self.end) - self.at;
        let m = Mapping {
            logical: Segment {
                start: self.at,
                len,
            },
            physical: Segment {
                start: self.at + self.shift,
                len,
            },
            algorithm_format: 0,
            device_id: 0,
            map_type: MapType::Normal,
            algorithm: Algorithm::Raw,
        };
        self.at += len;
        Some(Ok(m))
    }
}

/// An image whose files and directories are made up: the number of an inode says what it is.
struct TestImage<B: FileBackend> {
    sb: SuperBlock,
    device: B,
}

const ROOT: Nid = 36;
const FILE: Nid = 40;
const CUT_FILE: Nid = 41;
const BROKEN_DIR: Nid = 50;
const GONE: Nid = 99;

fn compact_info(mode: u16, size: u32) -> InodeInfo {
    InodeInfo::Compact(CompactInodeInfo {
        i_format: Format(0),
        i_xattr_icount: 0,
        i_mode: mode,
        i_nlink: 3,
        i_size: size,
        i_reserved: [0; 4],
        i_u: [0; 4],
        i_ino: 1,
        i_uid: 5,
        i_gid: 6,
        i_reserved2: [0; 4],
    })
}

fn info_of(nid: Nid) -> PosixResult<InodeInfo> {
    match nid {
        ROOT | BROKEN_DIR => Ok(compact_info(0o040755, 4096)),
        GONE => Err(Errno::EUCLEAN),
        _ => Ok(compact_info(0o100644, 5000)),
    }
}

impl<B: FileBackend> FileSystem<ErofsSysInode> for TestImage<B> {
    type B = B;
    type Blocks<'a>
        = TempBufferMapIter<'a, B, Run>
    where
        B: 'a;

    fn superblock(&self) -> &SuperBlock {
        &self.sb
    }

    fn backend(&self) -> &B {
        &self.device
    }

    fn inode_info(&self, nid: Nid) -> PosixResult<InodeInfo> {
        info_of(nid)
    }

    fn find_nid(&self, _dir: &ErofsSysInode, _name: &str) -> PosixResult<Option<Nid>> {
        Ok(None)
    }

    fn fill_dentries<V: DirVisitor>(
        &self,
        dir: &ErofsSysInode,
        visitor: &mut V,
    ) -> PosixResult<()> {
        for (name, nid, file_type) in [
            (&b"."[..], dir.nid, 2u8),
            (&b"file"[..], FILE, 1),
            (&b"file"[..], CUT_FILE, 1),
            (&b"gone"[..], GONE, 1),
        ] {
            let dirent = Dirent {
                desc: DirentDesc {
                    nid,
                    nameoff: 0,
                    file_type,
                    reserved: 0,
                },
                name,
            };
            if visitor.visit(&dirent) {
                return Ok(());
            }
        }
        if dir.nid == BROKEN_DIR {
            return Err(Errno::EUCLEAN);
        }
        Ok(())
    }

    fn mapped_iter<'a>(
        &'a self,
        inode: &'a ErofsSysInode,
        offset: Off,
    ) -> PosixResult<Self::Blocks<'a>> {
        if inode.nid == GONE {
            return Err(Errno::EIO);
        }
        let cut = inode.nid == CUT_FILE;
        let run = Run {
            at: offset,
            end: if cut { 4200 } else { 5000 },
            shift: 8192,
            fails: cut,
        };
        Ok(TempBufferMapIter::new(
            &self.sb,
            &self.device,
            None,
            run,
            offset,
        ))
    }

    fn get_xattr(
        &self,
        _inode: &ErofsSysInode,
        _index: u32,
        _name: &[u8],
        _buffer: &mut Option<&mut [u8]>,
    ) -> PosixResult<XAttrValue> {
        Err(Errno::ENODATA)
    }

    fn list_xattrs(&self, _inode: &ErofsSysInode, _buffer: &mut [u8]) -> PosixResult<usize> {
        Ok(0)
    }
}

impl<B: FileBackend> ImageFileSystem<B> for TestImage<B> {
    fn try_new(device: B) -> PosixResult<Self> {
        let mut root = [0u8; 2];
        device.fill(&mut root, 0, 1024 + 14)?;
        let root_nid = u16::from_le_bytes(root);
        if root_nid == 1 {
            return Err(Errno::EINVAL);
        }
        Ok(TestImage {
            sb: SuperBlock {
                blkszbits: 12,
                root_nid,
                inos: 12,
                blocks: 34,
                ..Default::default()
            },
            device,
        })
    }
}

type TestFs = ErofsFileSystem<TestImage<BlockDevBackend<RamDisk>>>;

fn mountable_image(root_nid: u16) -> Vec<u8> {
    let mut img = image(EROFS_MAGIC_V1, 0, 0);
    img[1024 + 14..1024 + 16].copy_from_slice(&root_nid.to_le_bytes());
    img.extend(counting(5120));
    img
}

fn mount(img: Vec<u8>) -> Result<TestFs, SystemError> {
    let data = ErofsMountData {
        source: "vda".to_string(),
    };
    TestFs::make_fs_with_flags(
        Some(Some(&data)),
        MountFlags(0),
        Disk::Held(ram_disk(img)),
        || InodeId::new(100),
        &mut None,
    )
}

fn mounted() -> TestFs {
    mount(mountable_image(ROOT as u16)).unwrap_or_else(|e| panic!("{:?}", e))
}

#[test]
fn mounting_knows_the_root() {
    let fs = mounted();
    let root = fs.root_inode();
    assert_eq!(root.nid, ROOT);
    assert_eq!(root.ino, InodeId(100));
    assert_eq!(root.info.inode_type(), Type::Directory);
    assert_eq!(fs.inode_cache.len(), 1);
    assert_eq!(fs.next_ino, 101);
}

#[test]
fn mounting_says_why_it_fails() {
    let data = ErofsMountData {
        source: "vda".to_string(),
    };
    let make = |data: Option<Option<&ErofsMountData>>, disk: Disk<RamDisk>| {
        TestFs::make_fs_with_flags(data, MountFlags(0), disk, || InodeId::new(1), &mut None).err()
    };
    let good = || Disk::Held(ram_disk(mountable_image(ROOT as u16)));
    assert_eq!(make(Some(Some(&data)), good()), None);
    assert_eq!(make(None, good()), Some(SystemError::EINVAL));
    assert_eq!(make(Some(None), good()), Some(SystemError::EINVAL));
    assert_eq!(
        make(Some(Some(&data)), Disk::Missing),
        Some(SystemError::ENODEV)
    );
    assert_eq!(
        make(Some(Some(&data)), Disk::Detached),
        Some(SystemError::ENODEV)
    );
    assert_eq!(
        make(Some(Some(&data)), Disk::Busy),
        Some(SystemError::EBUSY)
    );
    for (img, e) in [
        (image(1, 0, 0), SystemError::EUCLEAN),
        (
            image(EROFS_MAGIC_V1, 1, 0),
            SystemError::EOPNOTSUPP_OR_ENOTSUP,
        ),
        (image(EROFS_MAGIC_V1, 0, 1), SystemError::EUCLEAN),
        // The image cannot be opened.
        (mountable_image(1), SystemError::EINVAL),
        // The root cannot be read.
        (mountable_image(GONE as u16), SystemError::EUCLEAN),
    ] {
        assert_eq!(mount(img).err(), Some(e));
    }
}

#[test]
fn an_image_on_any_device_can_be_mounted() {
    let backend = backend_on(mountable_image(ROOT as u16));
    let fs: TestFs = match mount_image(backend, || InodeId::new(7), &mut None) {
        Ok(fs) => fs,
        Err(e) => panic!("{:?}", e),
    };
    assert_eq!(fs.root_inode.ino, InodeId(7));
}

#[test]
fn mount_data_names_the_device() {
    let data = make_mount_data(Some("x"), "/dev/vda").unwrap().unwrap();
    assert_eq!(mount_source(Some(Some(&data))), Ok("/dev/vda"));
    assert_eq!(mount_source(Some(None)), Err(SystemError::EINVAL));
    assert_eq!(mount_source(None), Err(SystemError::EINVAL));
}

#[test]
fn an_inode_in_use_is_shared() {
    let mut fs = mounted();
    let a = fs.get_or_create_inode(FILE).unwrap();
    let b = fs.get_or_create_inode(FILE).unwrap();
    assert!(Arc::ptr_eq(&a, &b));
    assert_eq!(a.ino, InodeId(101));
    assert_eq!(fs.nid_to_ino(FILE), InodeId(101));
    let root = fs.get_or_create_inode(ROOT).unwrap();
    assert!(Arc::ptr_eq(&root, &fs.root_inode));
    assert_eq!(fs.next_ino, 102);
}

#[test]
fn an_inode_that_nobody_holds_is_made_anew() {
    let mut fs = mounted();
    let a = fs.get_or_create_inode(FILE).unwrap();
    let other = a.clone();
    drop(a);
    // Somebody still holds it.
    assert!(Arc::ptr_eq(&other, &fs.get_or_create_inode(FILE).unwrap()));
    drop(other);
    // Its number is still known.
    assert_eq!(fs.nid_to_ino(FILE), InodeId(101));
    let b = fs.get_or_create_inode(FILE).unwrap();
    assert_eq!(b.ino, InodeId(102));
    assert_eq!(fs.nid_to_ino(FILE), InodeId(102));
    assert_eq!(fs.inode_cache.len(), 2);
    // The root is held by the filesystem.
    assert_eq!(fs.get_or_create_inode(ROOT).unwrap().ino, InodeId(100));
    assert_eq!(fs.next_ino, 103);
}

#[test]
fn a_number_that_is_asked_for_is_used_up() {
    let mut fs = mounted();
    assert_eq!(fs.nid_to_ino(1), InodeId(101));
    assert_eq!(fs.nid_to_ino(1), InodeId(102));
    assert_eq!(fs.nid_to_ino(ROOT), InodeId(100));
    assert_eq!(fs.next_ino, 103);
}

#[test]
fn an_inode_that_cannot_be_read_changes_nothing() {
    let mut fs = mounted();
    assert_eq!(
        fs.get_or_create_inode(GONE).err(),
        Some(SystemError::EUCLEAN)
    );
    assert_eq!(fs.next_ino, 101);
    assert_eq!(fs.inode_cache.len(), 1);
}

#[test]
fn the_filesystem_tells_its_numbers() {
    let fs = mounted();
    assert_eq!(
        fs.info(),
        FsInfo {
            blk_dev_id: 0,
            max_name_len: 255
        }
    );
    assert_eq!(fs.name(), "erofs");
    assert!(!fs.support_readahead());
    assert_eq!(fs.sync_fs(true), Ok(()));
    let s = fs.super_block();
    assert_eq!(s.magic, 0xE0F5_E1E2);
    assert_eq!((s.bsize, s.frsize), (4096, 4096));
    assert_eq!((s.blocks, s.files), (34, 12));
    assert_eq!((s.bfree, s.bavail, s.ffree, s.fsid), (0, 0, 0, 0));
    assert_eq!((s.namelen, s.flags), (255, 0));
}

#[test]
fn a_mount_has_no_options_of_its_own() {
    let fs = mounted();
    let request = |raw_data| FsReconfigureRequest {
        raw_data,
        sb_flags: MountFlags(0b1101),
        sb_flags_mask: MountFlags(0b0111),
    };
    for raw in [None, Some(""), Some(" \t\n\u{3000}")] {
        assert_eq!(fs.reconfigure(request(raw)), Ok(MountFlags(0b0101)));
    }
    assert_eq!(
        fs.reconfigure(request(Some(" x "))),
        Err(SystemError::EINVAL)
    );
}

#[test]
fn white_space_is_what_trimming_removes() {
    for c in (0..0x11_0000u32).filter_map(char::from_u32) {
        assert_eq!(is_blank(&c.to_string()), c.is_whitespace());
    }
    assert!(is_blank(""));
    assert!(!is_blank("  a"));
}

fn file(nid: Nid) -> ErofsInode {
    ErofsInode {
        info: info_of(nid).unwrap_or(compact_info(0o100644, 5000)),
        ino: InodeId(1),
        nid,
    }
}

#[test]
fn a_file_is_read() {
    let fs = mounted();
    let content = counting(5000);
    let inode = file(FILE);
    for (offset, len) in [(0, 10), (4090, 20), (100, 4900), (4999, 1), (0, 0)] {
        let mut buf = vec![0xee; 5000];
        assert_eq!(inode.read_at(&fs, offset, len, &mut buf), Ok(len));
        assert_eq!(&buf[..len], &content[offset..offset + len]);
        assert!(buf[len..].iter().all(|b| *b == 0xee));
        let mut direct = vec![0xee; 5000];
        assert_eq!(inode.read_direct(&fs, offset, len, &mut direct), Ok(len));
        assert_eq!(buf, direct);
    }
}

#[test]
fn a_read_ends_with_the_file_and_the_room() {
    let fs = mounted();
    let content = counting(5000);
    let inode = file(FILE);
    let mut buf = vec![0xee; 100];
    assert_eq!(inode.read_at(&fs, 4950, 100, &mut buf), Ok(50));
    assert_eq!(&buf[..50], &content[4950..]);
    assert_eq!(buf[50..], [0xee; 50]);
    assert_eq!(inode.read_at(&fs, 0, 5000, &mut buf), Ok(100));
    assert_eq!(buf, &content[..100]);
    assert_eq!(inode.read_at(&fs, 5000, 10, &mut buf), Ok(0));
    assert_eq!(inode.read_at(&fs, usize::MAX, 10, &mut buf), Ok(0));
}

#[test]
fn a_read_that_fails_keeps_what_was_read() {
    let fs = mounted();
    let content = counting(5000);
    let inode = file(CUT_FILE);
    let mut buf = vec![0xee; 5000];
    // What stands before the failure can be read.
    assert_eq!(inode.read_at(&fs, 0, 4200, &mut buf), Ok(4200));
    let mut buf = vec![0xee; 5000];
    assert_eq!(
        inode.read_at(&fs, 0, 4201, &mut buf),
        Err(SystemError::EUCLEAN)
    );
    assert_eq!(&buf[..4200], &content[..4200]);
    assert_eq!(buf[4200..], [0xee; 800]);
    let mut buf = vec![0xee; 10];
    assert_eq!(
        file(GONE).read_at(&fs, 0, 10, &mut buf),
        Err(SystemError::EIO)
    );
    assert_eq!(buf, [0xee; 10]);
}

#[test]
fn nothing_can_be_written() {
    let inode = file(FILE);
    assert_eq!(inode.write_at(0, 1, &[1]), Err(SystemError::EROFS));
    assert_eq!(inode.open(), Ok(()));
    assert_eq!(inode.close(), Ok(()));
    assert_eq!(inode.flush_file(3), Ok(()));
}

#[test]
fn metadata_of_the_short_form_has_no_times() {
    let m = file(FILE).metadata().unwrap();
    assert_eq!(m.inode_id, InodeId(1));
    assert_eq!(m.size, 5000);
    assert_eq!(m.blk_size, 512);
    assert_eq!(m.blocks, 10);
    assert_eq!(m.file_type, FileType::File);
    assert_eq!(m.mode, InodeMode(0o100644));
    assert_eq!((m.nlinks, m.uid, m.gid), (3, 5, 6));
    let zero = PosixTimeSpec {
        tv_sec: 0,
        tv_nsec: 0,
    };
    assert_eq!([m.atime, m.mtime, m.ctime, m.btime], [zero; 4]);
    assert_eq!((m.dev_id, m.flags, m.raw_dev), (0, 0, 0));
}

#[test]
fn metadata_of_the_long_form_has_one_time() {
    let inode = ErofsInode {
        info: InodeInfo::Extended(ExtendedInodeInfo {
            i_format: Format(1),
            i_xattr_icount: 0,
            i_mode: 0o120777,
            i_reserved: [0; 2],
            i_size: 512,
            i_u: [0; 4],
            i_ino: 1,
            i_uid: 70000,
            i_gid: 70001,
            i_mtime: 1_700_000_000,
            i_mtime_nsec: 123,
            i_nlink: 70002,
            i_reserved2: [0; 16],
        }),
        ino: InodeId(9),
        nid: 2,
    };
    let m = inode.metadata().unwrap();
    let time = PosixTimeSpec {
        tv_sec: 1_700_000_000,
        tv_nsec: 123,
    };
    assert_eq!([m.atime, m.mtime, m.ctime], [time; 3]);
    assert_eq!(m.btime, PosixTimeSpec::default());
    assert_eq!(m.blocks, 1);
    assert_eq!(m.file_type, FileType::SymLink);
    assert_eq!((m.nlinks, m.uid, m.gid), (70002, 70000, 70001));
}

#[test]
fn types_are_translated() {
    for (t, f) in [
        (Type::Regular, FileType::File),
        (Type::Directory, FileType::Dir),
        (Type::Link, FileType::SymLink),
        (Type::Character, FileType::CharDevice),
        (Type::Block, FileType::BlockDevice),
        (Type::Fifo, FileType::Pipe),
        (Type::Socket, FileType::Socket),
        (Type::Unknown, FileType::File),
    ] {
        assert_eq!(erofs_type_to_file_type(t), f);
    }
}

#[test]
fn the_first_entry_with_a_name_is_found() {
    let mut fs = mounted();
    let root = *fs.root_inode();
    let found = root.find(&mut fs, "file").unwrap();
    assert_eq!(found.nid, FILE);
    assert_eq!(found.ino, InodeId(101));
    let again = root.find_bytes(&mut fs, b"file").unwrap();
    assert!(Arc::ptr_eq(&found, &again));
    assert_eq!(root.find(&mut fs, ".").unwrap().nid, ROOT);
}

#[test]
fn looking_for_a_name_says_why_it_fails() {
    let mut fs = mounted();
    let root = *fs.root_inode();
    assert_eq!(
        root.find(&mut fs, "none").err(),
        Some(SystemError::ENOENT)
    );
    assert_eq!(
        root.find(&mut fs, "gone").err(),
        Some(SystemError::EUCLEAN)
    );
    assert_eq!(
        file(FILE).find(&mut fs, "file").err(),
        Some(SystemError::ENOTDIR)
    );
    assert_eq!(
        root.find_bytes(&mut fs, &[b'f', 0xff]).err(),
        Some(SystemError::EIO)
    );
    // What is found comes before the failure of the directory.
    let broken = file(BROKEN_DIR);
    assert_eq!(broken.find(&mut fs, "file").unwrap().nid, FILE);
    assert_eq!(
        broken.find(&mut fs, "none").err(),
        Some(SystemError::EUCLEAN)
    );
}

#[test]
fn a_directory_is_listed() {
    let mut fs = mounted();
    let root = *fs.root_inode();
    let entries = root.list_entries(&mut fs).unwrap().unwrap();
    let seen: Vec<(&[u8], u64, u8, u64)> = entries
        .iter()
        .map(|e| (&e.name[..], e.ino, e.d_type, e.next_cookie))
        .collect();
    assert_eq!(
        seen,
        [
            (&b"."[..], 100, 2, 1),
            (&b"file"[..], 101, 1, 2),
            (&b"file"[..], 102, 1, 3),
            (&b"gone"[..], 103, 1, 4),
        ]
    );
    assert_eq!(fs.next_ino, 104);
    assert_eq!(
        file(BROKEN_DIR).list_entries(&mut fs).err(),
        Some(SystemError::EUCLEAN)
    );
    // The numbers that were given out are used up: "." is not known here.
    assert_eq!(fs.next_ino, 108);
}

#[test]
fn bytes_are_compared() {
    assert!(same_bytes(b"", b""));
    assert!(same_bytes(b"abc", b"abc"));
    assert!(!same_bytes(b"abc", b"abd"));
    assert!(!same_bytes(b"abc", b"abcd"));
}

#[test]
fn an_inode_of_the_reader_has_no_shared_attributes() {
    let sys = file(FILE).as_sys_inode();
    assert_eq!(sys.nid(), FILE);
    assert_eq!(sys.info().file_size(), 5000);
    assert!(sys.xattrs_shared_entries().shared_indexes.is_empty());
    let made = ErofsSysInode::new(
        &SuperBlock::default(),
        compact_info(0o100644, 1),
        8,
        XAttrSharedEntries {
            name_filter: 6,
            shared_indexes: vec![7],
        },
    );
    assert_eq!(made.nid, 8);
    assert_eq!(made.xattrs.name_filter, 6);
    assert_eq!(made.xattrs.shared_indexes, [7]);
}

#[test]
fn a_refused_mount_draws_no_number_and_says_why() {
    let data = ErofsMountData {
        source: "vda".to_string(),
    };
    let make = |disk: Disk<RamDisk>| {
        let mut drawn = 0;
        let mut refused = Some(Refusal::BadMagic { magic: 9 });
        let r = TestFs::make_fs_with_flags(
            Some(Some(&data)),
            MountFlags(0),
            disk,
            || {
                drawn += 1;
                InodeId::new(5)
            },
            &mut refused,
        );
        (r.err(), drawn, refused)
    };
    assert_eq!(
        make(Disk::Held(ram_disk(mountable_image(ROOT as u16)))),
        (None, 1, None)
    );
    assert_eq!(
        make(Disk::Held(ram_disk(image(1, 3, 0)))),
        (
            Some(SystemError::EUCLEAN),
            0,
            Some(Refusal::BadMagic { magic: 1 })
        )
    );
    assert_eq!(
        make(Disk::Held(ram_disk(image(EROFS_MAGIC_V1, 3, 0)))),
        (
            Some(SystemError::EOPNOTSUPP_OR_ENOTSUP),
            0,
            Some(Refusal::Compressed { algorithms: 3 })
        )
    );
    assert_eq!(
        make(Disk::Held(ram_disk(image(EROFS_MAGIC_V1, 0, 2)))),
        (
            Some(SystemError::EUCLEAN),
            0,
            Some(Refusal::ExtraDevices { count: 2 })
        )
    );
    // The root cannot be read.
    assert_eq!(
        make(Disk::Held(ram_disk(mountable_image(GONE as u16)))),
        (Some(SystemError::EUCLEAN), 0, None)
    );
    assert_eq!(make(Disk::Missing), (Some(SystemError::ENODEV), 0, None));
}

#[test]
fn an_inode_is_made_of_what_was_read() {
    let mut fs = mounted();
    let info = compact_info(0o100644, 77);
    for (e, error) in [
        (Errno::ENOMEM, SystemError::ENOMEM),
        (Errno::EUCLEAN, SystemError::EUCLEAN),
    ] {
        assert_eq!(fs.take_inode(FILE, 2, Err(e)).err(), Some(error));
        assert_eq!(fs.take_inode(FILE, 0, Err(e)).err(), Some(error));
    }
    assert_eq!(fs.next_ino, 101);
    let a = fs.take_inode(FILE, 0, Ok(info)).unwrap();
    assert_eq!((a.ino, a.nid), (InodeId(101), FILE));
    assert_eq!(a.info.file_size(), 77);
    // One that is held is not read again.
    let b = fs.take_inode(FILE, 2, Err(Errno::EIO)).unwrap();
    assert!(Arc::ptr_eq(&a, &b));
    let c = fs.take_inode(FILE, 1, Ok(info)).unwrap();
    assert_eq!(c.ino, InodeId(102));
}

#[test]
fn what_was_answered_is_copied_or_handed_on() {
    let mut buf = [0u8; 4];
    assert_eq!(take_block(None, &mut buf, 1, 4), Ok(None));
    assert_eq!(
        take_block(Some(Err(Errno::EUCLEAN)), &mut buf, 1, 4),
        Err(Errno::EUCLEAN)
    );
    assert_eq!(buf, [0; 4]);
    let data = [1, 2];
    let block = BlockBuffer::Ref(RefBuffer::new(&data));
    assert_eq!(take_block(Some(Ok(block)), &mut buf, 1, 4), Ok(Some(3)));
    assert_eq!(buf, [0, 1, 2, 0]);
    let failed: PosixResult<TempBufferMapIter<'_, BlockDevBackend<RamDisk>, Run>> =
        Err(Errno::EIO);
    assert_eq!(
        read_answered(failed, &mut buf, 4),
        Err(SystemError::EIO)
    );
    assert_eq!(buf, [0, 1, 2, 0]);
}

#[test]
fn a_search_ends_with_what_was_found() {
    assert_eq!(finish_search(Ok(()), Some(4)), Ok(4));
    assert_eq!(finish_search(Ok(()), None), Err(SystemError::ENOENT));
    assert_eq!(
        finish_search(Err(Errno::ENOMEM), None),
        Err(SystemError::ENOMEM)
    );
    assert_eq!(
        finish_search(Err(Errno::EUCLEAN), Some(4)),
        Err(SystemError::EUCLEAN)
    );
    assert_eq!(
        finish_listing(Ok(()), Vec::new()).unwrap().map(|l| l.len()),
        Some(0)
    );
    assert_eq!(
        finish_listing(Err(Errno::EIO), Vec::new()).err(),
        Some(SystemError::EIO)
    );
}

#[test]
fn a_block_is_copied_as_far_as_it_is_wanted() {
    let mut buf = [0u8; 6];
    assert_eq!(copy_block(&[1, 2, 3], &mut buf, 1, 5), 4);
    assert_eq!(buf, [0, 1, 2, 3, 0, 0]);
    assert_eq!(copy_block(&[4, 5, 6], &mut buf, 4, 5), 5);
    assert_eq!(buf, [0, 1, 2, 3, 4, 0]);
    assert_eq!(copy_block(&[7], &mut buf, 5, 5), 5);
    assert_eq!(buf, [0, 1, 2, 3, 4, 0]);
}

#[test]
fn an_inode_with_one_handle_is_only_in_the_cache() {
    let mut fs = mounted();
    assert!(fs.known_handle(FILE).is_none());
    assert!(fs.known_inode(FILE, 5).is_none());
    let a = fs.get_or_create_inode(FILE).unwrap();
    assert!(Arc::ptr_eq(fs.known_handle(FILE).unwrap(), &a));
    assert!(Arc::ptr_eq(&fs.known_inode(FILE, 2).unwrap(), &a));
    assert!(fs.known_inode(FILE, 1).is_none());
    // The root is held by the filesystem.
    assert!(Arc::ptr_eq(&fs.known_inode(ROOT, 1).unwrap(), &fs.root_inode));
}

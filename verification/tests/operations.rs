//! Lookups and attributes.

use erofs::data::raw_iters::ref_iter::RefMapIter;
use erofs::data::raw_iters::traits::ContinuousBufferIter;
use erofs::data::{Backend, BlockBuffer, MemoryBackend, RefBuffer};
use erofs::dir::DirVisitor;
use erofs::errnos::{Errno, PosixResult};
use erofs::inode::{CompactInodeInfo, Format, Inode, InodeCollection, InodeInfo};
use erofs::map::{MapIter, MapResult};
use erofs::operations::{
    dir_lookup, found_nid, get_xattr, get_xattr_infixes, list_xattrs, lookup, next_infix,
    push_infixes, read_inode, take_infixes, Walk,
};
use erofs::superblock::{FileSystem, SuperBlock};
use erofs::xattrs::{XAttrSharedEntries, XAttrValue};
use erofs::{Nid, Off};

/// Hands out one buffer.
struct OneShotIter<'a> {
    data: &'a [u8],
    done: bool,
}

impl<'a> ContinuousBufferIter<'a> for OneShotIter<'a> {
    fn next(&mut self) -> Option<PosixResult<BlockBuffer<'a>>> {
        if self.done {
            return None;
        }
        self.done = true;
        Some(Ok(BlockBuffer::Ref(RefBuffer::new(self.data))))
    }

    fn advance_off(&mut self, _offset: Off) {}

    fn eof(&self) -> bool {
        self.done
    }
}

fn parse(data: &[u8]) -> PosixResult<Vec<Vec<u8>>> {
    let mut iter = OneShotIter { data, done: false };
    Ok(get_xattr_infixes(&mut iter)?
        .into_iter()
        .map(|i| i.0)
        .collect())
}

#[test]
fn valid_infixes_are_parsed() {
    let mut data = vec![0u8; 8];
    data[0..2].copy_from_slice(&1u16.to_le_bytes());
    data[2] = b'a';
    data[4..6].copy_from_slice(&2u16.to_le_bytes());
    data[6..8].copy_from_slice(b"bc");
    let infixes = parse(&data).unwrap();
    assert_eq!(infixes, vec![vec![b'a'], vec![b'b', b'c']]);
}

#[test]
fn trailing_single_byte_is_ignored() {
    let mut data = vec![0u8; 5];
    data[0..2].copy_from_slice(&1u16.to_le_bytes());
    data[2] = b'a';
    data[4] = 0xff;
    let infixes = parse(&data).unwrap();
    assert_eq!(infixes, vec![vec![b'a']]);
}

#[test]
fn oversized_entry_is_rejected() {
    let mut data = vec![0u8; 4];
    data[0..2].copy_from_slice(&10u16.to_le_bytes());
    assert_eq!(parse(&data).unwrap_err(), Errno::EUCLEAN);
}

/// Hands out buffers and then a failure.
struct ScriptedIter<'a> {
    steps: Vec<PosixResult<&'a [u8]>>,
}

impl<'a> ContinuousBufferIter<'a> for ScriptedIter<'a> {
    fn next(&mut self) -> Option<PosixResult<BlockBuffer<'a>>> {
        if self.steps.is_empty() {
            return None;
        }
        match self.steps.remove(0) {
            Ok(data) => Some(Ok(BlockBuffer::Ref(RefBuffer::new(data)))),
            Err(e) => Some(Err(e)),
        }
    }

    fn advance_off(&mut self, _offset: Off) {}

    fn eof(&self) -> bool {
        self.steps.is_empty()
    }
}

#[test]
fn infixes_of_several_buffers_are_collected() {
    let mut iter = ScriptedIter {
        steps: vec![Ok(&[1, 0, b'x']), Ok(&[]), Ok(&[0, 0, 0, 0, 1, 0, b'y'])],
    };
    let infixes: Vec<Vec<u8>> = get_xattr_infixes(&mut iter)
        .unwrap()
        .into_iter()
        .map(|i| i.0)
        .collect();
    assert_eq!(infixes, vec![b"x".to_vec(), b"".to_vec(), b"y".to_vec()]);
}

#[test]
fn a_failure_ends_the_infixes() {
    let mut iter = ScriptedIter {
        steps: vec![Ok(&[1, 0, b'x']), Err(Errno::EIO)],
    };
    assert_eq!(get_xattr_infixes(&mut iter).unwrap_err(), Errno::EIO);
}

#[test]
fn infixes_that_were_written_are_read_back() {
    let list: Vec<Vec<u8>> = vec![vec![], vec![1], vec![1, 2], vec![3; 300], vec![4; 65]];
    let mut data = Vec::new();
    for infix in &list {
        data.extend_from_slice(&(infix.len() as u16).to_le_bytes());
        data.extend_from_slice(infix);
        while data.len() % 4 != 0 {
            data.push(0);
        }
    }
    assert_eq!(parse(&data).unwrap(), list);
}

#[test]
fn the_next_infix_starts_at_a_multiple_of_four() {
    let data = [3u8, 0, 1, 2, 3, 0, 0, 0, 9, 9];
    assert_eq!(next_infix(&data, 0), Ok(Some((5, 8))));
    assert_eq!(next_infix(&data[..6], 0), Ok(Some((5, 6))));
    assert_eq!(next_infix(&data, 9), Ok(None));
    assert_eq!(next_infix(&data, 8), Err(Errno::EUCLEAN));
}

/// A device without content.
struct NoDevice;

impl Backend for NoDevice {
    fn fill(&self, _data: &mut [u8], _device_id: i32, _offset: Off) -> PosixResult<u64> {
        Err(Errno::EIO)
    }
}

impl<'a> MemoryBackend<'a> for NoDevice {
    fn as_buf(
        &'a self,
        _device_id: i32,
        _offset: Off,
        _len: Off,
    ) -> PosixResult<RefBuffer<'a>> {
        Err(Errno::EIO)
    }
}

struct NoMaps;

impl MapIter for NoMaps {
    fn next(&mut self) -> Option<MapResult> {
        None
    }
}

#[derive(Debug)]
struct SimpleInode {
    info: InodeInfo,
    nid: Nid,
    xattrs: XAttrSharedEntries,
}

impl Inode for SimpleInode {
    fn new(
        _sb: &SuperBlock,
        info: InodeInfo,
        nid: Nid,
        xattrs_shared_entries: XAttrSharedEntries,
    ) -> Self {
        SimpleInode {
            info,
            nid,
            xattrs: xattrs_shared_entries,
        }
    }

    fn info(&self) -> &InodeInfo {
        &self.info
    }

    fn nid(&self) -> Nid {
        self.nid
    }

    fn xattrs_shared_entries(&self) -> &XAttrSharedEntries {
        &self.xattrs
    }
}

fn inode(nid: Nid) -> SimpleInode {
    let info = InodeInfo::Compact(CompactInodeInfo {
        i_format: Format(0),
        i_xattr_icount: 0,
        i_mode: 0o040755,
        i_nlink: 1,
        i_size: 0,
        i_reserved: [0u8; 4],
        i_u: [0u8; 4],
        i_ino: 1,
        i_uid: 0,
        i_gid: 0,
        i_reserved2: [0u8; 4],
    });
    SimpleInode::new(
        &SuperBlock::default(),
        info,
        nid,
        XAttrSharedEntries {
            name_filter: 0,
            shared_indexes: Vec::new(),
        },
    )
}

/// A tree of directories: parent, name, child.
struct Tree {
    sb: SuperBlock,
    device: NoDevice,
    entries: Vec<(Nid, &'static str, Nid)>,
}

impl FileSystem<SimpleInode> for Tree {
    type B = NoDevice;
    type Blocks<'a> = RefMapIter<'a, NoDevice, NoMaps>;

    fn superblock(&self) -> &SuperBlock {
        &self.sb
    }

    fn backend(&self) -> &NoDevice {
        &self.device
    }

    fn inode_info(&self, nid: Nid) -> PosixResult<InodeInfo> {
        Ok(inode(nid).info)
    }

    fn find_nid(&self, dir: &SimpleInode, name: &str) -> PosixResult<Option<Nid>> {
        if name == "broken" {
            return Err(Errno::EUCLEAN);
        }
        Ok(self
            .entries
            .iter()
            .find(|e| e.0 == dir.nid && e.1 == name)
            .map(|e| e.2))
    }

    fn fill_dentries<V: DirVisitor>(
        &self,
        _dir: &SimpleInode,
        _visitor: &mut V,
    ) -> PosixResult<()> {
        Ok(())
    }

    fn mapped_iter<'a>(
        &'a self,
        _inode: &'a SimpleInode,
        offset: Off,
    ) -> PosixResult<Self::Blocks<'a>> {
        Ok(RefMapIter::new(
            &self.sb,
            &self.device,
            None,
            NoMaps,
            offset,
        ))
    }

    fn get_xattr(
        &self,
        inode: &SimpleInode,
        index: u32,
        name: &[u8],
        buffer: &mut Option<&mut [u8]>,
    ) -> PosixResult<XAttrValue> {
        if name == b"none" {
            return Err(Errno::ENODATA);
        }
        let value = [inode.nid as u8, index as u8, name[0]];
        match buffer {
            None => Ok(XAttrValue::Owned(value.to_vec())),
            Some(room) => {
                if room.len() < value.len() {
                    return Err(Errno::ERANGE);
                }
                room[..value.len()].copy_from_slice(&value);
                Ok(XAttrValue::Buffer(value.len()))
            }
        }
    }

    fn list_xattrs(&self, inode: &SimpleInode, buffer: &mut [u8]) -> PosixResult<usize> {
        if buffer.is_empty() {
            return Err(Errno::ERANGE);
        }
        buffer[0] = inode.nid as u8;
        Ok(1)
    }
}

fn tree() -> Tree {
    Tree {
        sb: SuperBlock {
            blkszbits: 12,
            ..Default::default()
        },
        device: NoDevice,
        entries: vec![(1, "usr", 2), (2, "lib", 3), (3, "é", 4), (1, "gone", 99)],
    }
}

/// Keeps inodes; the inode 99 cannot be read.
struct Inodes(Vec<SimpleInode>);

impl InodeCollection for Inodes {
    type I = SimpleInode;

    fn iget<F: FileSystem<SimpleInode>>(
        &mut self,
        nid: Nid,
        _filesystem: &F,
    ) -> PosixResult<&mut SimpleInode> {
        if nid == 99 {
            return Err(Errno::EIO);
        }
        if let Some(i) = self.0.iter().position(|i| i.nid == nid) {
            return Ok(&mut self.0[i]);
        }
        self.0.push(inode(nid));
        Ok(self.0.last_mut().unwrap())
    }
}

#[test]
fn an_inode_is_read_through_the_collection() {
    let fs = tree();
    let mut inodes = Inodes(Vec::new());
    assert_eq!(read_inode(&fs, &mut inodes, 7).unwrap().nid, 7);
    assert_eq!(
        read_inode(&fs, &mut inodes, 99).unwrap_err(),
        Errno::EIO
    );
    assert_eq!(inodes.0.len(), 1);
}

#[test]
fn a_path_is_looked_up_part_by_part() {
    let fs = tree();
    let mut inodes = Inodes(Vec::new());
    for (path, nid) in [
        ("", 1),
        ("/", 1),
        ("usr", 2),
        ("/usr/", 2),
        ("//usr///lib", 3),
        ("usr/lib/é", 4),
        ("usr/lib/é/", 4),
    ] {
        assert_eq!(lookup(&fs, &mut inodes, 1, path).unwrap().nid, nid);
    }
    assert_eq!(lookup(&fs, &mut inodes, 2, "lib/é").unwrap().nid, 4);
}

#[test]
fn a_failing_lookup_says_why() {
    let fs = tree();
    let mut inodes = Inodes(Vec::new());
    for (path, e) in [
        ("bin", Errno::ENOENT),
        ("usr/bin", Errno::ENOENT),
        ("usr/lib/e", Errno::ENOENT),
        ("usr/broken", Errno::EUCLEAN),
        ("gone", Errno::EIO),
        ("gone/usr", Errno::EIO),
    ] {
        assert_eq!(lookup(&fs, &mut inodes, 1, path).unwrap_err(), e);
    }
}

#[test]
fn a_lookup_in_steps_leads_to_the_same_inode() {
    let fs = tree();
    let mut inodes = Inodes(Vec::new());
    let middle = lookup(&fs, &mut inodes, 1, "usr").unwrap().nid;
    let end = lookup(&fs, &mut inodes, middle, "lib/é").unwrap().nid;
    assert_eq!(lookup(&fs, &mut inodes, 1, "usr/lib/é").unwrap().nid, end);
}

#[test]
fn a_name_is_looked_up_in_a_directory() {
    let fs = tree();
    let mut inodes = Inodes(Vec::new());
    let dir = inode(2);
    assert_eq!(dir_lookup(&fs, &mut inodes, &dir, "lib").unwrap().nid, 3);
    assert_eq!(
        dir_lookup(&fs, &mut inodes, &dir, "usr").unwrap_err(),
        Errno::ENOENT
    );
    assert_eq!(
        dir_lookup(&fs, &mut inodes, &dir, "broken").unwrap_err(),
        Errno::EUCLEAN
    );
    assert_eq!(
        dir_lookup(&fs, &mut inodes, &inode(1), "gone").unwrap_err(),
        Errno::EIO
    );
}

#[test]
fn attributes_are_asked_of_the_filesystem() {
    let fs = tree();
    let node = inode(5);
    match get_xattr(&fs, &node, 6, b"abc", &mut None).unwrap() {
        XAttrValue::Owned(v) => assert_eq!(v, [5, 6, b'a']),
        XAttrValue::Buffer(_) => panic!("there was no room"),
    }
    let mut room = [0u8; 4];
    match get_xattr(&fs, &node, 6, b"abc", &mut Some(&mut room[..])).unwrap() {
        XAttrValue::Buffer(n) => assert_eq!(n, 3),
        XAttrValue::Owned(_) => panic!("there was room"),
    }
    assert_eq!(room, [5, 6, b'a', 0]);
    assert_eq!(
        get_xattr(&fs, &node, 6, b"none", &mut None).unwrap_err(),
        Errno::ENODATA
    );
    let mut names = [0u8; 2];
    assert_eq!(list_xattrs(&fs, &node, &mut names), Ok(1));
    assert_eq!(names, [5, 0]);
    assert_eq!(list_xattrs(&fs, &node, &mut []), Err(Errno::ERANGE));
}

#[test]
fn the_answer_of_a_directory_leads_on() {
    assert_eq!(found_nid(Ok(Some(7))), Ok(7));
    assert_eq!(found_nid(Ok(None)), Err(Errno::ENOENT));
    assert_eq!(found_nid(Err(Errno::ENOMEM)), Err(Errno::ENOMEM));

    let mut walk = Walk::new(1, "//usr///bin/");
    assert_eq!(walk.next_part(), Some("usr"));
    assert_eq!(walk.step(Ok(Some(5))), Ok(()));
    assert_eq!(walk.nid, 5);
    assert_eq!(walk.next_part(), Some("bin"));
    assert_eq!(walk.step(Ok(None)), Err(Errno::ENOENT));
    assert_eq!(walk.step(Err(Errno::EUCLEAN)), Err(Errno::EUCLEAN));
    assert_eq!(walk.nid, 5);
    assert_eq!(walk.next_part(), None);
    assert_eq!(walk.next_part(), None);
    assert_eq!(walk.nid, 5);
}

#[test]
fn infixes_before_a_corrupt_one_are_noted() {
    let mut list = Vec::new();
    assert_eq!(push_infixes(&[10, 0, 0, 0], &mut list), Err(Errno::EUCLEAN));
    assert!(list.is_empty());
    assert_eq!(
        push_infixes(&[1, 0, b'a', 0, 9, 0], &mut list),
        Err(Errno::EUCLEAN)
    );
    assert_eq!(list.len(), 1);
    assert_eq!(take_infixes(None, &mut list), Ok(false));
    assert_eq!(take_infixes(Some(Err(Errno::EIO)), &mut list), Err(Errno::EIO));
    assert_eq!(list.len(), 1);
    let data = [2, 0, b'b', b'c'];
    let buffer = BlockBuffer::Ref(RefBuffer::new(&data));
    assert_eq!(take_infixes(Some(Ok(buffer)), &mut list), Ok(true));
    assert_eq!(list[0].0, b"a");
    assert_eq!(list[1].0, b"bc");
}

//! Directory blocks.

use erofs::dir::{DirCollection, DirVisitor, Dirent, DirentDesc};
use erofs::errnos::Errno;

fn desc(nid: u64, nameoff: u16, file_type: u8) -> [u8; 12] {
    let mut d = [0u8; 12];
    d[0..8].copy_from_slice(&nid.to_le_bytes());
    d[8..10].copy_from_slice(&nameoff.to_le_bytes());
    d[10] = file_type;
    d
}

#[test]
fn valid_dir_block_is_accepted() {
    let mut buf = [0u8; 32];
    buf[0..12].copy_from_slice(&desc(1, 28, 1));
    buf[12..24].copy_from_slice(&desc(2, 30, 1));
    buf[28..30].copy_from_slice(b"ab");
    buf[30..32].copy_from_slice(b"cd");
    let mut collection = DirCollection::new(&buf).unwrap();
    assert_eq!(collection.total(), 2);
    let mut names: Vec<Vec<u8>> = Vec::new();
    while let Some(d) = collection.next() {
        names.push(d.dirname().to_vec());
    }
    assert_eq!(names, [b"ab".to_vec(), b"cd".to_vec()]);
}

#[test]
fn short_buffer_is_rejected() {
    assert!(matches!(
        DirCollection::new(&[0u8; 4]),
        Err(Errno::EUCLEAN)
    ));
}

#[test]
fn nameoff_before_desc_table_is_rejected() {
    // The first name would start within the descriptor.
    assert!(matches!(
        DirCollection::new(&desc(1, 4, 1)),
        Err(Errno::EUCLEAN)
    ));
}

#[test]
fn nameoff_beyond_buffer_is_rejected() {
    assert!(matches!(
        DirCollection::new(&desc(1, 40, 1)),
        Err(Errno::EUCLEAN)
    ));
}

#[test]
fn nonmonotonic_nameoff_is_rejected() {
    let mut buf = [0u8; 40];
    buf[0..12].copy_from_slice(&desc(1, 24, 1));
    // The second name starts before the first one.
    buf[12..24].copy_from_slice(&desc(2, 20, 1));
    assert!(matches!(DirCollection::new(&buf), Err(Errno::EUCLEAN)));
}

#[test]
fn later_nameoff_beyond_buffer_is_rejected() {
    let mut buf = [0u8; 40];
    buf[0..12].copy_from_slice(&desc(1, 24, 1));
    // The second name starts behind the block.
    buf[12..24].copy_from_slice(&desc(2, 100, 1));
    assert!(matches!(DirCollection::new(&buf), Err(Errno::EUCLEAN)));
}

#[test]
fn a_descriptor_is_read_from_its_bytes() {
    let mut d = desc(0x0102_0304_0506_0708, 0x1234, 7);
    d[11] = 9;
    assert_eq!(
        DirentDesc::from(d),
        DirentDesc {
            nid: 0x0102_0304_0506_0708,
            nameoff: 0x1234,
            file_type: 7,
            reserved: 9,
        }
    );
}

fn three_entries() -> Vec<u8> {
    let mut buf = vec![0u8; 44];
    buf[0..12].copy_from_slice(&desc(10, 36, 2));
    buf[12..24].copy_from_slice(&desc(11, 37, 2));
    buf[24..36].copy_from_slice(&desc(12, 39, 1));
    buf[36..44].copy_from_slice(b"...hello");
    buf
}

#[test]
fn names_fill_the_block_behind_the_table() {
    let buf = three_entries();
    let mut collection = DirCollection::new(&buf).unwrap();
    assert_eq!(collection.total(), 3);
    let mut all = Vec::new();
    while let Some(d) = collection.next() {
        all.extend_from_slice(d.dirname());
    }
    assert_eq!(all, &buf[36..]);
}

#[test]
fn entries_can_be_skipped_and_indexed() {
    let buf = three_entries();
    let mut collection = DirCollection::new(&buf).unwrap();
    assert_eq!(collection.dirent(1).unwrap().dirname(), b"..");
    assert!(collection.dirent(3).is_none());
    collection.skip_dir(2);
    let last = collection.next().unwrap();
    assert_eq!(last.desc().nid, 12);
    assert_eq!(last.desc().file_type, 1);
    assert_eq!(last.dirname(), b"hello");
    assert!(collection.next().is_none());
}

#[test]
fn a_directory_that_was_written_is_read_back() {
    let entries: [(u64, u8, &[u8]); 4] = [
        (u64::MAX, 2, b"."),
        (0x1_0000_0001, 2, b".."),
        (7, 1, b""),
        (8, 7, b"a longer name"),
    ];
    let mut block = Vec::new();
    let mut nameoff = 12 * entries.len();
    for (nid, file_type, name) in &entries {
        block.extend_from_slice(&desc(*nid, nameoff as u16, *file_type));
        nameoff += name.len();
    }
    for (_, _, name) in &entries {
        block.extend_from_slice(name);
    }
    let mut collection = DirCollection::new(&block).unwrap();
    assert_eq!(collection.total(), entries.len());
    for (nid, file_type, name) in &entries {
        let d = collection.next().unwrap();
        assert_eq!(d.desc().nid, *nid);
        assert_eq!(d.desc().file_type, *file_type);
        assert_eq!(d.dirname(), *name);
    }
    assert!(collection.next().is_none());
}

struct CountUpTo {
    seen: usize,
    limit: usize,
}

impl DirVisitor for CountUpTo {
    type State = ();

    fn visit(&mut self, _dirent: &Dirent) -> bool {
        self.seen += 1;
        self.seen == self.limit
    }
}

#[test]
fn a_visitor_says_when_it_has_seen_enough() {
    let buf = three_entries();
    let mut collection = DirCollection::new(&buf).unwrap();
    let mut visitor = CountUpTo { seen: 0, limit: 2 };
    while let Some(d) = collection.next() {
        if visitor.visit(&d) {
            break;
        }
    }
    assert_eq!(visitor.seen, 2);
}

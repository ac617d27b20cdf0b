//! Directory blocks.
//!
//! A directory block starts with a table of descriptors. Behind the table stand the names, one
//! after the other. A descriptor says where its name starts; the name ends where the next one
//! starts, and the last name ends with the block.

use crate::alloc_helper;
use crate::bytes;
use crate::errnos::{Errno, PosixResult};
use crate::Nid;
use vstd::prelude::*;

verus! {

/// The size of a descriptor.
pub const DIRENT_DESC_SIZE: usize = 12;

/// A directory entry as it stands on disk.
#[derive(Debug, Clone, Copy, PartialEq, Eq, Structural)]
pub struct DirentDesc {
    /// The inode that the entry leads to.
    pub nid: Nid,
    /// Where in the block the name starts.
    pub nameoff: u16,
    /// The type of the inode.
    pub file_type: u8,
    pub reserved: u8,
}

/// A directory entry with its name.
#[derive(Debug, Clone, Copy)]
pub struct Dirent<'a> {
    pub desc: DirentDesc,
    pub name: &'a [u8],
}

/// The descriptor that stands at `at`.
pub open spec fn desc_at(s: Seq<u8>, at: int) -> DirentDesc {
    DirentDesc {
        nid: bytes::le64(s, at),
        nameoff: bytes::le16(s, at + 8),
        file_type: s[at + 10],
        reserved: s[at + 11],
    }
}

impl vstd::std_specs::convert::FromSpecImpl<[u8; 12]> for DirentDesc {
    open spec fn obeys_from_spec() -> bool {
        true
    }

    open spec fn from_spec(data: [u8; 12]) -> Self {
        desc_at(data@, 0)
    }
}

impl From<[u8; 12]> for DirentDesc {
    fn from(data: [u8; 12]) -> (r: Self) {
        DirentDesc {
            nid: bytes::read_le64(&data, 0),
            nameoff: bytes::read_le16(&data, 8),
            file_type: data[10],
            reserved: data[11],
        }
    }
}

/// Descriptor `i` of a directory block.
pub open spec fn desc(block: Seq<u8>, i: int) -> DirentDesc {
    desc_at(block, i * DIRENT_DESC_SIZE)
}

/// How many descriptors a directory block has: the first name starts behind the table.
pub open spec fn total(block: Seq<u8>) -> int {
    desc(block, 0).nameoff as int / DIRENT_DESC_SIZE as int
}

/// Whether a block is a directory block: there is at least one descriptor, and the names start
/// one after the other within the block.
pub open spec fn is_dir_block(block: Seq<u8>) -> bool {
    &&& block.len() >= DIRENT_DESC_SIZE
    &&& DIRENT_DESC_SIZE <= desc(block, 0).nameoff
    &&& forall|i: int|
        #![trigger desc(block, i)]
        0 <= i < total(block) ==> desc(block, i).nameoff <= block.len()
    &&& forall|i: int, j: int|
        #![trigger desc(block, i), desc(block, j)]
        0 <= i <= j < total(block) ==> desc(block, i).nameoff <= desc(block, j).nameoff
}

/// Where name `i` ends.
pub open spec fn name_end(block: Seq<u8>, i: int) -> int {
    if i == total(block) - 1 {
        block.len() as int
    } else {
        desc(block, i + 1).nameoff as int
    }
}

/// Name `i` of a directory block.
pub open spec fn name(block: Seq<u8>, i: int) -> Seq<u8> {
    block.subrange(desc(block, i).nameoff as int, name_end(block, i))
}

/// Reads the descriptor that stands at `at`.
fn read_desc(data: &[u8], at: usize) -> (r: DirentDesc)
    requires
        at + DIRENT_DESC_SIZE <= data.len(),
    ensures
        r == desc_at(data@, at as int),
{
    DirentDesc {
        nid: bytes::read_le64(data, at),
        nameoff: bytes::read_le16(data, at + 8),
        file_type: data[at + 10],
        reserved: data[at + 11],
    }
}

/// The entries of a directory block, one after the other.
pub struct DirCollection<'a> {
    data: &'a [u8],
    offset: usize,
    total: usize,
}

impl<'a> DirCollection<'a> {
    /// The block.
    pub closed spec fn block(&self) -> Seq<u8> {
        self.data@
    }

    /// The entry that is handed out next.
    pub closed spec fn position(&self) -> int {
        self.offset as int
    }

    #[verifier::type_invariant]
    closed spec fn inv(&self) -> bool {
        &&& is_dir_block(self.data@)
        &&& self.total == total(self.data@)
    }

    /// Takes a block as a directory block. A block that is none is rejected, so that no name
    /// reaches beyond the block.
    pub fn new(buffer: &'a [u8]) -> (r: PosixResult<Self>)
        ensures
            match r {
                Ok(c) => is_dir_block(buffer@) && c.block() == buffer@ && c.position() == 0,
                Err(e) => !is_dir_block(buffer@) && e == Errno::EUCLEAN,
            },
    {
        if buffer.len() < DIRENT_DESC_SIZE {
            return Err(Errno::EUCLEAN);
        }
        let first: DirentDesc = read_desc(buffer, 0);
        assert(first == desc(buffer@, 0));
        let nameoff0: usize = first.nameoff as usize;
        if nameoff0 < DIRENT_DESC_SIZE || nameoff0 > buffer.len() {
            return Err(Errno::EUCLEAN);
        }
        let total: usize = nameoff0 / DIRENT_DESC_SIZE;
        let mut prev: usize = nameoff0;
        let mut i: usize = 1;
        while i < total
            invariant
                1 <= i <= total,
                total == self::total(buffer@),
                total * DIRENT_DESC_SIZE <= nameoff0 <= buffer.len(),
                buffer.len() >= DIRENT_DESC_SIZE,
                nameoff0 == desc(buffer@, 0).nameoff,
                DIRENT_DESC_SIZE <= nameoff0,
                prev == desc(buffer@, i - 1).nameoff,
                forall|k: int|
                    #![trigger desc(buffer@, k)]
                    0 <= k < i ==> desc(buffer@, k).nameoff <= buffer.len(),
                forall|k: int, l: int|
                    #![trigger desc(buffer@, k), desc(buffer@, l)]
                    0 <= k <= l < i ==> desc(buffer@, k).nameoff <= desc(buffer@, l).nameoff,
            decreases total - i,
        {
            let d: DirentDesc = read_desc(buffer, i * DIRENT_DESC_SIZE);
            assert(d == desc(buffer@, i as int));
            let nameoff: usize = d.nameoff as usize;
            if nameoff < prev || nameoff > buffer.len() {
                assert(desc(buffer@, i - 1).nameoff == prev);
                return Err(Errno::EUCLEAN);
            }
            prev = nameoff;
            i = i + 1;
        }
        Ok(DirCollection { data: buffer, offset: 0, total })
    }

    /// Entry `index` of the block.
    pub fn dirent(&self, index: usize) -> (r: Option<Dirent<'a>>)
        ensures
            is_dir_block(self.block()),
            match r {
                Some(d) => {
                    &&& index < total(self.block())
                    &&& d.desc == desc(self.block(), index as int)
                    &&& d.name@ == name(self.block(), index as int)
                },
                None => index >= total(self.block()),
            },
    {
        proof {
            use_type_invariant(self);
        }
        if index >= self.total {
            return None;
        }
        assert(index * DIRENT_DESC_SIZE + DIRENT_DESC_SIZE <= self.data@.len());
        let d: DirentDesc = read_desc(self.data, index * DIRENT_DESC_SIZE);
        assert(d == desc(self.data@, index as int));
        let end: usize = if index == self.total - 1 {
            self.data.len()
        } else {
            let next: DirentDesc = read_desc(self.data, (index + 1) * DIRENT_DESC_SIZE);
            assert(next == desc(self.data@, index + 1));
            next.nameoff as usize
        };
        Some(Dirent { desc: d, name: &self.data[d.nameoff as usize..end] })
    }

    /// Leaves out the next `offset` entries.
    pub fn skip_dir(&mut self, offset: usize)
        requires
            old(self).position() + offset <= usize::MAX,
        ensures
            final(self).block() == old(self).block(),
            final(self).position() == old(self).position() + offset,
    {
        proof {
            use_type_invariant(&*self);
        }
        self.offset = self.offset + offset;
    }

    /// How many entries the block has.
    pub fn total(&self) -> (r: usize)
        ensures
            r == total(self.block()),
    {
        proof {
            use_type_invariant(self);
        }
        self.total
    }

    /// Hands out the next entry.
    pub fn next(&mut self) -> (r: Option<Dirent<'a>>)
        ensures
            final(self).block() == old(self).block(),
            match r {
                Some(d) => {
                    &&& old(self).position() < total(old(self).block())
                    &&& d.desc == desc(old(self).block(), old(self).position())
                    &&& d.name@ == name(old(self).block(), old(self).position())
                    &&& final(self).position() == old(self).position() + 1
                },
                None => {
                    &&& old(self).position() >= total(old(self).block())
                    &&& final(self).position() == old(self).position()
                },
            },
    {
        proof {
            use_type_invariant(&*self);
        }
        match self.dirent(self.offset) {
            Some(d) => {
                self.offset = self.offset + 1;
                Some(d)
            },
            None => None,
        }
    }
}

impl<'a> Dirent<'a> {
    /// The name.
    pub fn dirname(&self) -> (r: &'a [u8])
        ensures
            r@ == self.name@,
    {
        self.name
    }

    /// The descriptor.
    pub fn desc(&self) -> (r: &DirentDesc)
        ensures
            *r == self.desc,
    {
        &self.desc
    }
}

/// The names of the entries from `i` on, one after the other.
pub open spec fn names_from(block: Seq<u8>, i: int) -> Seq<u8>
    decreases total(block) - i,
{
    if i >= total(block) {
        Seq::empty()
    } else {
        name(block, i) + names_from(block, i + 1)
    }
}

proof fn lemma_names_from(block: Seq<u8>, i: int)
    requires
        is_dir_block(block),
        0 <= i < total(block),
    ensures
        names_from(block, i) == block.skip(desc(block, i).nameoff as int),
    decreases total(block) - i,
{
    if i + 1 < total(block) {
        lemma_names_from(block, i + 1);
        assert(desc(block, i).nameoff <= desc(block, i + 1).nameoff <= block.len());
        assert(names_from(block, i) =~= block.skip(desc(block, i).nameoff as int));
    } else {
        assert(names_from(block, i + 1) =~= Seq::<u8>::empty());
        assert(names_from(block, i) =~= block.skip(desc(block, i).nameoff as int));
    }
}

/// In a block that is accepted every name lies behind the table and within the block, and the
/// names, one after the other, are all that stands from the first name on.
pub proof fn law_names_fill_block(block: Seq<u8>)
    requires
        is_dir_block(block),
    ensures
        total(block) >= 1,
        forall|i: int|
            #![trigger desc(block, i)]
            0 <= i < total(block) ==> total(block) * DIRENT_DESC_SIZE <= desc(block, i).nameoff
                <= name_end(block, i) <= block.len(),
        names_from(block, 0) == block.skip(desc(block, 0).nameoff as int),
{
    lemma_names_from(block, 0);
    assert forall|i: int|
        #![trigger desc(block, i)]
        0 <= i < total(block) implies total(block) * DIRENT_DESC_SIZE <= desc(block, i).nameoff
        <= name_end(block, i) <= block.len() by {
        assert(desc(block, 0).nameoff <= desc(block, i).nameoff);
        if i != total(block) - 1 {
            assert(desc(block, i).nameoff <= desc(block, i + 1).nameoff);
        }
    }
}

/// A directory entry: its descriptor and its name.
pub struct Entry {
    pub desc: DirentDesc,
    pub name: Seq<u8>,
}

impl<'a> Dirent<'a> {
    /// The entry.
    pub open spec fn entry(&self) -> Entry {
        Entry { desc: self.desc, name: self.name@ }
    }
}

/// What the entries of a directory are shown to.
pub trait DirVisitor {
    /// What the visitor has seen.
    type State;

    /// What the visitor has seen.
    open spec fn state(&self) -> Self::State {
        arbitrary()
    }

    /// What it has seen after one more entry, and whether that is enough.
    open spec fn step(state: Self::State, entry: Entry) -> (Self::State, bool) {
        arbitrary()
    }

    /// Looks at an entry and says whether it has seen enough.
    fn visit(&mut self, dirent: &Dirent) -> (r: bool)
        ensures
            (final(self).state(), r) == Self::step(old(self).state(), dirent.entry()),
    ;
}

/// The entries of a directory, and what follows them: the end, or a failure.
pub struct Listing {
    pub entries: Seq<Entry>,
    pub failure: Option<Errno>,
}

impl Listing {
    /// Without the first entry.
    pub open spec fn tail(self) -> Listing {
        Listing { entries: self.entries.skip(1), failure: self.failure }
    }

    /// What a visitor has seen in the end, and how the visit ended. A visitor that has seen enough
    /// does not get to a failure behind that.
    pub open spec fn visited<V: DirVisitor>(self, state: V::State) -> (V::State, PosixResult<()>)
        decreases self.entries.len(),
    {
        if self.entries.len() == 0 {
            (
                state,
                match self.failure {
                    Some(e) => Err(e),
                    None => Ok(()),
                },
            )
        } else {
            let (next, enough) = V::step(state, self.entries[0]);
            if enough {
                (next, Ok(()))
            } else {
                self.tail().visited::<V>(next)
            }
        }
    }

    /// The first `n` entries, and the end.
    pub open spec fn front(self, n: int) -> Listing {
        Listing { entries: self.entries.take(n), failure: None }
    }

    /// Whether a visit that began with `before` ended with `after` and `r`. Reading a directory
    /// takes memory, and where there is none, that ends the visit at any time.
    pub open spec fn shown<V: DirVisitor>(
        self,
        before: V::State,
        after: V::State,
        r: PosixResult<()>,
    ) -> bool {
        ||| (after, r) == self.visited::<V>(before)
        ||| {
            &&& r == Err::<(), Errno>(Errno::ENOMEM)
            &&& alloc_helper::memory_refused()
            &&& exists|n: int|
                0 <= n <= self.entries.len() && after == (#[trigger] self.front(n)).visited::<V>(
                    before,
                ).0
        }
    }
}

/// Where name `i` starts in a block of the entries: behind the table and the names before it.
pub open spec fn name_start(entries: Seq<Entry>, i: int) -> int
    decreases i,
{
    if i <= 0 {
        entries.len() * DIRENT_DESC_SIZE
    } else {
        name_start(entries, i - 1) + entries[i - 1].name.len()
    }
}

/// Descriptor `i` of a block of the entries.
pub open spec fn packed_desc(entries: Seq<Entry>, i: int) -> Seq<u8> {
    bytes::packed64(entries[i].desc.nid) + bytes::packed16(name_start(entries, i) as u16) + seq![
        entries[i].desc.file_type,
        entries[i].desc.reserved,
    ]
}

/// The descriptors from `i` on.
pub open spec fn packed_descs(entries: Seq<Entry>, i: int) -> Seq<u8>
    decreases entries.len() - i,
{
    if i >= entries.len() {
        Seq::empty()
    } else {
        packed_desc(entries, i) + packed_descs(entries, i + 1)
    }
}

/// The names from `i` on.
pub open spec fn packed_names(entries: Seq<Entry>, i: int) -> Seq<u8>
    decreases entries.len() - i,
{
    if i >= entries.len() {
        Seq::empty()
    } else {
        entries[i].name + packed_names(entries, i + 1)
    }
}

/// A directory block of the entries.
pub open spec fn packed_dir(entries: Seq<Entry>) -> Seq<u8> {
    packed_descs(entries, 0) + packed_names(entries, 0)
}

/// Where the descriptors from `i` on stand.
proof fn lemma_packed_descs(entries: Seq<Entry>, i: int)
    requires
        0 <= i <= entries.len(),
    ensures
        packed_descs(entries, 0).len() == entries.len() * DIRENT_DESC_SIZE,
        packed_descs(entries, 0).skip(i * DIRENT_DESC_SIZE) == packed_descs(entries, i),
    decreases i,
{
    lemma_packed_descs_len(entries, 0);
    if i == 0 {
        assert(packed_descs(entries, 0).skip(0) =~= packed_descs(entries, 0));
    } else {
        lemma_packed_descs(entries, i - 1);
        lemma_packed_desc_len(entries, i - 1);
        let all = packed_descs(entries, 0);
        assert(all.skip(i * DIRENT_DESC_SIZE) =~= all.skip((i - 1) * DIRENT_DESC_SIZE).skip(
            DIRENT_DESC_SIZE as int,
        ));
        assert(packed_descs(entries, i - 1).skip(DIRENT_DESC_SIZE as int) =~= packed_descs(
            entries,
            i,
        ));
    }
}

/// How many bytes the descriptors from `i` on take.
proof fn lemma_packed_descs_len(entries: Seq<Entry>, i: int)
    requires
        0 <= i <= entries.len(),
    ensures
        packed_descs(entries, i).len() == (entries.len() - i) * DIRENT_DESC_SIZE,
    decreases entries.len() - i,
{
    if i < entries.len() {
        lemma_packed_desc_len(entries, i);
        lemma_packed_descs_len(entries, i + 1);
    }
}

/// Where the names from `i` on stand.
proof fn lemma_packed_names(entries: Seq<Entry>, i: int)
    requires
        0 <= i <= entries.len(),
    ensures
        entries.len() * DIRENT_DESC_SIZE <= name_start(entries, i) <= packed_dir(entries).len(),
        packed_dir(entries).skip(name_start(entries, i)) == packed_names(entries, i),
    decreases i,
{
    lemma_packed_descs_len(entries, 0);
    let block = packed_dir(entries);
    if i == 0 {
        assert(block.skip(name_start(entries, 0)) =~= packed_names(entries, 0));
    } else {
        lemma_packed_names(entries, i - 1);
        let before = name_start(entries, i - 1);
        let len = entries[i - 1].name.len() as int;
        assert(block.skip(before).len() == block.len() - before);
        assert(block.skip(before + len) =~= block.skip(before).skip(len));
        assert(packed_names(entries, i - 1).skip(len) =~= packed_names(entries, i));
    }
}

/// Names that come later start later.
proof fn lemma_name_start_grows(entries: Seq<Entry>, i: int, j: int)
    requires
        0 <= i <= j,
    ensures
        name_start(entries, i) <= name_start(entries, j),
    decreases j - i,
{
    if i < j {
        lemma_name_start_grows(entries, i, j - 1);
    }
}

/// A descriptor takes twelve bytes.
proof fn lemma_packed_desc_len(entries: Seq<Entry>, i: int)
    ensures
        packed_desc(entries, i).len() == DIRENT_DESC_SIZE,
{
    bytes::law_packed_fields_are_read_back(Seq::empty(), Seq::empty(), entries[i].desc.nid);
}

/// A descriptor is read back.
proof fn lemma_desc_read_back(before: Seq<u8>, after: Seq<u8>, d: DirentDesc)
    ensures
        desc_at(
            before + (bytes::packed64(d.nid) + bytes::packed16(d.nameoff) + seq![
                d.file_type,
                d.reserved,
            ]) + after,
            before.len() as int,
        ) == d,
{
    let nid = bytes::packed64(d.nid);
    let off = bytes::packed16(d.nameoff);
    let types = seq![d.file_type, d.reserved];
    let s = before + (nid + off + types) + after;
    let at = before.len() as int;
    bytes::law_packed_fields_are_read_back(before, off + types + after, d.nid);
    bytes::law_packed_fields_are_read_back(before + nid, types + after, d.nameoff as u64);
    assert(s =~= before + nid + (off + types + after));
    assert(s =~= before + nid + off + (types + after));
    assert(s[at + 10] == d.file_type);
    assert(s[at + 11] == d.reserved);
}

/// Descriptor `i` of a block is that of entry `i`.
proof fn lemma_packed_desc(entries: Seq<Entry>, i: int)
    requires
        0 <= i < entries.len(),
    ensures
        desc(packed_dir(entries), i) == (DirentDesc {
            nameoff: name_start(entries, i) as u16,
            ..entries[i].desc
        }),
{
    let block = packed_dir(entries);
    let at = i * DIRENT_DESC_SIZE;
    lemma_packed_descs(entries, i);
    let before = block.take(at);
    let after = packed_descs(entries, i + 1) + packed_names(entries, 0);
    let all = packed_descs(entries, 0);
    assert(all =~= all.take(at) + all.skip(at));
    assert(before =~= all.take(at));
    assert(block =~= before + packed_desc(entries, i) + after);
    let d = DirentDesc { nameoff: name_start(entries, i) as u16, ..entries[i].desc };
    lemma_desc_read_back(before, after, d);
}

/// Name `i` of a block is that of entry `i`.
proof fn lemma_packed_name(entries: Seq<Entry>, i: int)
    requires
        0 <= i < entries.len(),
    ensures
        packed_dir(entries).subrange(name_start(entries, i), name_start(entries, i + 1))
            == entries[i].name,
{
    let block = packed_dir(entries);
    let start = name_start(entries, i);
    let len = entries[i].name.len() as int;
    lemma_packed_names(entries, i);
    lemma_packed_names(entries, i + 1);
    assert(block.subrange(start, start + len) =~= block.skip(start).take(len));
    assert(packed_names(entries, i).take(len) =~= entries[i].name);
}

/// Where name `i` starts, as its descriptor says.
proof fn lemma_packed_nameoff(entries: Seq<Entry>, i: int)
    requires
        0 <= i < entries.len(),
        name_start(entries, entries.len() - 1) <= 0xffff,
    ensures
        desc(packed_dir(entries), i).nameoff == name_start(entries, i),
        name_start(entries, i) <= packed_dir(entries).len(),
        total(packed_dir(entries)) == entries.len(),
        packed_dir(entries).len() == name_start(entries, entries.len() as int),
{
    let n = entries.len() as int;
    let block = packed_dir(entries);
    lemma_packed_desc(entries, i);
    lemma_packed_desc(entries, 0);
    lemma_name_start_grows(entries, i, n - 1);
    lemma_name_start_grows(entries, 0, n - 1);
    lemma_packed_names(entries, i);
    lemma_packed_names(entries, n);
    assert(block.skip(name_start(entries, n)).len() == block.len() - name_start(entries, n));
}

/// A directory block that was written is accepted, and its entries are read back.
pub proof fn law_packed_dir_is_read_back(entries: Seq<Entry>)
    requires
        entries.len() > 0,
        name_start(entries, entries.len() - 1) <= 0xffff,
    ensures
        is_dir_block(packed_dir(entries)),
        total(packed_dir(entries)) == entries.len(),
        forall|i: int|
            #![trigger entries[i]]
            0 <= i < entries.len() ==> {
                &&& desc(packed_dir(entries), i) == (DirentDesc {
                    nameoff: name_start(entries, i) as u16,
                    ..entries[i].desc
                })
                &&& name(packed_dir(entries), i) == entries[i].name
            },
{
    let block = packed_dir(entries);
    let n = entries.len() as int;
    lemma_packed_nameoff(entries, 0);
    assert forall|i: int| #![trigger desc(block, i)] 0 <= i < n implies desc(block, i).nameoff
        <= block.len() by {
        lemma_packed_nameoff(entries, i);
    }
    assert forall|i: int, j: int|
        #![trigger desc(block, i), desc(block, j)]
        0 <= i <= j < n implies desc(block, i).nameoff <= desc(block, j).nameoff by {
        lemma_packed_nameoff(entries, i);
        lemma_packed_nameoff(entries, j);
        lemma_name_start_grows(entries, i, j);
    }
    assert forall|i: int| #![trigger entries[i]] 0 <= i < n implies {
        &&& desc(block, i) == (DirentDesc {
            nameoff: name_start(entries, i) as u16,
            ..entries[i].desc
        })
        &&& name(block, i) == entries[i].name
    } by {
        lemma_packed_desc(entries, i);
        lemma_packed_name(entries, i);
        lemma_packed_nameoff(entries, i);
        if i < n - 1 {
            lemma_packed_nameoff(entries, i + 1);
        }
    }
}

/// A block is refused if it is too short for a descriptor, if its first name starts within the
/// first descriptor, or if a name starts behind the block or before the name that it follows. Where
/// a name starts stands at the ninth byte of its descriptor.
pub proof fn law_broken_blocks_are_refused(block: Seq<u8>, i: int)
    ensures
        block.len() < 12 ==> !is_dir_block(block),
        block.len() >= 12 && bytes::le16(block, 8) < 12 ==> !is_dir_block(block),
        0 <= i < bytes::le16(block, 8) as int / 12 && bytes::le16(block, 12 * i + 8) > block.len()
            ==> !is_dir_block(block),
        0 < i < bytes::le16(block, 8) as int / 12 && bytes::le16(block, 12 * i + 8) < bytes::le16(
            block,
            12 * (i - 1) + 8,
        ) ==> !is_dir_block(block),
{
    if 0 <= i < total(block) {
        assert(desc(block, i).nameoff == bytes::le16(block, 12 * i + 8));
        if i > 0 {
            assert(desc(block, i - 1).nameoff == bytes::le16(block, 12 * (i - 1) + 8));
        }
    }
}

} // verus!

//! The directories of a mounted image.

use crate::alloc_helper;
use crate::dir::{DirVisitor, Dirent, Entry, Listing};
use crate::errnos::{Errno, PosixResult};
use crate::inode::{InodeInfo, Type};
use crate::mount::errno;
use crate::mount::errno::{from_erofs_errno, SystemError};
use crate::mount::fs;
use crate::mount::fs::{ErofsFileSystem, FsState};
use crate::mount::inode::{ErofsInode, ErofsSysInode};
use crate::mount::vfs::{DirectoryEntry, InodeId};
use crate::superblock::FileSystem;
use crate::Nid;
use std::collections::BTreeMap;
use std::sync::Arc;
use vstd::prelude::*;
use vstd::string::StringSliceAdditionalSpecFns;
use vstd::utf8;

verus! {

/// Whether two runs of bytes are the same.
pub fn same_bytes(a: &[u8], b: &[u8]) -> (r: bool)
    ensures
        r == (a@ == b@),
{
    if a.len() != b.len() {
        return false;
    }
    let mut i: usize = 0;
    while i < a.len()
        invariant
            i <= a.len() == b.len(),
            forall|k: int| 0 <= k < i ==> a@[k] == b@[k],
        decreases a.len() - i,
    {
        if a[i] != b[i] {
            return false;
        }
        i = i + 1;
    }
    assert(a@ =~= b@);
    true
}

/// Looks for a name, until it is found.
pub struct FindVisitor<'n> {
    pub name: &'n [u8],
    pub found: Option<Nid>,
}

/// What was looked for, and what was found.
pub struct FindState {
    pub name: Seq<u8>,
    pub found: Option<Nid>,
}

impl<'n> DirVisitor for FindVisitor<'n> {
    type State = FindState;

    open spec fn state(&self) -> FindState {
        FindState { name: self.name@, found: self.found }
    }

    open spec fn step(state: FindState, entry: Entry) -> (FindState, bool) {
        if entry.name == state.name {
            (FindState { found: Some(entry.desc.nid), ..state }, true)
        } else {
            (state, false)
        }
    }

    fn visit(&mut self, dirent: &Dirent) -> (r: bool) {
        if same_bytes(dirent.dirname(), self.name) {
            self.found = Some(dirent.desc().nid);
            true
        } else {
            false
        }
    }
}

/// Where the first entry with a name stands, or how many entries there are.
pub open spec fn first_named(entries: Seq<Entry>, name: Seq<u8>) -> int
    decreases entries.len(),
{
    if entries.len() == 0 || entries[0].name == name {
        0
    } else {
        1 + first_named(entries.skip(1), name)
    }
}

/// What looking for a name in a directory ends in: the first entry with that name, or the failure
/// of the directory where that comes first.
pub open spec fn named(listing: Listing, name: Seq<u8>) -> PosixResult<Option<Nid>> {
    let i = first_named(listing.entries, name);
    if i < listing.entries.len() {
        Ok(Some(listing.entries[i].desc.nid))
    } else {
        match listing.failure {
            Some(e) => Err(e),
            None => Ok(None),
        }
    }
}

/// The first entry with a name has it, and none before it has.
pub proof fn law_first_named_is_first(entries: Seq<Entry>, name: Seq<u8>)
    ensures
        0 <= first_named(entries, name) <= entries.len(),
        first_named(entries, name) < entries.len() ==> entries[first_named(entries, name)].name
            == name,
        forall|i: int| 0 <= i < first_named(entries, name) ==> (#[trigger] entries[i]).name != name,
    decreases entries.len(),
{
    if entries.len() > 0 && entries[0].name != name {
        let rest = entries.skip(1);
        law_first_named_is_first(rest, name);
        assert forall|i: int| 0 <= i < first_named(entries, name) implies (
        #[trigger] entries[i]).name != name by {
            if i > 0 {
                assert(entries[i] == rest[i - 1]);
            }
        }
    }
}

/// A visitor that looks for a name finds the first entry with that name.
proof fn lemma_find_visited(listing: Listing, name: Seq<u8>)
    ensures
        ({
            let (state, r) = listing.visited::<FindVisitor<'_>>(
                FindState { name, found: None },
            );
            named(listing, name) == match r {
                Ok(()) => Ok(state.found),
                Err(e) => Err(e),
            }
        }),
    decreases listing.entries.len(),
{
    if listing.entries.len() > 0 && listing.entries[0].name != name {
        lemma_find_visited(listing.tail(), name);
        law_first_named_is_first(listing.tail().entries, name);
    }
}

/// An entry as it is listed.
pub struct ListedEntry {
    pub name: Seq<u8>,
    pub ino: u64,
    pub d_type: u8,
    pub next_cookie: u64,
}

/// An entry as it is listed.
pub open spec fn listed_entry(e: DirectoryEntry) -> ListedEntry {
    ListedEntry { name: e.name@, ino: e.ino, d_type: e.d_type, next_cookie: e.next_cookie }
}

/// Lists the entries of a directory, with the numbers of their inodes.
pub struct ListVisitor<'c> {
    pub cache: &'c BTreeMap<Nid, (InodeId, Arc<ErofsInode>)>,
    pub next_ino: usize,
    pub entries: Vec<DirectoryEntry>,
    pub index: u64,
}

/// What was listed, and what is known of the inodes by then.
pub struct ListState {
    pub inodes: FsState,
    pub entries: Seq<ListedEntry>,
    pub index: u64,
}

impl<'c> DirVisitor for ListVisitor<'c> {
    type State = ListState;

    open spec fn state(&self) -> ListState {
        ListState {
            inodes: FsState { cache: fs::cached(self.cache@), next_ino: self.next_ino },
            entries: self.entries@.map_values(|e: DirectoryEntry| listed_entry(e)),
            index: self.index,
        }
    }

    open spec fn step(state: ListState, entry: Entry) -> (ListState, bool) {
        let (inodes, ino) = state.inodes.numbered(entry.desc.nid);
        let listed = ListedEntry {
            name: entry.name,
            ino: ino.0 as u64,
            d_type: entry.desc.file_type,
            next_cookie: state.index.wrapping_add(1),
        };
        (
            ListState {
                inodes,
                entries: state.entries.push(listed),
                index: state.index.wrapping_add(1),
            },
            false,
        )
    }

    fn visit(&mut self, dirent: &Dirent) -> (r: bool) {
        let ghost before = self.state();
        let child_nid: Nid = dirent.desc().nid;
        let known: Option<InodeId> = match self.cache.get(&child_nid) {
            Some((ino, _)) => Some(*ino),
            None => None,
        };
        let ino: InodeId = match known {
            Some(ino) => ino,
            None => {
                let ino = InodeId::new(self.next_ino);
                self.next_ino = self.next_ino.wrapping_add(1);
                ino
            },
        };
        let name: Vec<u8> = vstd::slice::slice_to_vec(dirent.dirname());
        let ghost had = self.entries@;
        self.index = self.index.wrapping_add(1);
        self.entries.push(
            DirectoryEntry {
                name,
                ino: ino.data() as u64,
                d_type: dirent.desc().file_type,
                next_cookie: self.index,
            },
        );
        proof {
            let (next, _) = Self::step(before, dirent.entry());
            assert(self.state().entries =~= next.entries);
        }
        false
    }
}

/// Listing changes nothing of what is known of the inodes but the next number.
proof fn lemma_list_keeps_cache(listing: Listing, state: ListState)
    ensures
        listing.visited::<ListVisitor<'_>>(state).0.inodes.cache == state.inodes.cache,
    decreases listing.entries.len(),
{
    if listing.entries.len() > 0 {
        let (next, _) = <ListVisitor<'_> as DirVisitor>::step(state, listing.entries[0]);
        lemma_list_keeps_cache(listing.tail(), next);
    }
}

/// What is listed of a directory, and what is known of the inodes then.
pub open spec fn listed(listing: Listing, inodes: FsState) -> (ListState, PosixResult<()>) {
    listing.visited::<ListVisitor<'_>>(ListState { inodes, entries: Seq::empty(), index: 0 })
}

/// Listing goes on where it stands.
proof fn lemma_listing_goes_on(listing: Listing, state: ListState)
    requires
        state.index == state.entries.len(),
        state.entries.len() + listing.entries.len() <= u64::MAX,
    ensures
        ({
            let done = state.entries.len() as int;
            let (end, r) = listing.visited::<ListVisitor<'_>>(state);
            &&& r == match listing.failure {
                Some(e) => Err(e),
                None => Ok(()),
            }
            &&& end.entries.len() == done + listing.entries.len()
            &&& end.entries.take(done) == state.entries
            &&& forall|i: int|
                #![trigger end.entries[i]]
                done <= i < end.entries.len() ==> {
                    let entry = listing.entries[i - done];
                    &&& end.entries[i].name == entry.name
                    &&& end.entries[i].d_type == entry.desc.file_type
                    &&& end.entries[i].next_cookie == i + 1
                    &&& state.inodes.cache.contains_key(entry.desc.nid) ==> end.entries[i].ino
                        == state.inodes.cache[entry.desc.nid].ino.0
                }
        }),
    decreases listing.entries.len(),
{
    let done = state.entries.len() as int;
    let (end, r) = listing.visited::<ListVisitor<'_>>(state);
    if listing.entries.len() > 0 {
        let (next, _) = <ListVisitor<'_> as DirVisitor>::step(state, listing.entries[0]);
        lemma_listing_goes_on(listing.tail(), next);
        assert(end.entries.take(done + 1)[done] == next.entries[done]);
        assert(end.entries.take(done) =~= end.entries.take(done + 1).take(done));
        assert(next.entries.take(done) =~= state.entries);
        assert forall|i: int| #![trigger end.entries[i]] done <= i < end.entries.len() implies {
            let entry = listing.entries[i - done];
            &&& end.entries[i].name == entry.name
            &&& end.entries[i].d_type == entry.desc.file_type
            &&& end.entries[i].next_cookie == i + 1
            &&& state.inodes.cache.contains_key(entry.desc.nid) ==> end.entries[i].ino
                == state.inodes.cache[entry.desc.nid].ino.0
        } by {
            if i > done {
                assert(listing.tail().entries[i - done - 1] == listing.entries[i - done]);
            }
        }
    } else {
        assert(end.entries.take(done) =~= state.entries);
    }
}

/// Every entry of a directory is listed, in its order, with its name and its type; the cookies
/// count from one, and an inode that is known is listed under its number.
pub proof fn law_listing_is_complete(listing: Listing, inodes: FsState)
    requires
        listing.entries.len() <= u64::MAX,
    ensures
        ({
            let (end, r) = listed(listing, inodes);
            &&& r == match listing.failure {
                Some(e) => Err(e),
                None => Ok(()),
            }
            &&& end.entries.len() == listing.entries.len()
            &&& forall|i: int|
                #![trigger end.entries[i]]
                0 <= i < end.entries.len() ==> {
                    let entry = listing.entries[i];
                    &&& end.entries[i].name == entry.name
                    &&& end.entries[i].d_type == entry.desc.file_type
                    &&& end.entries[i].next_cookie == i + 1
                    &&& inodes.cache.contains_key(entry.desc.nid) ==> end.entries[i].ino
                        == inodes.cache[entry.desc.nid].ino.0
                }
        }),
{
    lemma_listing_goes_on(listing, ListState { inodes, entries: Seq::empty(), index: 0 });
}

/// The string of some bytes, if they are valid UTF-8.
///
/// This calls `core::str::from_utf8`, of which it is claimed that it gives the string of the
/// bytes where they are valid UTF-8, and an error where they are not.
#[verifier::external_body]
fn str_of_bytes(bytes: &[u8]) -> (r: Option<&str>)
    ensures
        match r {
            Some(s) => utf8::valid_utf8(bytes@) && s.spec_bytes() == bytes@,
            None => !utf8::valid_utf8(bytes@),
        },
{
    core::str::from_utf8(bytes).ok()
}

/// What a search for a name comes to, once the directory has been walked through with `outcome` and
/// the visitor holds `found`: a name that is not there is an error.
pub open spec fn search_result(outcome: PosixResult<()>, found: Option<Nid>) -> Result<
    Nid,
    SystemError,
> {
    match outcome {
        Err(e) => Err(errno::system_error(e)),
        Ok(()) => match found {
            None => Err(SystemError::ENOENT),
            Some(nid) => Ok(nid),
        },
    }
}

/// What a search for a name comes to.
pub fn finish_search(outcome: PosixResult<()>, found: Option<Nid>) -> (r: Result<Nid, SystemError>)
    ensures
        r == search_result(outcome, found),
{
    match outcome {
        Err(e) => Err(from_erofs_errno(e)),
        Ok(()) => match found {
            None => Err(SystemError::ENOENT),
            Some(nid) => Ok(nid),
        },
    }
}

/// What listing a directory comes to, once it has been walked through with `outcome` and the
/// visitor holds `entries`.
pub fn finish_listing(outcome: PosixResult<()>, entries: Vec<DirectoryEntry>) -> (r: Result<
    Option<Vec<DirectoryEntry>>,
    SystemError,
>)
    ensures
        r == match outcome {
            Err(e) => Err::<Option<Vec<DirectoryEntry>>, SystemError>(errno::system_error(e)),
            Ok(()) => Ok(Some(entries)),
        },
{
    match outcome {
        Ok(()) => Ok(Some(entries)),
        Err(e) => Err(from_erofs_errno(e)),
    }
}

impl ErofsInode {
    /// Whether looking for a name in the directory is answered by `r`, with `before` known of the
    /// inodes before and `after` then. The inode `root` is held by the filesystem itself. Reading a
    /// directory takes memory, and where there is none, that is the answer.
    pub open spec fn finds<FS: FileSystem<ErofsSysInode>>(
        &self,
        inner: &FS,
        root: Nid,
        name: Seq<u8>,
        before: FsState,
        r: Result<ErofsInode, SystemError>,
        after: FsState,
    ) -> bool {
        if self.info.spec_inode_type() != Type::Directory {
            r == Err::<ErofsInode, SystemError>(SystemError::ENOTDIR) && after == before
        } else {
            ||| {
                &&& r == Err::<ErofsInode, SystemError>(SystemError::ENOMEM)
                &&& alloc_helper::memory_refused()
                &&& after == before
            }
            ||| match named(inner.listing(self.nid, self.info), name) {
                Err(e) => {
                    &&& r == Err::<ErofsInode, SystemError>(errno::system_error(e))
                    &&& after == before
                },
                Ok(None) => {
                    &&& r == Err::<ErofsInode, SystemError>(SystemError::ENOENT)
                    &&& after == before
                },
                Ok(Some(nid)) => {
                    let kept = nid == root;
                    exists|count: usize|
                        {
                            &&& before.gives(
                                nid,
                                #[trigger] FsState::held(kept, count),
                                inner.on_disk(nid),
                                r,
                                after,
                            )
                            &&& before.cache.contains_key(nid) ==> fs::handle_count(
                                before.cache[nid].inode,
                                count,
                            )
                        }
                },
            }
        }
    }

    /// Looks for a name in the directory.
    pub fn find<FS: FileSystem<ErofsSysInode>>(
        &self,
        fs: &mut ErofsFileSystem<FS>,
        name: &str,
    ) -> (r: Result<Arc<ErofsInode>, SystemError>)
        ensures
            final(fs).same_image(old(fs)),
            self.finds(
                &old(fs).inner,
                old(fs).root_inode.nid,
                name.spec_bytes(),
                old(fs).state(),
                fs::unshared(r),
                final(fs).state(),
            ),
    {
        if self.info.inode_type() != Type::Directory {
            return Err(SystemError::ENOTDIR);
        }
        let sys_inode = self.as_sys_inode();
        let mut visitor = FindVisitor { name: name.as_bytes(), found: None };
        proof {
            lemma_find_visited(fs.inner.listing(self.nid, self.info), name.spec_bytes());
        }
        let outcome = fs.inner.fill_dentries(&sys_inode, &mut visitor);
        let nid: Nid = finish_search(outcome, visitor.found)?;
        fs.get_or_create_inode(nid)
    }

    /// Looks for a name in the directory. A name that is not valid UTF-8 is an I/O error.
    pub fn find_bytes<FS: FileSystem<ErofsSysInode>>(
        &self,
        fs: &mut ErofsFileSystem<FS>,
        name: &[u8],
    ) -> (r: Result<Arc<ErofsInode>, SystemError>)
        ensures
            final(fs).same_image(old(fs)),
            if !utf8::valid_utf8(name@) {
                &&& r == Err::<Arc<ErofsInode>, SystemError>(SystemError::EIO)
                &&& final(fs).state() == old(fs).state()
            } else {
                self.finds(
                    &old(fs).inner,
                    old(fs).root_inode.nid,
                    name@,
                    old(fs).state(),
                    fs::unshared(r),
                    final(fs).state(),
                )
            },
    {
        match str_of_bytes(name) {
            None => Err(SystemError::EIO),
            Some(name) => self.find(fs, name),
        }
    }

    /// Lists the directory. That takes memory, and where there is none, that is the answer; the
    /// numbers that were given out by then are used up.
    pub fn list_entries<FS: FileSystem<ErofsSysInode>>(&self, fs: &mut ErofsFileSystem<FS>) -> (r:
        Result<Option<Vec<DirectoryEntry>>, SystemError>)
        ensures
            final(fs).same_image(old(fs)),
            ({
                let listing = old(fs).inner.listing(self.nid, self.info);
                let (end, out) = listed(listing, old(fs).state());
                ||| {
                    &&& final(fs).state() == end.inodes
                    &&& match out {
                        Ok(()) => {
                            &&& r matches Ok(Some(list))
                            &&& list@.map_values(|e: DirectoryEntry| listed_entry(e))
                                == end.entries
                        },
                        Err(e) => r == Err::<Option<Vec<DirectoryEntry>>, SystemError>(
                            errno::system_error(e),
                        ),
                    }
                }
                ||| {
                    &&& r == Err::<Option<Vec<DirectoryEntry>>, SystemError>(SystemError::ENOMEM)
                    &&& alloc_helper::memory_refused()
                    &&& exists|n: int|
                        0 <= n <= listing.entries.len() && final(fs).state() == listed(
                            #[trigger] listing.front(n),
                            old(fs).state(),
                        ).0.inodes
                }
            }),
    {
        let sys_inode = self.as_sys_inode();
        let mut visitor = ListVisitor {
            cache: &fs.inode_cache,
            next_ino: fs.next_ino,
            entries: Vec::new(),
            index: 0,
        };
        let ghost listing = fs.inner.listing(self.nid, self.info);
        let ghost start = visitor.state();
        proof {
            assert(start.entries =~= Seq::empty());
            lemma_list_keeps_cache(listing, start);
            assert forall|n: int| 0 <= n <= listing.entries.len() implies (
            #[trigger] listing.front(n)).visited::<ListVisitor<'_>>(start).0.inodes.cache
                == start.inodes.cache by {
                lemma_list_keeps_cache(listing.front(n), start);
            }
        }
        let outcome = fs.inner.fill_dentries(&sys_inode, &mut visitor);
        let next_ino: usize = visitor.next_ino;
        let entries = visitor.entries;
        fs.next_ino = next_ino;
        finish_listing(outcome, entries)
    }
}

/// Looking for a name finds the first entry with exactly that name, and the inode that it leads to.
/// Without such an entry nothing is found, or the failure of the directory is what the search ends
/// in.
pub proof fn law_name_leads_to_its_inode(listing: Listing, name: Seq<u8>, i: int)
    requires
        0 <= i <= listing.entries.len(),
        i < listing.entries.len() ==> listing.entries[i].name == name,
        forall|k: int| 0 <= k < i ==> (#[trigger] listing.entries[k]).name != name,
    ensures
        named(listing, name) == if i < listing.entries.len() {
            Ok::<Option<Nid>, Errno>(Some(listing.entries[i].desc.nid))
        } else {
            match listing.failure {
                Some(e) => Err::<Option<Nid>, Errno>(e),
                None => Ok::<Option<Nid>, Errno>(None),
            }
        },
{
    law_first_named_is_first(listing.entries, name);
    let j = first_named(listing.entries, name);
    if j < i {
        assert(listing.entries[j].name != name);
    } else if i < j {
        assert(listing.entries[i].name != name);
    }
}

/// What the virtual filesystem finds under a name is the inode that the first entry with that name
/// leads to, made of what stands on disk of it or known already. What is no directory has no names.
pub proof fn law_found_inode_is_the_named_one<FS: FileSystem<ErofsSysInode>>(
    dir: &ErofsInode,
    inner: &FS,
    root: Nid,
    name: Seq<u8>,
    before: FsState,
    r: Result<ErofsInode, SystemError>,
    after: FsState,
    i: int,
)
    requires
        before.valid(),
        dir.finds(inner, root, name, before, r, after),
        ({
            let entries = inner.listing(dir.nid, dir.info).entries;
            &&& 0 <= i <= entries.len()
            &&& i < entries.len() ==> entries[i].name == name
            &&& forall|k: int| 0 <= k < i ==> (#[trigger] entries[k]).name != name
        }),
    ensures
        ({
            let listing = inner.listing(dir.nid, dir.info);
            if dir.info.spec_inode_type() != Type::Directory {
                r == Err::<ErofsInode, SystemError>(SystemError::ENOTDIR) && after == before
            } else if i < listing.entries.len() {
                let nid = listing.entries[i].desc.nid;
                match r {
                    Ok(inode) => {
                        &&& inode.nid == nid
                        &&& inner.on_disk(nid) == Ok::<InodeInfo, Errno>(inode.info)
                            || before.cache.contains_key(nid) && inode == before.cache[nid].inode
                        &&& after.cache.contains_key(nid) && after.cache[nid].inode == inode
                    },
                    Err(e) => {
                        &&& after == before
                        &&& e == SystemError::ENOMEM || (inner.on_disk(nid) matches Err(failure)
                            && e == errno::system_error(failure))
                    },
                }
            } else {
                &&& after == before
                &&& r matches Err(e) && (e == SystemError::ENOMEM || e == match listing.failure {
                    Some(failure) => errno::system_error(failure),
                    None => SystemError::ENOENT,
                })
            }
        }),
{
    law_name_leads_to_its_inode(inner.listing(dir.nid, dir.info), name, i);
}

/// What a search comes to: a name that was found leads to its inode, one that was not found is an
/// error, and a failure is handed on.
pub proof fn law_end_of_a_search(nid: Nid, e: Errno, found: Option<Nid>)
    ensures
        search_result(Ok(()), Some(nid)) == Ok::<Nid, SystemError>(nid),
        search_result(Ok(()), None) == Err::<Nid, SystemError>(SystemError::ENOENT),
        search_result(Err(e), found) == Err::<Nid, SystemError>(errno::system_error(e)),
{
}

/// The numbers that inodes which are not known are listed under.
proof fn lemma_unknown_are_numbered(listing: Listing, state: ListState)
    requires
        state.index == state.entries.len(),
        state.entries.len() + listing.entries.len() <= u64::MAX,
        state.inodes.next_ino + listing.entries.len() <= usize::MAX,
        forall|i: int|
            0 <= i < listing.entries.len() ==> !state.inodes.cache.contains_key(
                (#[trigger] listing.entries[i]).desc.nid,
            ),
    ensures
        ({
            let done = state.entries.len() as int;
            let end = listing.visited::<ListVisitor<'_>>(state).0;
            &&& end.inodes.next_ino == state.inodes.next_ino + listing.entries.len()
            &&& end.inodes.cache == state.inodes.cache
            &&& forall|i: int|
                #![trigger end.entries[i]]
                done <= i < done + listing.entries.len() ==> end.entries[i].ino
                    == state.inodes.next_ino + (i - done)
        }),
    decreases listing.entries.len(),
{
    let done = state.entries.len() as int;
    let end = listing.visited::<ListVisitor<'_>>(state).0;
    lemma_listing_goes_on(listing, state);
    if listing.entries.len() > 0 {
        let (next, _) = <ListVisitor<'_> as DirVisitor>::step(state, listing.entries[0]);
        assert(!state.inodes.cache.contains_key(listing.entries[0].desc.nid));
        assert forall|i: int| 0 <= i < listing.tail().entries.len() implies
            !next.inodes.cache.contains_key((#[trigger] listing.tail().entries[i]).desc.nid) by {
            assert(listing.tail().entries[i] == listing.entries[i + 1]);
        }
        lemma_unknown_are_numbered(listing.tail(), next);
        lemma_listing_goes_on(listing.tail(), next);
        assert(end.entries.take(done + 1)[done] == next.entries[done]);
    }
}

/// Inodes that are not known are listed under fresh numbers, one after the other from the next one
/// on, and these are used up. Listing makes no inode known.
pub proof fn law_unknown_inodes_are_listed_under_fresh_numbers(listing: Listing, inodes: FsState)
    requires
        listing.entries.len() <= u64::MAX,
        inodes.next_ino + listing.entries.len() <= usize::MAX,
        forall|i: int|
            0 <= i < listing.entries.len() ==> !inodes.cache.contains_key(
                (#[trigger] listing.entries[i]).desc.nid,
            ),
    ensures
        ({
            let end = listed(listing, inodes).0;
            &&& end.inodes.next_ino == inodes.next_ino + listing.entries.len()
            &&& end.inodes.cache == inodes.cache
            &&& forall|i: int|
                #![trigger end.entries[i]]
                0 <= i < listing.entries.len() ==> end.entries[i].ino == inodes.next_ino + i
        }),
{
    lemma_unknown_are_numbered(listing, ListState { inodes, entries: Seq::empty(), index: 0 });
}

/// An entry that is listed stands for what its fields say.
pub proof fn law_listed_entry_is_the_entry(e: DirectoryEntry)
    ensures
        listed_entry(e).name == e.name@,
        listed_entry(e).ino == e.ino,
        listed_entry(e).d_type == e.d_type,
        listed_entry(e).next_cookie == e.next_cookie,
{
}

} // verus!

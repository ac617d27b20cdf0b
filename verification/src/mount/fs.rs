//! A mounted image, as the virtual filesystem knows it.

use crate::alloc_helper;
use crate::bytes;
use crate::data::{Backend, Image};
use crate::errnos::{Errno, PosixResult};
use crate::inode::InodeInfo;
use crate::mount::errno;
use crate::mount::errno::{from_erofs_errno, SystemError};
use crate::mount::inode::{ErofsInode, ErofsSysInode};
use crate::mount::source;
use crate::mount::source::{BlockDevBackend, BlockDevSource, BlockDevice};
use crate::mount::vfs;
use crate::mount::vfs::{FsInfo, FsReconfigureRequest, FsStatistics, InodeId, MountFlags};
use crate::superblock::{FileSystem, SuperBlock, EROFS_SUPER_OFFSET};
use crate::Nid;
use std::collections::BTreeMap;
use std::sync::Arc;
use vstd::arithmetic::power2;
use vstd::prelude::*;

verus! {

/// What the superblock of an image starts with.
pub const EROFS_MAGIC_V1: u32 = 0xE0F5_E1E2;

/// How many bytes of the superblock are looked at before mounting.
pub const SUPER_PROBE_LEN: u64 = 128;

/// What a superblock says before it is known whether the image can be mounted.
#[derive(Debug, Clone, Copy, PartialEq, Eq, Structural)]
pub struct ErofsSuperProbe {
    pub magic: u32,
    /// The compression algorithms in use.
    pub compression: i16,
    /// How many devices besides the first one hold the image.
    pub extra_devices: i16,
}

/// The fields of a superblock that mounting depends on.
pub open spec fn probe_fields(sb: Seq<u8>) -> ErofsSuperProbe {
    ErofsSuperProbe {
        magic: bytes::le32(sb, 0),
        compression: bytes::le16(sb, 84) as i16,
        extra_devices: bytes::le16(sb, 86) as i16,
    }
}

/// What looking at the superblock of an image ends in. A superblock that is cut off is corrupt.
pub open spec fn probed(image: Image) -> Result<ErofsSuperProbe, SystemError> {
    match image(0, EROFS_SUPER_OFFSET, SUPER_PROBE_LEN as nat) {
        Err(e) => Err(errno::system_error(e)),
        Ok(sb) => if sb.len() < SUPER_PROBE_LEN {
            Err(SystemError::EUCLEAN)
        } else {
            Ok(probe_fields(sb))
        },
    }
}

/// Looks at the superblock of an image.
pub fn probe_erofs_superblock<B: Backend>(backend: &B) -> (r: Result<ErofsSuperProbe, SystemError>)
    ensures
        r == probed(backend.image()),
{
    let mut sb: [u8; 128] = [0u8;128];
    let n: u64 = match backend.fill(&mut sb, 0, EROFS_SUPER_OFFSET) {
        Ok(n) => n,
        Err(e) => {
            return Err(from_erofs_errno(e));
        },
    };
    if n < SUPER_PROBE_LEN {
        return Err(SystemError::EUCLEAN);
    }
    let ghost b = (backend.image())(0, EROFS_SUPER_OFFSET, 128)->Ok_0;
    assert(sb@ =~= b);
    Ok(
        ErofsSuperProbe {
            magic: bytes::read_le32(&sb, 0),
            compression: #[verifier::truncate] (bytes::read_le16(&sb, 84) as i16),
            extra_devices: #[verifier::truncate] (bytes::read_le16(&sb, 86) as i16),
        },
    )
}

/// Why an image cannot be mounted.
#[derive(Debug, Clone, Copy, PartialEq, Eq, Structural)]
pub enum Refusal {
    /// It is not an EROFS image.
    BadMagic { magic: u32 },
    /// It is compressed.
    Compressed { algorithms: i16 },
    /// It is spread over several devices.
    ExtraDevices { count: i16 },
}

impl Refusal {
    /// The error that a refused mount ends in.
    pub open spec fn spec_error(self) -> SystemError {
        match self {
            Refusal::BadMagic { .. } => SystemError::EUCLEAN,
            Refusal::Compressed { .. } => SystemError::EOPNOTSUPP_OR_ENOTSUP,
            Refusal::ExtraDevices { .. } => SystemError::EUCLEAN,
        }
    }

    /// The error that a refused mount ends in.
    pub fn error(self) -> (r: SystemError)
        ensures
            r == self.spec_error(),
    {
        match self {
            Refusal::BadMagic { .. } => SystemError::EUCLEAN,
            Refusal::Compressed { .. } => SystemError::EOPNOTSUPP_OR_ENOTSUP,
            Refusal::ExtraDevices { .. } => SystemError::EUCLEAN,
        }
    }
}

/// The reason why an image cannot be mounted, if there is one.
pub open spec fn refusal(probe: ErofsSuperProbe) -> Option<Refusal> {
    if probe.magic != EROFS_MAGIC_V1 {
        Some(Refusal::BadMagic { magic: probe.magic })
    } else if probe.compression != 0 {
        Some(Refusal::Compressed { algorithms: probe.compression })
    } else if probe.extra_devices != 0 {
        Some(Refusal::ExtraDevices { count: probe.extra_devices })
    } else {
        None
    }
}

/// Whether an image can be mounted, and the error if not.
pub open spec fn mountable(probe: ErofsSuperProbe) -> Result<(), SystemError> {
    match refusal(probe) {
        Some(reason) => Err(reason.spec_error()),
        None => Ok(()),
    }
}

/// Finds the reason why an image cannot be mounted, if there is one.
pub fn check_super_probe(probe: &ErofsSuperProbe) -> (r: Option<Refusal>)
    ensures
        r == refusal(*probe),
{
    if probe.magic != EROFS_MAGIC_V1 {
        return Some(Refusal::BadMagic { magic: probe.magic });
    }
    if probe.compression != 0 {
        return Some(Refusal::Compressed { algorithms: probe.compression });
    }
    if probe.extra_devices != 0 {
        return Some(Refusal::ExtraDevices { count: probe.extra_devices });
    }
    None
}

/// A reader for the image on a device.
pub trait ImageFileSystem<B: Backend>: FileSystem<ErofsSysInode> + Sized {
    /// The superblock of an image, as far as it can be read.
    open spec fn opened(image: Image) -> PosixResult<SuperBlock> {
        arbitrary()
    }

    /// What stands on disk of an inode.
    open spec fn stored(image: Image, nid: Nid) -> PosixResult<InodeInfo> {
        arbitrary()
    }

    /// Opens the image on a device. That takes memory, and where there is none, that is the
    /// answer.
    fn try_new(backend: B) -> (r: PosixResult<Self>)
        ensures
            match r {
                Ok(fs) => {
                    &&& Self::opened(backend.image()) == Ok::<SuperBlock, Errno>(fs.sb())
                    &&& fs.image() == backend.image()
                    &&& forall|nid: Nid| #[trigger]
                        fs.on_disk(nid) == Self::stored(backend.image(), nid)
                },
                Err(e) => Self::opened(backend.image()) == Err::<SuperBlock, Errno>(e) || e
                    == Errno::ENOMEM && alloc_helper::memory_refused(),
            },
    ;
}

/// What is known of an inode: its number, and the inode itself.
pub struct CacheEntry {
    pub ino: InodeId,
    pub inode: ErofsInode,
}

/// Which inodes are known, and the number that the next one gets.
#[verifier::ext_equal]
pub struct FsState {
    pub cache: Map<Nid, CacheEntry>,
    pub next_ino: usize,
}

impl FsState {
    /// Every inode has a number of its own, below the next one, and is known under its own number.
    pub open spec fn valid(self) -> bool {
        &&& forall|nid: Nid| #[trigger]
            self.cache.contains_key(nid) ==> {
                &&& self.cache[nid].ino.0 < self.next_ino
                &&& self.cache[nid].inode.nid == nid
                &&& self.cache[nid].inode.ino == self.cache[nid].ino
            }
        &&& forall|a: Nid, b: Nid|
            #![trigger self.cache[a], self.cache[b]]
            self.cache.contains_key(a) && self.cache.contains_key(b) && self.cache[a].ino
                == self.cache[b].ino ==> a == b
    }

    /// The number is used up.
    pub open spec fn counted(self) -> FsState {
        FsState { next_ino: self.next_ino.wrapping_add(1), ..self }
    }

    /// Gets hold of an inode: the one that is known, if somebody still holds it, or else a new one
    /// with the next number, made of what stands on disk.
    pub open spec fn got(self, nid: Nid, held: bool, on_disk: PosixResult<InodeInfo>) -> (
        FsState,
        Result<ErofsInode, SystemError>,
    ) {
        if held && self.cache.contains_key(nid) {
            (self, Ok(self.cache[nid].inode))
        } else {
            match on_disk {
                Err(e) => (self, Err(errno::system_error(e))),
                Ok(info) => {
                    let ino = InodeId(self.next_ino);
                    let inode = ErofsInode { info, ino, nid };
                    (
                        FsState {
                            cache: self.cache.insert(nid, CacheEntry { ino, inode }),
                            ..self.counted()
                        },
                        Ok(inode),
                    )
                },
            }
        }
    }

    /// Whether somebody besides the cache holds an inode that is known: the filesystem itself,
    /// which `kept` says, or the holder of one of the `count` handles that there are. One of them
    /// is that of the cache.
    pub open spec fn held(kept: bool, count: usize) -> bool {
        kept || count > 1
    }

    /// Whether asking for an inode is answered by `r` and leads to `after`, where `held` says
    /// whether somebody holds it. Reading an inode takes memory, and where there is none, that is
    /// the answer.
    pub open spec fn gives(
        self,
        nid: Nid,
        held: bool,
        on_disk: PosixResult<InodeInfo>,
        r: Result<ErofsInode, SystemError>,
        after: FsState,
    ) -> bool {
        ||| (after, r) == self.got(nid, held, on_disk)
        ||| {
            &&& !(held && self.cache.contains_key(nid))
            &&& r == Err::<ErofsInode, SystemError>(SystemError::ENOMEM)
            &&& alloc_helper::memory_refused()
            &&& after == self
        }
    }

    /// The number of an inode: the one that it is known under, or else the next one.
    pub open spec fn numbered(self, nid: Nid) -> (FsState, InodeId) {
        if self.cache.contains_key(nid) {
            (self, self.cache[nid].ino)
        } else {
            (self.counted(), InodeId(self.next_ino))
        }
    }

    /// Nothing but the root is known.
    pub open spec fn fresh(root: ErofsInode) -> FsState {
        FsState {
            cache: Map::empty().insert(root.nid, CacheEntry { ino: root.ino, inode: root }),
            next_ino: (root.ino.0 + 1) as usize,
        }
    }
}

/// What is known of an inode.
pub open spec fn cache_entry(v: (InodeId, Arc<ErofsInode>)) -> CacheEntry {
    CacheEntry { ino: v.0, inode: *v.1 }
}

/// The inode behind a handle.
pub open spec fn unshared(r: Result<Arc<ErofsInode>, SystemError>) -> Result<
    ErofsInode,
    SystemError,
> {
    match r {
        Ok(inode) => Ok(*inode),
        Err(e) => Err(e),
    }
}

/// How many handles of an inode there are, the given one included.
///
/// This calls `std::sync::Arc::strong_count`, of which it is claimed that the handle which it is
/// asked about counts. How many others there are is up to who holds them.
#[verifier::external_body]
fn handles(inode: &Arc<ErofsInode>) -> (r: usize)
    ensures
        r >= 1,
{
    Arc::strong_count(inode)
}

/// Whether `count` is how many handles of an inode there were when they were counted, that of the
/// cache included.
#[verifier::opaque]
pub open spec fn handle_count(inode: ErofsInode, count: usize) -> bool {
    count >= 1
}

/// Counts the handles of an inode.
fn count_handles(inode: &Arc<ErofsInode>) -> (r: usize)
    ensures
        r >= 1,
        handle_count(**inode, r),
{
    let count: usize = handles(inode);
    proof {
        reveal(handle_count);
    }
    count
}

/// A mounted image. An inode that is known but that nobody else holds any more is as good as gone:
/// who asks for it gets a new one.
pub struct ErofsFileSystem<FS: FileSystem<ErofsSysInode>> {
    pub inner: FS,
    pub root_inode: Arc<ErofsInode>,
    pub inode_cache: BTreeMap<Nid, (InodeId, Arc<ErofsInode>)>,
    pub next_ino: usize,
}

/// What is known of the inodes in a cache.
pub open spec fn cached(m: Map<Nid, (InodeId, Arc<ErofsInode>)>) -> Map<Nid, CacheEntry> {
    m.map_values(|v: (InodeId, Arc<ErofsInode>)| cache_entry(v))
}

impl<FS: FileSystem<ErofsSysInode>> ErofsFileSystem<FS> {
    /// Which inodes are known.
    pub open spec fn state(&self) -> FsState {
        FsState { cache: cached(self.inode_cache@), next_ino: self.next_ino }
    }

    /// Everything but what is known of the inodes is as in `other`.
    pub open spec fn same_image(&self, other: &Self) -> bool {
        &&& self.inner == other.inner
        &&& self.root_inode == other.root_inode
    }

    /// Whether the filesystem itself holds the inode as long as it is known.
    pub open spec fn keeps(&self, nid: Nid) -> bool {
        nid == self.root_inode.nid
    }

    /// The handle that the cache has of an inode, if the inode is known.
    pub fn known_handle(&self, nid: Nid) -> (r: Option<&Arc<ErofsInode>>)
        ensures
            match r {
                Some(a) => {
                    &&& self.inode_cache@.contains_key(nid)
                    &&& *a == self.inode_cache@[nid].1
                },
                None => !self.inode_cache@.contains_key(nid),
            },
    {
        match self.inode_cache.get(&nid) {
            Some((_, known)) => Some(known),
            None => None,
        }
    }

    /// The inode, if it is known and somebody besides the cache holds it, where `count` is how many
    /// handles of it there are.
    pub fn known_inode(&self, nid: Nid, count: usize) -> (r: Option<Arc<ErofsInode>>)
        ensures
            r is Some <==> self.state().cache.contains_key(nid) && FsState::held(
                self.keeps(nid),
                count,
            ),
            r matches Some(a) ==> *a == self.state().cache[nid].inode,
    {
        match self.known_handle(nid) {
            Some(known) => {
                if nid == self.root_inode.nid || count > 1 {
                    Some(known.clone())
                } else {
                    None
                }
            },
            None => None,
        }
    }

    /// Gets hold of an inode: the one that is known, if one of its `count` handles is held by
    /// somebody besides the cache, or else a new one made of `answer`, which is what reading it
    /// from disk ended in.
    pub fn take_inode(&mut self, nid: Nid, count: usize, answer: PosixResult<InodeInfo>) -> (r:
        Result<Arc<ErofsInode>, SystemError>)
        ensures
            final(self).same_image(old(self)),
            (final(self).state(), unshared(r)) == old(self).state().got(
                nid,
                FsState::held(old(self).keeps(nid), count),
                answer,
            ),
    {
        if let Some(existing) = self.known_inode(nid, count) {
            return Ok(existing);
        }
        let info: InodeInfo = match answer {
            Ok(info) => info,
            Err(e) => {
                return Err(from_erofs_errno(e));
            },
        };
        let ghost held = FsState::held(self.keeps(nid), count);
        let ino = InodeId::new(self.next_ino);
        self.next_ino = self.next_ino.wrapping_add(1);
        let inode = Arc::new(ErofsInode { info, ino, nid });
        let shared = inode.clone();
        self.inode_cache.insert(nid, (ino, shared));
        assert(self.state() =~= old(self).state().got(nid, held, Ok(info)).0);
        Ok(inode)
    }

    /// Gets hold of an inode: the one that is known, if somebody still holds it, or else a new one
    /// made of what stands on disk. How many handles of it there are is up to its holders. Reading
    /// it takes memory, and where there is none, that is the answer.
    pub fn get_or_create_inode(&mut self, nid: Nid) -> (r: Result<Arc<ErofsInode>, SystemError>)
        ensures
            final(self).same_image(old(self)),
            exists|count: usize|
                {
                    &&& old(self).state().gives(
                        nid,
                        #[trigger] FsState::held(old(self).keeps(nid), count),
                        old(self).inner.on_disk(nid),
                        unshared(r),
                        final(self).state(),
                    )
                    &&& old(self).state().cache.contains_key(nid) ==> handle_count(
                        old(self).state().cache[nid].inode,
                        count,
                    )
                },
    {
        let count: usize = match self.known_handle(nid) {
            Some(known) => count_handles(known),
            None => 0,
        };
        if let Some(existing) = self.known_inode(nid, count) {
            return Ok(existing);
        }
        let answer = self.inner.inode_info(nid);
        self.take_inode(nid, count, answer)
    }

    /// The number of an inode: the one that it is known under, or else the next one.
    pub fn nid_to_ino(&mut self, nid: Nid) -> (r: InodeId)
        ensures
            final(self).same_image(old(self)),
            (final(self).state(), r) == old(self).state().numbered(nid),
    {
        if let Some((ino, _)) = self.inode_cache.get(&nid) {
            return *ino;
        }
        let ino = InodeId::new(self.next_ino);
        self.next_ino = self.next_ino.wrapping_add(1);
        ino
    }
}

impl<FS: FileSystem<ErofsSysInode>> ErofsFileSystem<FS> {
    /// The root directory.
    pub fn root_inode(&self) -> (r: Arc<ErofsInode>)
        ensures
            r == self.root_inode,
    {
        self.root_inode.clone()
    }

    /// What the filesystem says of itself.
    pub fn info(&self) -> (r: FsInfo)
        ensures
            r == (FsInfo { blk_dev_id: 0, max_name_len: 255 }),
    {
        FsInfo { blk_dev_id: 0, max_name_len: 255 }
    }

    /// The name of the filesystem.
    pub fn name(&self) -> (r: &'static str)
        ensures
            r@ == "erofs"@,
    {
        "erofs"
    }

    /// The numbers of the filesystem. Nothing of it is free, since it is read-only.
    pub fn super_block(&self) -> (r: FsStatistics)
        requires
            self.inner.sb().blkszbits < 64,
        ensures
            r == (FsStatistics {
                magic: EROFS_MAGIC_V1 as u64,
                bsize: self.inner.sb().spec_blksz() as u64,
                blocks: self.inner.sb().blocks as u64,
                bfree: 0,
                bavail: 0,
                files: self.inner.sb().inos as u64,
                ffree: 0,
                fsid: 0,
                namelen: 255,
                frsize: self.inner.sb().spec_blksz() as u64,
                flags: 0,
            }),
            r.magic == 0xE0F5_E1E2,
            r.bsize == power2::pow2(self.inner.sb().blkszbits as nat),
            r.frsize == r.bsize,
            self.inner.sb().blocks >= 0 ==> r.blocks == self.inner.sb().blocks,
            self.inner.sb().inos >= 0 ==> r.files == self.inner.sb().inos,
    {
        let sb: &SuperBlock = self.inner.superblock();
        FsStatistics {
            magic: EROFS_MAGIC_V1 as u64,
            bsize: sb.blksz(),
            blocks: #[verifier::truncate] (sb.blocks() as u64),
            bfree: 0,
            bavail: 0,
            files: #[verifier::truncate] (sb.inos() as u64),
            ffree: 0,
            fsid: 0,
            namelen: 255,
            frsize: sb.blksz(),
            flags: 0,
        }
    }

    /// Nothing is read ahead.
    pub fn support_readahead(&self) -> (r: bool)
        ensures
            r == false,
    {
        false
    }

    /// There is nothing to write back.
    pub fn sync_fs(&self, _wait: bool) -> (r: Result<(), SystemError>)
        ensures
            r == Ok::<(), SystemError>(()),
    {
        Ok(())
    }

    /// Changes the options of the mount. The filesystem has no options of its own.
    pub fn reconfigure(&self, request: FsReconfigureRequest<'_>) -> (r: Result<
        MountFlags,
        SystemError,
    >)
        ensures
            r == if request.raw_data matches Some(raw) && !vfs::blank(raw@) {
                Err::<MountFlags, SystemError>(SystemError::EINVAL)
            } else {
                Ok(MountFlags(request.sb_flags.0 & request.sb_flags_mask.0))
            },
    {
        if let Some(raw) = request.raw_data {
            if !vfs::is_blank(raw) {
                return Err(SystemError::EINVAL);
            }
        }
        Ok(MountFlags(request.sb_flags.0 & request.sb_flags_mask.0))
    }
}

/// What is to be mounted.
#[derive(Debug)]
pub struct ErofsMountData {
    /// The name of the device.
    pub source: String,
}

/// Notes what is to be mounted.
pub fn make_mount_data(_raw_data: Option<&str>, source: &str) -> (r: Result<
    Option<ErofsMountData>,
    SystemError,
>)
    ensures
        r matches Ok(Some(data)) && data.source@ == source@,
{
    Ok(Some(ErofsMountData { source: source.to_owned() }))
}

/// The device that is to be mounted. `data` is what was noted for the mount; the inner `None` is
/// something that was noted for another filesystem.
pub fn mount_source<'a>(data: Option<Option<&'a ErofsMountData>>) -> (r: Result<
    &'a str,
    SystemError,
>)
    ensures
        match data {
            Some(Some(md)) => r matches Ok(source) && source@ == md.source@,
            _ => r == Err::<&'a str, SystemError>(SystemError::EINVAL),
        },
{
    match data {
        Some(Some(md)) => Ok(md.source.as_str()),
        _ => Err(SystemError::EINVAL),
    }
}

/// What looking for a disk ended in.
pub enum Disk<D> {
    /// There is no disk of that name.
    Missing,
    /// The disk has no block device.
    Detached,
    /// The disk is held by somebody else.
    Busy,
    /// The block device of the disk, which is held for the mount.
    Held(Arc<D>),
}

/// The block device to mount from, or the reason why there is none.
pub open spec fn mount_device<D>(
    data: Option<Option<&ErofsMountData>>,
    disk: Disk<D>,
) -> Result<D, SystemError> {
    if !(data matches Some(Some(_))) {
        Err(SystemError::EINVAL)
    } else {
        match disk {
            Disk::Missing => Err(SystemError::ENODEV),
            Disk::Detached => Err(SystemError::ENODEV),
            Disk::Busy => Err(SystemError::EBUSY),
            Disk::Held(dev) => Ok(*dev),
        }
    }
}

/// What mounting an image ends in: its superblock and its root directory, or the reason why it
/// cannot be mounted.
pub open spec fn mounted<B: Backend, FS: ImageFileSystem<B>>(image: Image) -> Result<
    (SuperBlock, InodeInfo),
    SystemError,
> {
    match probed(image) {
        Err(e) => Err(e),
        Ok(probe) => match mountable(probe) {
            Err(e) => Err(e),
            Ok(()) => match FS::opened(image) {
                Err(e) => Err(errno::system_error(e)),
                Ok(sb) => match FS::stored(image, sb.root_nid as Nid) {
                    Err(e) => Err(errno::system_error(e)),
                    Ok(info) => Ok((sb, info)),
                },
            },
        },
    }
}

/// Whether mounting an image comes to the point where it takes memory: its superblock is there,
/// and says nothing against it.
pub open spec fn mounting_allocates(image: Image) -> bool {
    probed(image) matches Ok(probe) && mountable(probe) is Ok
}

impl<FS: FileSystem<ErofsSysInode>> ErofsFileSystem<FS> {
    /// Whether this is what mounting an image ended in, with the number `root_ino` for the root
    /// directory.
    pub open spec fn is_mount_of<B: Backend>(&self, image: Image, root_ino: InodeId) -> bool where
        FS: ImageFileSystem<B>,
     {
        &&& mounted::<B, FS>(image) == Ok::<(SuperBlock, InodeInfo), SystemError>(
            (self.inner.sb(), self.root_inode.info),
        )
        &&& self.inner.image() == image
        &&& forall|nid: Nid| #[trigger] self.inner.on_disk(nid) == FS::stored(image, nid)
        &&& self.root_inode.ino == root_ino
        &&& self.root_inode.nid == self.inner.sb().root_nid
        &&& self.state() == FsState::fresh(*self.root_inode)
    }

    /// Makes a mounted image of what opening it ended in. The root directory gets the number
    /// `root_ino`, and the other inodes the numbers behind it.
    pub fn with_root(inner: FS, root_info: InodeInfo, root_ino: InodeId) -> (r: Self)
        requires
            root_ino.0 < usize::MAX,
        ensures
            r.inner == inner,
            *r.root_inode == (ErofsInode {
                info: root_info,
                ino: root_ino,
                nid: inner.sb().root_nid as Nid,
            }),
            r.state() == FsState::fresh(*r.root_inode),
    {
        let root_nid: Nid = inner.superblock().root_nid as Nid;
        let root_inode = Arc::new(ErofsInode { info: root_info, ino: root_ino, nid: root_nid });
        let shared = root_inode.clone();
        let mut inode_cache: BTreeMap<Nid, (InodeId, Arc<ErofsInode>)> = BTreeMap::new();
        inode_cache.insert(root_nid, (root_ino, shared));
        let next_ino: usize = root_ino.data() + 1;
        assert(cached(inode_cache@) =~= FsState::fresh(*root_inode).cache);
        ErofsFileSystem { inner, root_inode, inode_cache, next_ino }
    }
}

/// Mounts the image on a device. The root directory gets the number that `root_ino` draws, which is
/// asked for one only once the image is known to be good; the other inodes get the numbers behind
/// it. Where the superblock says that the image cannot be mounted, the reason is left in `refused`.
/// Mounting takes memory, and where there is none, that is the answer.
pub fn mount_image<B: Backend, FS: ImageFileSystem<B>, N: FnOnce() -> InodeId>(
    backend: B,
    root_ino: N,
    refused: &mut Option<Refusal>,
) -> (r: Result<ErofsFileSystem<FS>, SystemError>)
    requires
        root_ino.requires(()),
        forall|ino: InodeId| root_ino.ensures((), ino) ==> ino.0 < usize::MAX,
    ensures
        match r {
            Ok(fs) => exists|ino: InodeId|
                root_ino.ensures((), ino) && #[trigger] fs.is_mount_of::<B>(backend.image(), ino),
            Err(e) => {
                ||| mounted::<B, FS>(backend.image()) == Err::<(SuperBlock, InodeInfo), SystemError>(
                    e,
                )
                ||| e == SystemError::ENOMEM && alloc_helper::memory_refused()
                    && mounting_allocates(backend.image())
            },
        },
        *final(refused) == match probed(backend.image()) {
            Ok(probe) => refusal(probe),
            Err(_) => None,
        },
{
    *refused = None;
    let probe: ErofsSuperProbe = probe_erofs_superblock(&backend)?;
    if let Some(reason) = check_super_probe(&probe) {
        *refused = Some(reason);
        return Err(reason.error());
    }
    let inner: FS = match FS::try_new(backend) {
        Ok(inner) => inner,
        Err(e) => {
            return Err(from_erofs_errno(e));
        },
    };
    let root_nid: Nid = inner.superblock().root_nid as Nid;
    let root_info: InodeInfo = match inner.inode_info(root_nid) {
        Ok(info) => info,
        Err(e) => {
            return Err(from_erofs_errno(e));
        },
    };
    let ino: InodeId = root_ino();
    let fs = ErofsFileSystem::with_root(inner, root_info, ino);
    assert(fs.is_mount_of::<B>(backend.image(), ino));
    Ok(fs)
}

impl<FS: FileSystem<ErofsSysInode>> ErofsFileSystem<FS> {
    /// Mounts the image on a disk, if there is a disk and it can be held. The root directory gets
    /// the number that `root_ino` draws. Where the superblock says that the image cannot be
    /// mounted, the reason is left in `refused`.
    pub fn make_fs_with_flags<D: BlockDevice, N: FnOnce() -> InodeId>(
        data: Option<Option<&ErofsMountData>>,
        _mount_flags: MountFlags,
        disk: Disk<D>,
        root_ino: N,
        refused: &mut Option<Refusal>,
    ) -> (r: Result<Self, SystemError>) where FS: ImageFileSystem<BlockDevBackend<D>>
        requires
            root_ino.requires(()),
            forall|ino: InodeId| root_ino.ensures((), ino) ==> ino.0 < usize::MAX,
        ensures
            match mount_device(data, disk) {
                Err(e) => {
                    &&& r == Err::<ErofsFileSystem<FS>, SystemError>(e)
                    &&& *final(refused) is None
                },
                Ok(dev) => {
                    let image = source::device_image(dev);
                    &&& match r {
                        Ok(fs) => exists|ino: InodeId|
                            root_ino.ensures((), ino) && #[trigger] fs.is_mount_of::<
                                BlockDevBackend<D>,
                            >(image, ino),
                        Err(e) => {
                            ||| mounted::<BlockDevBackend<D>, FS>(image) == Err::<
                                (SuperBlock, InodeInfo),
                                SystemError,
                            >(e)
                            ||| e == SystemError::ENOMEM && alloc_helper::memory_refused()
                                && mounting_allocates(image)
                        },
                    }
                    &&& *final(refused) == match probed(image) {
                        Ok(probe) => refusal(probe),
                        Err(_) => None,
                    }
                },
            },
    {
        *refused = None;
        mount_source(data)?;
        let dev: Arc<D> = match disk {
            Disk::Missing => {
                return Err(SystemError::ENODEV);
            },
            Disk::Detached => {
                return Err(SystemError::ENODEV);
            },
            Disk::Busy => {
                return Err(SystemError::EBUSY);
            },
            Disk::Held(dev) => dev,
        };
        let source = BlockDevSource::new(dev);
        mount_image(BlockDevBackend::new(source), root_ino, refused)
    }
}

/// Right after mounting, only the root has a number.
pub proof fn law_fresh_state_is_valid(root: ErofsInode, on_disk: PosixResult<InodeInfo>)
    requires
        root.ino.0 < usize::MAX,
    ensures
        FsState::fresh(root).valid(),
        FsState::fresh(root).got(root.nid, true, on_disk) == (
            FsState::fresh(root),
            Ok::<ErofsInode, SystemError>(root),
        ),
{
}

/// Only an EROFS image that is not compressed and stands on one device is mounted.
pub proof fn law_only_plain_images_are_mounted<B: Backend, FS: ImageFileSystem<B>>(image: Image)
    ensures
        mounted::<B, FS>(image) is Ok ==> {
            &&& probed(image) matches Ok(probe)
            &&& probe.magic == 0xE0F5_E1E2
            &&& probe.compression == 0
            &&& probe.extra_devices == 0
        },
{
}

/// Every operation keeps the numbers of the inodes apart, as long as there are numbers left.
pub proof fn law_numbers_stay_apart(
    st: FsState,
    nid: Nid,
    held: bool,
    on_disk: PosixResult<InodeInfo>,
)
    requires
        st.valid(),
        st.next_ino < usize::MAX,
    ensures
        st.got(nid, held, on_disk).0.valid(),
        st.numbered(nid).0.valid(),
{
}

/// An inode that somebody holds stays the same, however often one asks for it, and asking for it
/// uses up no number and changes nothing: once asking for `nid` was answered with an inode, and as
/// long as that handle is there besides the one of the cache, asking again is answered with the
/// same, whatever is on disk by then.
pub proof fn law_inode_is_stable(
    st: FsState,
    nid: Nid,
    kept: bool,
    count: usize,
    on_disk: PosixResult<InodeInfo>,
    inode: ErofsInode,
    next: FsState,
    later_count: usize,
    later: PosixResult<InodeInfo>,
    r: Result<ErofsInode, SystemError>,
    after: FsState,
)
    requires
        st.valid(),
        st.gives(nid, FsState::held(kept, count), on_disk, Ok(inode), next),
        later_count >= 2,
        next.gives(nid, FsState::held(kept, later_count), later, r, after),
    ensures
        r == Ok::<ErofsInode, SystemError>(inode),
        after == next,
        inode.nid == nid,
        next.cache.contains_key(nid),
        next.cache[nid] == (CacheEntry { ino: inode.ino, inode }),
        next.numbered(nid) == (next, inode.ino),
{
}

/// Asking for an inode changes nothing if it fails.
pub proof fn law_failing_changes_nothing(
    st: FsState,
    nid: Nid,
    held: bool,
    on_disk: PosixResult<InodeInfo>,
    r: Result<ErofsInode, SystemError>,
    after: FsState,
)
    requires
        st.gives(nid, held, on_disk, r, after),
        r is Err,
    ensures
        after == st,
{
}

/// An inode of which there is no handle but the one of the cache, and which the filesystem does not
/// keep itself, is made anew of what stands on disk, under a number that no inode has had.
pub proof fn law_dropped_inode_is_made_anew(
    st: FsState,
    nid: Nid,
    count: usize,
    info: InodeInfo,
    inode: ErofsInode,
    next: FsState,
    other: Nid,
)
    requires
        st.valid(),
        st.next_ino < usize::MAX,
        count <= 1,
        st.gives(nid, FsState::held(false, count), Ok(info), Ok(inode), next),
    ensures
        inode.info == info,
        inode.nid == nid,
        st.cache.contains_key(other) ==> inode.ino != st.cache[other].ino,
        next.numbered(nid) == (next, inode.ino),
{
}

/// Getting hold of an inode leaves what is known of the others as it is.
pub proof fn law_other_inodes_stay(
    st: FsState,
    nid: Nid,
    held: bool,
    other: Nid,
    on_disk: PosixResult<InodeInfo>,
)
    requires
        other != nid,
        st.cache.contains_key(other),
    ensures
        st.got(nid, held, on_disk).0.cache.contains_key(other),
        st.got(nid, held, on_disk).0.cache[other] == st.cache[other],
        st.numbered(nid).0.cache == st.cache,
{
}

/// What a superblock was written with is what is found in it. It stands at 1024 and starts with the
/// magic number; the compression algorithms stand at 84 in it, and the number of further devices
/// behind them.
pub proof fn law_superblock_is_read_back(
    image: Image,
    magic: u32,
    between: Seq<u8>,
    compression: u16,
    extra_devices: u16,
    rest: Seq<u8>,
)
    requires
        between.len() == 80,
        rest.len() == 40,
        image(0, 1024, 128) == Ok::<Seq<u8>, Errno>(
            bytes::packed32(magic) + between + bytes::packed16(compression) + bytes::packed16(
                extra_devices,
            ) + rest,
        ),
    ensures
        probed(image) == Ok::<ErofsSuperProbe, SystemError>(
            ErofsSuperProbe {
                magic,
                compression: compression as i16,
                extra_devices: extra_devices as i16,
            },
        ),
{
    let none = Seq::<u8>::empty();
    let front = bytes::packed32(magic);
    let back = bytes::packed16(compression) + bytes::packed16(extra_devices) + rest;
    let sb = front + between + bytes::packed16(compression) + bytes::packed16(extra_devices) + rest;
    bytes::law_packed_fields_are_read_back(none, between + back, magic as u64);
    bytes::law_packed_fields_are_read_back(
        front + between,
        bytes::packed16(extra_devices) + rest,
        compression as u64,
    );
    bytes::law_packed_fields_are_read_back(
        front + between + bytes::packed16(compression),
        rest,
        extra_devices as u64,
    );
    assert(sb =~= none + front + (between + back));
    assert(sb =~= (front + between) + bytes::packed16(compression) + (bytes::packed16(extra_devices)
        + rest));
}

/// A superblock that is cut off is corrupt, and a failure to read it is handed on.
pub proof fn law_superblock_that_is_not_there(image: Image)
    ensures
        match image(0, 1024, 128) {
            Err(e) => probed(image) == Err::<ErofsSuperProbe, SystemError>(errno::system_error(e)),
            Ok(sb) => sb.len() < 128 ==> probed(image) == Err::<ErofsSuperProbe, SystemError>(
                SystemError::EUCLEAN,
            ),
        },
{
}

/// An image is mounted only if it starts with the magic number, is not compressed and stands on one
/// device. The first of these that fails is the reason: without the magic number or with further
/// devices the image is corrupt, and compression is not supported.
pub proof fn law_refused_images(probe: ErofsSuperProbe)
    ensures
        mountable(probe) is Ok <==> probe.magic == 0xE0F5_E1E2 && probe.compression == 0
            && probe.extra_devices == 0,
        probe.magic != 0xE0F5_E1E2 ==> {
            &&& mountable(probe) == Err::<(), SystemError>(SystemError::EUCLEAN)
            &&& refusal(probe) == Some(Refusal::BadMagic { magic: probe.magic })
        },
        probe.magic == 0xE0F5_E1E2 && probe.compression != 0 ==> {
            &&& mountable(probe) == Err::<(), SystemError>(SystemError::EOPNOTSUPP_OR_ENOTSUP)
            &&& refusal(probe) == Some(Refusal::Compressed { algorithms: probe.compression })
        },
        probe.magic == 0xE0F5_E1E2 && probe.compression == 0 && probe.extra_devices != 0 ==> {
            &&& mountable(probe) == Err::<(), SystemError>(SystemError::EUCLEAN)
            &&& refusal(probe) == Some(Refusal::ExtraDevices { count: probe.extra_devices })
        },
{
}

/// An image that is not refused is mounted with its superblock and with the inode that the
/// superblock names as the root. What stops the reader stops the mount.
pub proof fn law_good_image_is_mounted<B: Backend, FS: ImageFileSystem<B>>(
    image: Image,
    probe: ErofsSuperProbe,
)
    requires
        probed(image) == Ok::<ErofsSuperProbe, SystemError>(probe),
        probe.magic == 0xE0F5_E1E2,
        probe.compression == 0,
        probe.extra_devices == 0,
    ensures
        match FS::opened(image) {
            Err(e) => mounted::<B, FS>(image) == Err::<(SuperBlock, InodeInfo), SystemError>(
                errno::system_error(e),
            ),
            Ok(sb) => match FS::stored(image, sb.root_nid as Nid) {
                Err(e) => mounted::<B, FS>(image) == Err::<(SuperBlock, InodeInfo), SystemError>(
                    errno::system_error(e),
                ),
                Ok(info) => mounted::<B, FS>(image) == Ok::<(SuperBlock, InodeInfo), SystemError>(
                    (sb, info),
                ),
            },
        },
{
}

/// An inode that is not known gets the next number, is made of what stands on disk, and is known
/// from then on. One that is known and held stays what it is, and what cannot be read is not made.
/// The others stay as they are.
pub proof fn law_inode_is_made_of_what_stands_on_disk(
    st: FsState,
    nid: Nid,
    held: bool,
    on_disk: PosixResult<InodeInfo>,
    other: Nid,
)
    requires
        st.next_ino < usize::MAX,
    ensures
        ({
            let (after, r) = st.got(nid, held, on_disk);
            if held && st.cache.contains_key(nid) {
                r == Ok::<ErofsInode, SystemError>(st.cache[nid].inode) && after == st
            } else {
                match on_disk {
                    Err(e) => {
                        &&& r == Err::<ErofsInode, SystemError>(errno::system_error(e))
                        &&& after == st
                    },
                    Ok(info) => {
                        &&& r matches Ok(inode)
                        &&& inode.info == info
                        &&& inode.nid == nid
                        &&& inode.ino.0 == st.next_ino
                        &&& after.next_ino == st.next_ino + 1
                        &&& after.cache.contains_key(nid)
                        &&& after.cache[nid].inode == inode
                        &&& after.cache[nid].ino == inode.ino
                        &&& other != nid ==> after.cache.contains_key(other)
                            == st.cache.contains_key(other)
                        &&& other != nid && st.cache.contains_key(other) ==> after.cache[other]
                            == st.cache[other]
                    },
                }
            }
        }),
{
}

/// A number is asked for without an inode being made: that of an inode that is known, or else the
/// next one, which is used up.
pub proof fn law_number_of_an_inode(st: FsState, nid: Nid)
    requires
        st.next_ino < usize::MAX,
    ensures
        ({
            let (after, ino) = st.numbered(nid);
            &&& after.cache == st.cache
            &&& if st.cache.contains_key(nid) {
                ino == st.cache[nid].ino && after.next_ino == st.next_ino
            } else {
                ino.0 == st.next_ino && after.next_ino == st.next_ino + 1
            }
        }),
{
}

/// A freshly mounted image knows its root and nothing else, and goes on with the number behind that
/// of the root.
pub proof fn law_fresh_state_knows_the_root_only(root: ErofsInode, nid: Nid)
    requires
        root.ino.0 < usize::MAX,
    ensures
        FsState::fresh(root).cache.contains_key(nid) <==> nid == root.nid,
        FsState::fresh(root).cache[root.nid] == (CacheEntry { ino: root.ino, inode: root }),
        FsState::fresh(root).next_ino == root.ino.0 + 1,
{
}

/// The device of a mount is the one that was found and is held for it. Without a noted source the
/// mount is wrong, a disk that is missing or has no device is no device, and one that somebody else
/// holds is busy.
pub proof fn law_device_of_a_mount<D>(data: &ErofsMountData, disk: Disk<D>)
    ensures
        mount_device(None, disk) == Err::<D, SystemError>(SystemError::EINVAL),
        mount_device(Some(None), disk) == Err::<D, SystemError>(SystemError::EINVAL),
        mount_device(Some(Some(data)), disk) == match disk {
            Disk::Missing => Err::<D, SystemError>(SystemError::ENODEV),
            Disk::Detached => Err::<D, SystemError>(SystemError::ENODEV),
            Disk::Busy => Err::<D, SystemError>(SystemError::EBUSY),
            Disk::Held(dev) => Ok::<D, SystemError>(*dev),
        },
{
}

/// An image that is refused, or whose superblock cannot be read, is refused before anything takes
/// memory.
pub proof fn law_refusing_takes_no_memory(image: Image)
    ensures
        mounting_allocates(image) ==> {
            &&& probed(image) matches Ok(probe)
            &&& probe.magic == 0xE0F5_E1E2
            &&& probe.compression == 0
            &&& probe.extra_devices == 0
        },
{
}

/// What a mount ends in: the reader of the image with its superblock, the root directory as it
/// stands on disk under the number that was drawn for it, and nothing known but the root.
pub proof fn law_mount_of_an_image<B: Backend, FS: ImageFileSystem<B>>(
    fs: &ErofsFileSystem<FS>,
    image: Image,
    ino: InodeId,
    nid: Nid,
)
    requires
        fs.is_mount_of::<B>(image, ino),
        ino.0 < usize::MAX,
    ensures
        FS::opened(image) == Ok::<SuperBlock, Errno>(fs.inner.sb()),
        FS::stored(image, fs.inner.sb().root_nid as Nid) == Ok::<InodeInfo, Errno>(
            fs.root_inode.info,
        ),
        fs.inner.image() == image,
        fs.inner.on_disk(nid) == FS::stored(image, nid),
        fs.root_inode.ino == ino,
        fs.root_inode.nid == fs.inner.sb().root_nid,
        fs.state().cache.contains_key(nid) <==> nid == fs.root_inode.nid,
        fs.next_ino == ino.0 + 1,
        fs.keeps(nid) <==> nid == fs.inner.sb().root_nid,
{
    assert(fs.state().next_ino == FsState::fresh(*fs.root_inode).next_ino);
}

/// What stands for the state of a mounted image is what its cache holds: the number and the inode
/// that are noted under each number on disk.
pub proof fn law_state_is_what_the_cache_holds<FS: FileSystem<ErofsSysInode>>(
    fs: &ErofsFileSystem<FS>,
    other: &ErofsFileSystem<FS>,
    nid: Nid,
)
    ensures
        fs.state().next_ino == fs.next_ino,
        fs.state().cache.contains_key(nid) <==> fs.inode_cache@.contains_key(nid),
        fs.inode_cache@.contains_key(nid) ==> {
            &&& fs.state().cache[nid].ino == fs.inode_cache@[nid].0
            &&& fs.state().cache[nid].inode == *fs.inode_cache@[nid].1
        },
        fs.same_image(other) <==> fs.inner == other.inner && fs.root_inode == other.root_inode,
{
}

} // verus!

//! Reading an image from a block device.
//!
//! A block device reads whole blocks. What lies before and behind the wanted bytes in the first
//! and the last block is dropped.

use crate::bytes;
use crate::data;
use crate::data::{Backend, FileBackend, Image};
use crate::errnos::{Errno, PosixResult};
use crate::mount::errno::SystemError;
use crate::Off;
use std::sync::Arc;
use vstd::prelude::*;

verus! {

/// The size of a block of a block device.
pub const LBA_SIZE: usize = 512;

/// A device that reads whole blocks.
pub trait BlockDevice {
    /// What reading `count` blocks from block `lba` on delivers, or the error that it ends in.
    open spec fn blocks(&self, lba: usize, count: usize) -> Result<Seq<u8>, SystemError> {
        arbitrary()
    }

    /// Reads `count` blocks from block `lba_start` on and returns how many bytes were delivered;
    /// the bytes behind them keep their values.
    fn read_at_sync(&self, lba_start: usize, count: usize, buf: &mut [u8]) -> (r: Result<
        usize,
        SystemError,
    >)
        requires
            old(buf)@.len() == count * LBA_SIZE,
        ensures
            final(buf)@.len() == old(buf)@.len(),
            match self.blocks(lba_start, count) {
                Ok(b) => {
                    &&& b.len() <= old(buf)@.len()
                    &&& r == Ok::<usize, SystemError>(b.len() as usize)
                    &&& final(buf)@ == b + old(buf)@.skip(b.len() as int)
                },
                Err(e) => r == Err::<usize, SystemError>(e),
            },
    ;
}

/// What bytes are read from.
pub trait Source {
    /// What the source answers to a request.
    open spec fn image(&self) -> Image {
        arbitrary()
    }

    /// Fills `data` from `offset` on and returns how many bytes were delivered; the bytes behind
    /// them keep their values.
    fn fill(&self, data: &mut [u8], device_id: i32, offset: Off) -> (r: PosixResult<u64>)
        requires
            old(data)@.len() <= isize::MAX,
        ensures
            r == data::delivered((self.image())(device_id, offset, old(data)@.len())),
            final(data)@ == data::overlaid(
                old(data)@,
                (self.image())(device_id, offset, old(data)@.len()),
            ),
            (self.image())(device_id, offset, old(data)@.len()) matches Ok(b) ==> b.len() <= old(
                data,
            )@.len(),
    ;
}

/// How many blocks the `len` bytes from the place `off` of a block on touch.
pub open spec fn blocks_touched(off: int, len: int) -> int {
    (off + len + LBA_SIZE - 1) / LBA_SIZE as int
}

/// The `len` bytes from `offset` on, as far as the blocks that they touch are delivered. Whatever
/// goes wrong with the device is an I/O error.
pub open spec fn block_range<D: BlockDevice>(dev: &D, offset: usize, len: nat) -> PosixResult<
    Seq<u8>,
> {
    let off = offset as int % LBA_SIZE as int;
    match dev.blocks(
        (offset as int / LBA_SIZE as int) as usize,
        blocks_touched(off, len as int) as usize,
    ) {
        Err(_) => Err(Errno::EIO),
        Ok(b) => {
            let available = bytes::greatest(b.len() - off, 0);
            Ok(b.skip(off).take(bytes::least(len as int, available)))
        },
    }
}

/// What a block device answers to a request. The number of the device is of no account.
pub open spec fn device_image<D: BlockDevice>(dev: D) -> Image {
    |device_id: i32, offset: Off, len: nat| block_range(&dev, offset as usize, len)
}

/// Reading from a device of whole blocks delivers the bytes that were asked for, wherever they
/// start and end.
pub proof fn law_block_range_is_exact<D: BlockDevice>(
    dev: &D,
    device: Seq<u8>,
    offset: usize,
    len: nat,
)
    requires
        device.len() % 512 == 0,
        device.len() <= usize::MAX,
        offset + len <= device.len(),
        forall|lba: usize, count: usize|
            (lba + count) * 512 <= device.len() ==> #[trigger] dev.blocks(lba, count) == Ok::<
                Seq<u8>,
                SystemError,
            >(device.subrange(lba * 512, (lba + count) * 512)),
    ensures
        block_range(dev, offset, len) == Ok::<Seq<u8>, Errno>(
            device.subrange(offset as int, offset + len),
        ),
{
    let off = offset as int % LBA_SIZE as int;
    let lba = (offset as int / LBA_SIZE as int) as usize;
    let count = blocks_touched(off, len as int) as usize;
    let b = device.subrange(lba * LBA_SIZE, (lba + count) * LBA_SIZE);
    assert(dev.blocks(lba, count) == Ok::<Seq<u8>, SystemError>(b));
    assert(b.skip(off).take(len as int) =~= device.subrange(offset as int, offset + len));
}

/// A block device as a source of bytes.
pub struct BlockDevSource<D: BlockDevice> {
    dev: Arc<D>,
}

impl<D: BlockDevice> BlockDevSource<D> {
    /// The device.
    pub closed spec fn device(&self) -> D {
        *self.dev
    }

    /// A source that reads from `dev`.
    pub fn new(dev: Arc<D>) -> (r: Self)
        ensures
            r.device() == *dev,
    {
        BlockDevSource { dev }
    }
}

impl<D: BlockDevice> Source for BlockDevSource<D> {
    open spec fn image(&self) -> Image {
        device_image(self.device())
    }

    fn fill(&self, data: &mut [u8], device_id: i32, offset: Off) -> (r: PosixResult<u64>) {
        let ghost before = data@;
        let at: usize = #[verifier::truncate] (offset as usize);
        let blk: usize = at / LBA_SIZE;
        let off_in_blk: usize = at % LBA_SIZE;
        let want: usize = data.len();
        let blk_count: usize = (off_in_blk + want + (LBA_SIZE - 1)) / LBA_SIZE;
        let buf_len: usize = blk_count * LBA_SIZE;
        let mut raw_buf: Vec<u8> = vec![0u8; buf_len];
        let read_bytes: usize = match self.dev.read_at_sync(
            blk,
            blk_count,
            raw_buf.as_mut_slice(),
        ) {
            Ok(n) => n,
            Err(_) => {
                return Err(Errno::EIO);
            },
        };
        let available: usize = if read_bytes < off_in_blk {
            0
        } else {
            read_bytes - off_in_blk
        };
        let copy_len: usize = if want < available {
            want
        } else {
            available
        };
        let ghost b = self.dev.blocks(blk, blk_count)->Ok_0;
        let ghost got = b.skip(off_in_blk as int).take(copy_len as int);
        let mut i: usize = 0;
        while i < copy_len
            invariant
                i <= copy_len <= want,
                copy_len > 0 ==> off_in_blk + copy_len <= b.len(),
                b.len() <= raw_buf.len(),
                forall|k: int| 0 <= k < b.len() ==> raw_buf@[k] == b[k],
                data@.len() == before.len() == want,
                forall|k: int| 0 <= k < i ==> data@[k] == b[off_in_blk + k],
                forall|k: int| i <= k < want ==> data@[k] == before[k],
            decreases copy_len - i,
        {
            data[i] = raw_buf[off_in_blk + i];
            i = i + 1;
        }
        assert(data@ =~= got + before.skip(got.len() as int));
        Ok(copy_len as u64)
    }
}

/// A source that holds an image as it is.
pub struct UncompressedBackend<S: Source> {
    source: S,
}

impl<S: Source> UncompressedBackend<S> {
    /// A device that reads from `source`.
    pub fn new(source: S) -> (r: Self)
        ensures
            r.image() == source.image(),
    {
        UncompressedBackend { source }
    }
}

impl<S: Source> Backend for UncompressedBackend<S> {
    closed spec fn image(&self) -> Image {
        self.source.image()
    }

    fn fill(&self, data: &mut [u8], device_id: i32, offset: Off) -> (r: PosixResult<u64>) {
        self.source.fill(data, device_id, offset)
    }
}

/// A block device that holds an image.
pub struct BlockDevBackend<D: BlockDevice>(UncompressedBackend<BlockDevSource<D>>);

impl<D: BlockDevice> BlockDevBackend<D> {
    /// The image that `source` holds.
    pub fn new(source: BlockDevSource<D>) -> (r: Self)
        ensures
            r.image() == source.image(),
    {
        BlockDevBackend(UncompressedBackend::new(source))
    }
}

impl<D: BlockDevice> Backend for BlockDevBackend<D> {
    closed spec fn image(&self) -> Image {
        self.0.image()
    }

    fn fill(&self, data: &mut [u8], device_id: i32, offset: Off) -> (r: PosixResult<u64>) {
        self.0.fill(data, device_id, offset)
    }
}

impl<D: BlockDevice> FileBackend for BlockDevBackend<D> {

}

/// A device that ends early delivers what there is: the bytes that were asked for up to its end,
/// and none behind it. Whatever goes wrong with the device is an I/O error.
pub proof fn law_device_that_ends_early_delivers_its_end<D: BlockDevice>(
    dev: &D,
    device: Seq<u8>,
    offset: usize,
    len: nat,
)
    requires
        device.len() <= usize::MAX,
        offset + len + 1024 <= usize::MAX,
        forall|lba: usize, count: usize|
            (lba + count) * 512 <= usize::MAX ==> #[trigger] dev.blocks(lba, count) == Ok::<
                Seq<u8>,
                SystemError,
            >(
                if (lba + count) * 512 <= device.len() {
                    device.subrange(lba * 512, (lba + count) * 512)
                } else if lba * 512 <= device.len() {
                    device.skip(lba * 512)
                } else {
                    Seq::empty()
                },
            ),
    ensures
        block_range(dev, offset, len) == Ok::<Seq<u8>, Errno>(
            if offset + len <= device.len() {
                device.subrange(offset as int, offset + len)
            } else if offset <= device.len() {
                device.skip(offset as int)
            } else {
                Seq::empty()
            },
        ),
{
    let off = offset as int % 512;
    let lba = (offset as int / 512) as usize;
    let count = blocks_touched(off, len as int) as usize;
    assert((lba + count) * 512 <= offset + len + 1024);
    let b = if (lba + count) * 512 <= device.len() {
        device.subrange(lba * 512, (lba + count) * 512)
    } else if lba * 512 <= device.len() {
        device.skip(lba * 512)
    } else {
        Seq::empty()
    };
    assert(dev.blocks(lba, count) == Ok::<Seq<u8>, SystemError>(b));
    let got = block_range(dev, offset, len)->Ok_0;
    if offset + len <= device.len() {
        assert(got =~= device.subrange(offset as int, offset + len));
    } else if offset <= device.len() {
        assert(got =~= device.skip(offset as int));
    } else {
        assert(got =~= Seq::<u8>::empty());
    }
}

/// A request goes to the place that it asks for, whichever device it names, and a failure of the
/// device is an I/O error.
pub proof fn law_request_goes_to_its_place<D: BlockDevice>(
    dev: D,
    device_id: i32,
    offset: Off,
    len: nat,
)
    requires
        offset <= usize::MAX,
        len <= usize::MAX,
    ensures
        device_image(dev)(device_id, offset, len) == block_range(&dev, offset as usize, len),
        (forall|lba: usize, count: usize| (#[trigger] dev.blocks(lba, count)) is Err)
            ==> device_image(dev)(device_id, offset, len) == Err::<Seq<u8>, Errno>(Errno::EIO),
{
}

} // verus!

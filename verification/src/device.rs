//! Devices, and transfers within one block of a device.

use vstd::prelude::*;

use crate::codec::splice;
use crate::structs::{BlockId, BLKSIZE};
use crate::vfs::FsError;

verus! {

/// A device that bytes are read from and written to.
pub trait Device {
    /// What the device holds.
    open spec fn contents(&self) -> Seq<u8> {
        arbitrary()
    }

    /// Whether the device serves every transfer within its bounds in full.
    open spec fn reliable(&self) -> bool {
        arbitrary()
    }

    /// Reads bytes from `offset` on into `buf`. Returns how many were read, or `None` on failure.
    fn read_at(&self, offset: usize, buf: &mut [u8]) -> (n: Option<usize>)
        ensures
            final(buf)@.len() == old(buf)@.len(),
            n matches Some(k) ==> {
                &&& k <= old(buf)@.len()
                &&& k == 0 || offset + k <= self.contents().len()
                &&& forall|i: int|
                    0 <= i < k ==> #[trigger] final(buf)@[i] == self.contents()[offset + i]
            },
            self.reliable() && offset + old(buf)@.len() <= self.contents().len() ==> n == Some(
                old(buf)@.len() as usize,
            ),
    ;

    /// Writes the bytes of `buf` from `offset` on. Returns how many were written, or `None` on
    /// failure.
    fn write_at(&mut self, offset: usize, buf: &[u8]) -> (n: Option<usize>)
        ensures
            final(self).reliable() == old(self).reliable(),
            final(self).contents().len() == old(self).contents().len(),
            n matches Some(k) ==> {
                &&& k <= buf@.len()
                &&& k == 0 || offset + k <= old(self).contents().len()
                &&& final(self).contents() == splice(
                    old(self).contents(),
                    offset as int,
                    buf@.take(k as int),
                )
            },
            old(self).reliable() && offset + buf@.len() <= old(self).contents().len() ==> n == Some(
                buf@.len() as usize,
            ),
    ;
}

/// Reads the bytes of block `id` from `offset` on.
pub fn read_block<D: Device>(device: &D, id: BlockId, offset: usize, buf: &mut [u8]) -> (r: Result<
    (),
    FsError,
>)
    requires
        offset + old(buf)@.len() <= BLKSIZE,
        id * 4096 + 4096 <= usize::MAX,
    ensures
        final(buf)@.len() == old(buf)@.len(),
        match r {
            Ok(_) => {
                &&& old(buf)@.len() == 0 || id * 4096 + offset + old(buf)@.len()
                    <= device.contents().len()
                &&& forall|i: int|
                    0 <= i < old(buf)@.len() ==> #[trigger] final(buf)@[i]
                        == device.contents()[id * 4096 + offset + i]
            },
            Err(e) => e == FsError::DeviceError && !(device.reliable() && id * 4096 + offset + old(
                buf,
            )@.len() <= device.contents().len()),
        },
{
    let len = buf.len();
    match device.read_at(id * BLKSIZE + offset, buf) {
        Some(n) => if n == len {
            Ok(())
        } else {
            Err(FsError::DeviceError)
        },
        None => Err(FsError::DeviceError),
    }
}

/// Writes `buf` into block `id` from `offset` on.
pub fn write_block<D: Device>(device: &mut D, id: BlockId, offset: usize, buf: &[u8]) -> (r: Result<
    (),
    FsError,
>)
    requires
        offset + buf@.len() <= BLKSIZE,
        id * 4096 + 4096 <= usize::MAX,
    ensures
        final(device).reliable() == old(device).reliable(),
        final(device).contents().len() == old(device).contents().len(),
        match r {
            Ok(_) => {
                &&& buf@.len() == 0 || id * 4096 + offset + buf@.len()
                    <= old(device).contents().len()
                &&& final(device).contents() == splice(
                    old(device).contents(),
                    id * 4096 + offset,
                    buf@,
                )
            },
            Err(e) => e == FsError::DeviceError && !(old(device).reliable() && id * 4096 + offset
                + buf@.len() <= old(device).contents().len()),
        },
{
    match device.write_at(id * BLKSIZE + offset, buf) {
        Some(n) => if n == buf.len() {
            assert(buf@.take(n as int) =~= buf@);
            Ok(())
        } else {
            Err(FsError::DeviceError)
        },
        None => Err(FsError::DeviceError),
    }
}

/// A device of fixed size in memory.
pub struct MemDevice {
    data: Vec<u8>,
}

impl MemDevice {
    /// A device that holds the given bytes.
    pub fn new(data: Vec<u8>) -> (r: MemDevice)
        ensures
            r.contents() == data@,
            r.reliable(),
    {
        MemDevice { data }
    }

    /// What the device holds.
    pub fn bytes(&self) -> (r: &Vec<u8>)
        ensures
            r@ == self.contents(),
    {
        &self.data
    }
}

impl Device for MemDevice {
    closed spec fn contents(&self) -> Seq<u8> {
        self.data@
    }

    closed spec fn reliable(&self) -> bool {
        true
    }

    fn read_at(&self, offset: usize, buf: &mut [u8]) -> (n: Option<usize>) {
        let len = buf.len();
        if offset > self.data.len() || len > self.data.len() - offset {
            return None;
        }
        let mut i: usize = 0;
        while i < len
            invariant
                i <= len,
                len == buf@.len(),
                len == old(buf)@.len(),
                offset + len <= self.data.len(),
                forall|j: int| 0 <= j < i ==> #[trigger] buf@[j] == self.data@[offset + j],
            decreases len - i,
        {
            buf[i] = self.data[offset + i];
            i = i + 1;
        }
        Some(len)
    }

    fn write_at(&mut self, offset: usize, buf: &[u8]) -> (n: Option<usize>) {
        let len = buf.len();
        if offset > self.data.len() || len > self.data.len() - offset {
            return None;
        }
        let ghost before = self.data@;
        let mut i: usize = 0;
        while i < len
            invariant
                i <= len,
                len == buf@.len(),
                offset + len <= self.data.len(),
                self.data@ == splice(before, offset as int, buf@.take(i as int)),
            decreases len - i,
        {
            self.data[offset + i] = buf[i];
            i = i + 1;
            assert(self.data@ =~= splice(before, offset as int, buf@.take(i as int)));
        }
        assert(buf@.take(len as int) =~= buf@);
        Some(len)
    }
}

/// What is written into a block is read back from there, and no other byte of the device changes.
pub proof fn law_block_transfer<D: Device>(
    device: &mut D,
    id: BlockId,
    offset: usize,
    bytes: &[u8],
    id2: BlockId,
    offset2: usize,
    buf: &mut [u8],
    i: int,
    p: int,
)
    requires
        call_ensures(write_block::<D>, (device, id, offset, bytes), Ok::<(), FsError>(())),
        call_ensures(read_block::<D>, (&*final(device), id2, offset2, buf), Ok::<(), FsError>(())),
        offset + bytes@.len() <= 4096,
        offset2 + buf@.len() <= 4096,
    ensures
        final(device).contents().len() == old(device).contents().len(),
        0 <= p < old(device).contents().len() && !(id * 4096 + offset <= p < id * 4096 + offset
            + bytes@.len()) ==> final(device).contents()[p] == old(device).contents()[p],
        0 <= i < old(buf)@.len() ==> final(buf)@[i] == final(device).contents()[id2 * 4096 + offset2
            + i],
        0 <= i < old(buf)@.len() && id2 == id && offset <= offset2 + i < offset + bytes@.len()
            ==> final(buf)@[i] == bytes@[offset2 + i - offset],
{
    assert(0 <= i < old(buf)@.len() ==> final(buf)@[i] == final(device).contents()[id2 * 4096
        + offset2 + i]);
}

/// A device in memory shows the bytes that it was given.
pub proof fn law_mem_bytes(data: Vec<u8>, d: MemDevice, b: &Vec<u8>)
    requires
        call_ensures(MemDevice::new, (data,), d),
        call_ensures(MemDevice::bytes, (&d,), b),
    ensures
        b@ == data@,
        d.contents() == data@,
        d.reliable(),
{
}

} // verus!

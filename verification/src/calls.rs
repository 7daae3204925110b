//! What calls on files have to do with each other.

use vstd::prelude::*;

use crate::device::Device;
use crate::freemap::{
    after, count, is_lowest, lemma_after_count, lemma_after_sum, lemma_count_len,
    lemma_count_lowest, lowest, taken,
};
use crate::fs::{INodeImpl, SimpleFileSystem};
use crate::inode::{blocks_for, dropped, index_need};
use crate::laws::{law_blocks, law_read_back, law_resize, law_unused};
use crate::model::{handles, lemma_bounds, lemma_held};
use crate::structs::{BlockId, DiskINode, FileType, MAX_BLOCKS};
use crate::tree::lemma_tree_node;
use crate::vfs::{self, FsError, FsInfo, Metadata, Timespec};

verus! {

/// What is told of a file that is in order.
pub proof fn lemma_told<D: Device>(h: INodeImpl, fs: &SimpleFileSystem<D>, m: Metadata)
    requires
        fs.wf(),
        fs.holds(h.id() as int),
        call_ensures(INodeImpl::metadata::<D>, (&h, fs), Ok::<Metadata, FsError>(m)),
    ensures
        fs.tree().contains_key(h.id() as int),
        ({
            let f = fs.tree()[h.id() as int];
            &&& m.blocks == f.map.len()
            &&& m.nlinks == f.nlinks
            &&& f.kind != FileType::Dir ==> m.size == f.size
            &&& f.kind == FileType::Dir ==> m.size == f.map.len()
        }),
{
    lemma_held(fs.raw(), h.id() as int);
    lemma_tree_node(fs.tree(), h.id() as int);
}

/// A read gives as many bytes as there are between its offset and the end of the file, but no more
/// than it asks for. The rest of the buffer is left alone.
pub proof fn law_read_length<D: Device>(
    h: INodeImpl,
    fs: &SimpleFileSystem<D>,
    offset: usize,
    buf: &mut [u8],
    n: usize,
    m: Metadata,
)
    requires
        fs.wf(),
        fs.holds(h.id() as int),
        call_ensures(INodeImpl::read_at::<D>, (&h, fs, offset, buf), Ok::<usize, FsError>(n)),
        call_ensures(INodeImpl::metadata::<D>, (&h, fs), Ok::<Metadata, FsError>(m)),
    ensures
        final(buf)@.len() == old(buf)@.len(),
        n <= old(buf)@.len(),
        offset < m.size ==> offset + n <= m.size,
        offset < m.size ==> offset + n == m.size || n == old(buf)@.len(),
        offset >= m.size ==> n == 0,
        forall|i: int| n <= i < old(buf)@.len() ==> #[trigger] final(buf)@[i] == old(buf)@[i],
{
    lemma_told(h, fs, m);
}

/// Two reads of one file give the same byte wherever they meet.
pub proof fn law_reads_agree<D: Device>(
    h: INodeImpl,
    g: INodeImpl,
    fs: &SimpleFileSystem<D>,
    offset: usize,
    buf: &mut [u8],
    n: usize,
    offset2: usize,
    buf2: &mut [u8],
    n2: usize,
)
    requires
        g.id() == h.id(),
        call_ensures(INodeImpl::read_at::<D>, (&h, fs, offset, buf), Ok::<usize, FsError>(n)),
        call_ensures(INodeImpl::read_at::<D>, (&g, fs, offset2, buf2), Ok::<usize, FsError>(n2)),
    ensures
        forall|i: int, j: int|
            0 <= i < n && 0 <= j < n2 && offset + i == offset2 + j ==> #[trigger] final(buf)@[i]
                == #[trigger] final(buf2)@[j],
{
    let f = fs.tree()[h.id() as int];
    assert forall|i: int, j: int|
        0 <= i < n && 0 <= j < n2 && offset + i == offset2 + j implies #[trigger] final(buf)@[i]
        == #[trigger] final(buf2)@[j] by {
        assert(final(buf)@[i] == f.data[offset + i]);
        assert(final(buf2)@[j] == f.data[offset2 + j]);
    }
}

/// What has been written is read back, whatever part of it a read asks for.
pub proof fn law_write_read<D: Device>(
    h: INodeImpl,
    fs: &mut SimpleFileSystem<D>,
    offset: usize,
    bytes: &[u8],
    n: usize,
    offset2: usize,
    buf: &mut [u8],
    n2: usize,
)
    requires
        fs.wf(),
        fs.holds(h.id() as int),
        call_ensures(INodeImpl::write_at::<D>, (&h, fs, offset, bytes), Ok::<usize, FsError>(n)),
        call_ensures(
            INodeImpl::read_at::<D>,
            (&h, &*final(fs), offset2, buf),
            Ok::<usize, FsError>(n2),
        ),
    ensures
        n == bytes@.len(),
        forall|i: int|
            0 <= i < n2 && offset <= offset2 + i < offset + n ==> #[trigger] final(buf)@[i]
                == bytes@[offset2 + i - offset],
        offset2 == offset && old(buf)@.len() <= n ==> n2 == old(buf)@.len(),
{
    let id = h.id() as int;
    let r = fs.raw();
    lemma_held(r, id);
    lemma_tree_node(fs.tree(), id);
    lemma_tree_node(final(fs).tree(), id);
    assert(blocks_for(offset + bytes@.len()) <= MAX_BLOCKS);
    law_read_back(r, id, offset as int, bytes@);
}

/// A write changes no byte outside of what it writes.
pub proof fn law_write_rest<D: Device>(
    h: INodeImpl,
    fs: &mut SimpleFileSystem<D>,
    offset: usize,
    bytes: &[u8],
    n: usize,
    offset1: usize,
    buf1: &mut [u8],
    n1: usize,
    offset2: usize,
    buf2: &mut [u8],
    n2: usize,
)
    requires
        fs.wf(),
        fs.holds(h.id() as int),
        call_ensures(
            INodeImpl::read_at::<D>,
            (&h, &*fs, offset1, buf1),
            Ok::<usize, FsError>(n1),
        ),
        call_ensures(INodeImpl::write_at::<D>, (&h, fs, offset, bytes), Ok::<usize, FsError>(n)),
        call_ensures(
            INodeImpl::read_at::<D>,
            (&h, &*final(fs), offset2, buf2),
            Ok::<usize, FsError>(n2),
        ),
    ensures
        forall|i: int, j: int|
            0 <= i < n1 && 0 <= j < n2 && offset1 + i == offset2 + j && !(offset <= offset1 + i
                < offset + n) ==> #[trigger] final(buf2)@[j] == #[trigger] final(buf1)@[i],
{
    let id = h.id() as int;
    let r = fs.raw();
    let f = fs.tree()[id];
    let g = final(fs).tree()[id];
    lemma_held(r, id);
    lemma_tree_node(fs.tree(), id);
    lemma_tree_node(final(fs).tree(), id);
    assert(blocks_for(offset + bytes@.len()) <= MAX_BLOCKS);
    law_read_back(r, id, offset as int, bytes@);
    assert forall|i: int, j: int|
        0 <= i < n1 && 0 <= j < n2 && offset1 + i == offset2 + j && !(offset <= offset1 + i < offset
            + n) implies #[trigger] final(buf2)@[j] == #[trigger] final(buf1)@[i] by {
        assert(final(buf1)@[i] == f.data[offset1 + i]);
        assert(final(buf2)@[j] == g.data[offset2 + j]);
    }
}

/// A write makes the file as long as it has to be and no longer, and where that takes more blocks,
/// what lies between the old end and what is written is zero.
pub proof fn law_write_grows<D: Device>(
    h: INodeImpl,
    fs: &mut SimpleFileSystem<D>,
    offset: usize,
    bytes: &[u8],
    n: usize,
    m: Metadata,
    m2: Metadata,
    offset2: usize,
    buf: &mut [u8],
    n2: usize,
)
    requires
        fs.wf(),
        fs.holds(h.id() as int),
        call_ensures(INodeImpl::metadata::<D>, (&h, &*fs), Ok::<Metadata, FsError>(m)),
        call_ensures(INodeImpl::write_at::<D>, (&h, fs, offset, bytes), Ok::<usize, FsError>(n)),
        call_ensures(INodeImpl::metadata::<D>, (&h, &*final(fs)), Ok::<Metadata, FsError>(m2)),
        call_ensures(
            INodeImpl::read_at::<D>,
            (&h, &*final(fs), offset2, buf),
            Ok::<usize, FsError>(n2),
        ),
    ensures
        m2.size >= m.size,
        m2.size >= offset + bytes@.len(),
        m2.size == m.size || m2.size == offset + bytes@.len(),
        m2.size <= m2.blocks * 4096 < m2.size + 4096,
        m2 == (Metadata { size: m2.size, blocks: m2.blocks, ..m }),
        m2.blocks > m.blocks ==> forall|i: int|
            0 <= i < n2 && m.size <= offset2 + i < offset ==> #[trigger] final(buf)@[i] == 0,
        final(fs).handles() == old(fs).handles(),
{
    let id = h.id() as int;
    let r = fs.raw();
    let end = offset + bytes@.len();
    lemma_told(h, &*fs, m);
    lemma_held(r, id);
    lemma_tree_node(fs.tree(), id);
    lemma_tree_node(final(fs).tree(), id);
    assert(blocks_for(end) <= MAX_BLOCKS);
    law_read_back(r, id, offset as int, bytes@);
    if fs.tree()[id].size < end {
        law_resize(r, id, end);
    }
    assert(handles(final(fs).raw()).contains_key(id));
    lemma_told(h, &*final(fs), m2);
    lemma_tree_node(final(fs).tree(), id);
}

/// Setting the size of a file sets it: that is what is told of the file from then on. It takes as few
/// blocks as hold it.
pub proof fn law_resize_size<D: Device>(
    h: INodeImpl,
    fs: &mut SimpleFileSystem<D>,
    len: usize,
    m: Metadata,
    m2: Metadata,
)
    requires
        fs.wf(),
        fs.holds(h.id() as int),
        call_ensures(INodeImpl::metadata::<D>, (&h, &*fs), Ok::<Metadata, FsError>(m)),
        call_ensures(INodeImpl::resize::<D>, (&h, fs, len), Ok::<(), FsError>(())),
        call_ensures(INodeImpl::metadata::<D>, (&h, &*final(fs)), Ok::<Metadata, FsError>(m2)),
    ensures
        m2.size == len,
        len <= m2.blocks * 4096 < len + 4096,
        m2 == (Metadata { size: m2.size, blocks: m2.blocks, ..m }),
        final(fs).handles() == old(fs).handles(),
{
    let id = h.id() as int;
    lemma_told(h, &*fs, m);
    assert(handles(final(fs).raw()).contains_key(id));
    lemma_told(h, &*final(fs), m2);
    lemma_tree_node(fs.tree(), id);
    lemma_tree_node(final(fs).tree(), id);
}

/// Setting the size of a file changes no byte that it has before and after; where it takes more
/// blocks, what it gains is zero.
pub proof fn law_resize_bytes<D: Device>(
    h: INodeImpl,
    fs: &mut SimpleFileSystem<D>,
    len: usize,
    offset1: usize,
    buf1: &mut [u8],
    n1: usize,
    offset2: usize,
    buf2: &mut [u8],
    n2: usize,
    m: Metadata,
)
    requires
        fs.wf(),
        fs.holds(h.id() as int),
        call_ensures(INodeImpl::metadata::<D>, (&h, &*fs), Ok::<Metadata, FsError>(m)),
        call_ensures(
            INodeImpl::read_at::<D>,
            (&h, &*fs, offset1, buf1),
            Ok::<usize, FsError>(n1),
        ),
        call_ensures(INodeImpl::resize::<D>, (&h, fs, len), Ok::<(), FsError>(())),
        call_ensures(
            INodeImpl::read_at::<D>,
            (&h, &*final(fs), offset2, buf2),
            Ok::<usize, FsError>(n2),
        ),
    ensures
        forall|i: int, j: int|
            0 <= i < n1 && 0 <= j < n2 && offset1 + i == offset2 + j ==> #[trigger] final(buf2)@[j]
                == #[trigger] final(buf1)@[i],
        len > m.blocks * 4096 ==> forall|j: int|
            0 <= j < n2 && m.size <= offset2 + j ==> #[trigger] final(buf2)@[j] == 0,
{
    let id = h.id() as int;
    let r = fs.raw();
    let f = fs.tree()[id];
    let g = final(fs).tree()[id];
    lemma_told(h, &*fs, m);
    lemma_held(r, id);
    lemma_tree_node(fs.tree(), id);
    lemma_tree_node(final(fs).tree(), id);
    law_resize(r, id, len as int);
    assert forall|i: int, j: int|
        0 <= i < n1 && 0 <= j < n2 && offset1 + i == offset2 + j implies #[trigger] final(buf2)@[j]
        == #[trigger] final(buf1)@[i] by {
        assert(final(buf1)@[i] == f.data[offset1 + i]);
        assert(final(buf2)@[j] == g.data[offset2 + j]);
    }
    assert forall|j: int|
        0 <= j < n2 && m.size <= offset2 + j && len > m.blocks * 4096 implies 0
        == #[trigger] final(buf2)@[j] by {
        assert(final(buf2)@[j] == g.data[offset2 + j]);
    }
}

/// A write concerns no other file.
pub proof fn law_write_others<D: Device>(
    h: INodeImpl,
    fs: &mut SimpleFileSystem<D>,
    offset: usize,
    bytes: &[u8],
    n: usize,
    g: INodeImpl,
    m: Metadata,
    m2: Metadata,
    offset1: usize,
    buf1: &mut [u8],
    r1: Result<usize, FsError>,
    buf2: &mut [u8],
    r2: Result<usize, FsError>,
)
    requires
        fs.wf(),
        fs.reliable(),
        fs.holds(h.id() as int),
        fs.holds(g.id() as int),
        g.id() != h.id(),
        call_ensures(INodeImpl::write_at::<D>, (&h, fs, offset, bytes), Ok::<usize, FsError>(n)),
        call_ensures(INodeImpl::metadata::<D>, (&g, &*fs), Ok::<Metadata, FsError>(m)),
        call_ensures(INodeImpl::metadata::<D>, (&g, &*final(fs)), Ok::<Metadata, FsError>(m2)),
        buf1@ == buf2@,
        call_ensures(INodeImpl::read_at::<D>, (&g, &*fs, offset1, buf1), r1),
        call_ensures(INodeImpl::read_at::<D>, (&g, &*final(fs), offset1, buf2), r2),
    ensures
        m2 == m,
        r1 is Ok <==> r2 is Ok,
        r1 is Ok ==> r2 == r1,
        final(buf2)@ == final(buf1)@,
{
    assert(final(fs).tree()[g.id() as int] == fs.tree()[g.id() as int]);
    assert(final(buf2)@ =~= final(buf1)@);
}

/// Setting the size of a file concerns no other file.
pub proof fn law_resize_others<D: Device>(
    h: INodeImpl,
    fs: &mut SimpleFileSystem<D>,
    len: usize,
    g: INodeImpl,
    m: Metadata,
    m2: Metadata,
    offset1: usize,
    buf1: &mut [u8],
    r1: Result<usize, FsError>,
    buf2: &mut [u8],
    r2: Result<usize, FsError>,
)
    requires
        fs.wf(),
        fs.reliable(),
        fs.holds(h.id() as int),
        fs.holds(g.id() as int),
        g.id() != h.id(),
        call_ensures(INodeImpl::resize::<D>, (&h, fs, len), Ok::<(), FsError>(())),
        call_ensures(INodeImpl::metadata::<D>, (&g, &*fs), Ok::<Metadata, FsError>(m)),
        call_ensures(INodeImpl::metadata::<D>, (&g, &*final(fs)), Ok::<Metadata, FsError>(m2)),
        buf1@ == buf2@,
        call_ensures(INodeImpl::read_at::<D>, (&g, &*fs, offset1, buf1), r1),
        call_ensures(INodeImpl::read_at::<D>, (&g, &*final(fs), offset1, buf2), r2),
    ensures
        m2 == m,
        r1 is Ok <==> r2 is Ok,
        r1 is Ok ==> r2 == r1,
        final(buf2)@ == final(buf1)@,
{
    assert(final(fs).tree()[g.id() as int] == fs.tree()[g.id() as int]);
    assert(final(buf2)@ =~= final(buf1)@);
}

/// The blocks that a file takes besides the one of its inode: those of its bytes, and one for their
/// numbers from the twelfth on.
pub open spec fn blocks_taken(m: Metadata) -> int {
    m.blocks + if m.blocks >= 12 {
        1int
    } else {
        0int
    }
}

/// The blocks that a write gives to a file are free no longer, and no others.
pub proof fn law_write_space<D: Device>(
    h: INodeImpl,
    fs: &mut SimpleFileSystem<D>,
    offset: usize,
    bytes: &[u8],
    n: usize,
    m: Metadata,
    m2: Metadata,
    i: FsInfo,
    i2: FsInfo,
)
    requires
        fs.wf(),
        fs.holds(h.id() as int),
        call_ensures(INodeImpl::write_at::<D>, (&h, fs, offset, bytes), Ok::<usize, FsError>(n)),
        call_ensures(INodeImpl::metadata::<D>, (&h, &*fs), Ok::<Metadata, FsError>(m)),
        call_ensures(INodeImpl::metadata::<D>, (&h, &*final(fs)), Ok::<Metadata, FsError>(m2)),
        call_ensures(SimpleFileSystem::<D>::info, (&*fs,), i),
        call_ensures(SimpleFileSystem::<D>::info, (&*final(fs),), i2),
    ensures
        i2.bfree + blocks_taken(m2) == i.bfree + blocks_taken(m),
        i2 == (FsInfo { bfree: i2.bfree, bavail: i2.bfree, ffree: i2.bfree, ..i }),
{
    let id = h.id() as int;
    lemma_told(h, &*fs, m);
    lemma_held(fs.raw(), id);
    lemma_tree_node(fs.tree(), id);
    assert(handles(final(fs).raw()).contains_key(id));
    lemma_held(final(fs).raw(), id);
    lemma_told(h, &*final(fs), m2);
    lemma_tree_node(final(fs).tree(), id);
    lemma_count_len(fs.raw().free);
    lemma_count_len(final(fs).raw().free);
}

/// The blocks that a file gains are free no longer, those that it loses are free again.
pub proof fn law_resize_space<D: Device>(
    h: INodeImpl,
    fs: &mut SimpleFileSystem<D>,
    len: usize,
    m: Metadata,
    m2: Metadata,
    i: FsInfo,
    i2: FsInfo,
)
    requires
        fs.wf(),
        fs.holds(h.id() as int),
        call_ensures(INodeImpl::resize::<D>, (&h, fs, len), Ok::<(), FsError>(())),
        call_ensures(INodeImpl::metadata::<D>, (&h, &*fs), Ok::<Metadata, FsError>(m)),
        call_ensures(INodeImpl::metadata::<D>, (&h, &*final(fs)), Ok::<Metadata, FsError>(m2)),
        call_ensures(SimpleFileSystem::<D>::info, (&*fs,), i),
        call_ensures(SimpleFileSystem::<D>::info, (&*final(fs),), i2),
    ensures
        i2.bfree + blocks_taken(m2) == i.bfree + blocks_taken(m),
        i2 == (FsInfo { bfree: i2.bfree, bavail: i2.bfree, ffree: i2.bfree, ..i }),
{
    let id = h.id() as int;
    lemma_told(h, &*fs, m);
    lemma_held(fs.raw(), id);
    lemma_tree_node(fs.tree(), id);
    assert(handles(final(fs).raw()).contains_key(id));
    lemma_held(final(fs).raw(), id);
    lemma_told(h, &*final(fs), m2);
    lemma_tree_node(final(fs).tree(), id);
    lemma_count_len(fs.raw().free);
    lemma_count_len(final(fs).raw().free);
}

/// Reading is refused for directories. Else it fails only with the device, which a reliable one does
/// not.
pub proof fn law_read_served<D: Device>(
    h: INodeImpl,
    fs: &SimpleFileSystem<D>,
    offset: usize,
    buf: &mut [u8],
    r: Result<usize, FsError>,
    m: Metadata,
)
    requires
        fs.wf(),
        fs.holds(h.id() as int),
        call_ensures(INodeImpl::read_at::<D>, (&h, fs, offset, buf), r),
        call_ensures(INodeImpl::metadata::<D>, (&h, fs), Ok::<Metadata, FsError>(m)),
    ensures
        m.type_ == vfs::FileType::Dir <==> r == Err::<usize, FsError>(FsError::NotFile),
        m.type_ != vfs::FileType::Dir <==> r is Ok || r == Err::<usize, FsError>(
            FsError::DeviceError,
        ),
        fs.reliable() ==> r != Err::<usize, FsError>(FsError::DeviceError),
        m.type_ == vfs::FileType::Dir ==> final(buf)@ == old(buf)@,
{
    lemma_told(h, fs, m);
    lemma_tree_node(fs.tree(), h.id() as int);
}

/// Writing is refused for directories, and where the file would become too long. Else it fails
/// only with the device, which a reliable one does not.
pub proof fn law_write_served<D: Device>(
    h: INodeImpl,
    fs: &mut SimpleFileSystem<D>,
    offset: usize,
    bytes: &[u8],
    r: Result<usize, FsError>,
    m: Metadata,
)
    requires
        fs.wf(),
        fs.holds(h.id() as int),
        call_ensures(INodeImpl::write_at::<D>, (&h, fs, offset, bytes), r),
        call_ensures(INodeImpl::metadata::<D>, (&h, &*fs), Ok::<Metadata, FsError>(m)),
    ensures
        ({
            let end = offset + bytes@.len();
            &&& old(fs).reliable() ==> r != Err::<usize, FsError>(FsError::DeviceError)
            &&& m.type_ == vfs::FileType::Dir <==> r == Err::<usize, FsError>(FsError::NotFile)
            &&& m.type_ != vfs::FileType::Dir && m.size < end && end > 0x800_0000 <==> r == Err::<
                usize,
                FsError,
            >(FsError::InvalidParam)
            &&& r is Err && r != Err::<usize, FsError>(FsError::DeviceError) ==> r == Err::<usize, FsError>(FsError::NotFile) || r == Err::<
                usize,
                FsError,
            >(FsError::InvalidParam)
            &&& r is Err && r != Err::<usize, FsError>(FsError::DeviceError) ==> final(fs).raw() == old(fs).raw() && final(fs).device() == old(
                fs,
            ).device()
        }),
{
    lemma_told(h, &*fs, m);
    lemma_tree_node(fs.tree(), h.id() as int);
}

/// Setting the size is refused for directories, and where the file would become too long. Else it fails
/// only with the device, which a reliable one does not.
pub proof fn law_resize_served<D: Device>(
    h: INodeImpl,
    fs: &mut SimpleFileSystem<D>,
    len: usize,
    r: Result<(), FsError>,
    m: Metadata,
)
    requires
        fs.wf(),
        fs.holds(h.id() as int),
        call_ensures(INodeImpl::resize::<D>, (&h, fs, len), r),
        call_ensures(INodeImpl::metadata::<D>, (&h, &*fs), Ok::<Metadata, FsError>(m)),
    ensures
        old(fs).reliable() ==> r != Err::<(), FsError>(FsError::DeviceError),
        m.type_ == vfs::FileType::Dir <==> r == Err::<(), FsError>(FsError::NotFile),
        m.type_ != vfs::FileType::Dir && len > 0x800_0000 <==> r == Err::<(), FsError>(
            FsError::InvalidParam,
        ),
        r is Err && r != Err::<(), FsError>(FsError::DeviceError) ==> r == Err::<(), FsError>(FsError::NotFile) || r == Err::<(), FsError>(
            FsError::InvalidParam,
        ),
        r is Err && r != Err::<(), FsError>(FsError::DeviceError) ==> final(fs).raw() == old(fs).raw() && final(fs).device() == old(fs).device(),
{
    lemma_told(h, &*fs, m);
    lemma_tree_node(fs.tree(), h.id() as int);
}

/// There is room for a length if and only if an inode can address it and the blocks that the file
/// lacks are free.
pub proof fn law_fits<D: Device>(
    h: INodeImpl,
    fs: &SimpleFileSystem<D>,
    len: usize,
    b: bool,
    extend: bool,
    resize: bool,
    m: Metadata,
    i: FsInfo,
)
    requires
        fs.wf(),
        fs.holds(h.id() as int),
        call_ensures(INodeImpl::fits_len::<D>, (&h, fs, len), b),
        call_ensures(INodeImpl::can_extend::<D>, (&h, fs, len), extend),
        call_ensures(INodeImpl::can_resize::<D>, (&h, fs, len), resize),
        call_ensures(INodeImpl::metadata::<D>, (&h, fs), Ok::<Metadata, FsError>(m)),
        call_ensures(SimpleFileSystem::<D>::info, (fs,), i),
    ensures
        forall|blocks: int|
            #![trigger blocks * 4096]
            len <= blocks * 4096 < len + 4096 ==> {
                let wanted = blocks + if blocks >= 12 {
                    1int
                } else {
                    0int
                };
                b <==> blocks <= 1036 && (blocks <= m.blocks || wanted - blocks_taken(m) <= i.bfree)
            },
        m.type_ == vfs::FileType::Dir ==> extend && resize,
        m.type_ != vfs::FileType::Dir ==> (extend <==> b || len <= m.size || len > 0x800_0000),
        m.type_ != vfs::FileType::Dir ==> (resize <==> b || len > 0x800_0000),
{
    lemma_told(h, fs, m);
    lemma_held(fs.raw(), h.id() as int);
    lemma_tree_node(fs.tree(), h.id() as int);
    lemma_count_len(fs.raw().free);
}

/// What is told of a file besides its size, blocks and links does not depend on what was done to it.
pub proof fn law_metadata<D: Device>(h: INodeImpl, fs: &SimpleFileSystem<D>, m: Metadata)
    requires
        fs.wf(),
        fs.holds(h.id() as int),
        call_ensures(INodeImpl::metadata::<D>, (&h, fs), Ok::<Metadata, FsError>(m)),
    ensures
        m.inode == h.id(),
        m.dev == 0 && m.uid == 0 && m.gid == 0,
        m.mode == 0o777,
        m.blk_size == 4096,
        m.atime == (Timespec { sec: 0, nsec: 0 }),
        m.mtime == m.atime && m.ctime == m.atime,
        m.type_ == vfs::FileType::File || m.type_ == vfs::FileType::Dir || m.type_
            == vfs::FileType::SymLink,
        m.type_ == vfs::FileType::Dir ==> m.size == m.blocks && m.size >= 2,
        m.type_ != vfs::FileType::Dir ==> m.size <= m.blocks * 4096 < m.size + 4096,
        m.blocks <= 1036,
{
    lemma_told(h, fs, m);
    lemma_tree_node(fs.tree(), h.id() as int);
}

/// Taking blocks makes none free.
pub proof fn lemma_after_less(free: Seq<bool>, n: nat, b: int)
    requires
        0 <= b < free.len(),
    ensures
        after(free, n).len() == free.len(),
        after(free, n)[b] ==> free[b],
    decreases n,
{
    if n > 0 {
        lemma_after_less(free, (n - 1) as nat, b);
    }
}

/// A block that is taken was free, and no lower one stays free.
proof fn lemma_taken_lowest(
    free: Seq<bool>,
    free2: Seq<bool>,
    extra: nat,
    n: nat,
    i: int,
    a: int,
)
    requires
        free2 == after(free, extra + n),
        0 <= i < n,
        extra + n <= count(free),
        0 <= a < free.len(),
    ensures
        ({
            let b = taken(after(free, extra), n)[i];
            &&& 0 <= b < free.len()
            &&& free[b]
            &&& a < b ==> !free2[a]
        }),
{
    let b = taken(after(free, extra), n)[i];
    let m = extra + i as nat;
    lemma_after_sum(free, extra, i as nat);
    lemma_after_count(free, m);
    assert(b == lowest(after(free, m)));
    assert(is_lowest(after(free, m), b));
    lemma_after_less(free, m, b);
    lemma_after_sum(free, m, (extra + n - m) as nat);
    lemma_after_less(after(free, m), (extra + n - m) as nat, a);
}

/// A file keeps its blocks when it is written. Those that it gains were free, and no lower block stays
/// free. No other block changes sides.
pub proof fn law_write_blocks<D: Device>(
    h: INodeImpl,
    fs: &mut SimpleFileSystem<D>,
    offset: usize,
    bytes: &[u8],
    n: usize,
    m: Metadata,
    m2: Metadata,
    k: usize,
    b: Result<BlockId, FsError>,
    b2: Result<BlockId, FsError>,
    a: usize,
    used: bool,
    used2: bool,
)
    requires
        fs.wf(),
        fs.reliable(),
        fs.holds(h.id() as int),
        call_ensures(INodeImpl::write_at::<D>, (&h, fs, offset, bytes), Ok::<usize, FsError>(n)),
        call_ensures(INodeImpl::metadata::<D>, (&h, &*fs), Ok::<Metadata, FsError>(m)),
        call_ensures(INodeImpl::metadata::<D>, (&h, &*final(fs)), Ok::<Metadata, FsError>(m2)),
        call_ensures(INodeImpl::get_disk_block_id::<D>, (&h, &*fs, k), b),
        call_ensures(INodeImpl::get_disk_block_id::<D>, (&h, &*final(fs), k), b2),
        call_ensures(SimpleFileSystem::<D>::in_use, (&*fs, a), used),
        call_ensures(SimpleFileSystem::<D>::in_use, (&*final(fs), a), used2),
    ensures
        b is Ok && b2 is Ok ==> b2 == b,
        b is Err && b2 is Ok ==> {
            &&& a == b2->Ok_0 ==> !used && used2
            &&& a < b2->Ok_0 && !used ==> used2
        },
        b is Ok && b2 is Err ==> (a == b->Ok_0 ==> used && !used2),
        m2.blocks == m.blocks ==> used2 == used,
        m2.blocks > m.blocks ==> (used ==> used2),
        m2.blocks < m.blocks ==> (used2 ==> used),
{
    let id = h.id() as int;
    let r = fs.raw();
    let u = final(fs).raw();
    let f = fs.tree()[id];
    let g = final(fs).tree()[id];
    lemma_told(h, &*fs, m);
    lemma_held(r, id);
    lemma_tree_node(fs.tree(), id);
    assert(handles(u).contains_key(id));
    lemma_held(u, id);
    lemma_told(h, &*final(fs), m2);
    lemma_tree_node(final(fs).tree(), id);
    lemma_bounds(r);
    lemma_bounds(u);
    if b is Ok {
        assert(f.map[k as int] == b->Ok_0);
        law_blocks(r, id, k as int, id, k as int);
    }
    if b2 is Ok {
        assert(g.map[k as int] == b2->Ok_0);
        law_blocks(u, id, k as int, id, k as int);
    }
    if g.map.len() > f.map.len() {
        let extra = index_need(f.map.len() as int, g.map.len() as int) as nat;
        let n = (g.map.len() - f.map.len()) as nat;
        lemma_after_sum(r.free, extra, n);
        lemma_after_sum(r.free, extra, 0);
        if a < r.free.len() {
            lemma_after_less(r.free, extra + n, a as int);
        }
        if b is Err && b2 is Ok {
            lemma_after_less(after(r.free, extra), (k - f.map.len()) as nat, b2->Ok_0 as int);
            lemma_after_less(r.free, extra, b2->Ok_0 as int);
            if a < r.free.len() {
                lemma_taken_lowest(r.free, u.free, extra, n, k - f.map.len(), a as int);
            }
        }
    } else if g.map.len() < f.map.len() {
        let s = dropped(f, g.map.len() as int);
        if b is Ok && b2 is Err {
            assert(f.map.subrange(g.map.len() as int, f.map.len() as int)[k - g.map.len()]
                == b->Ok_0);
            assert(s[k - g.map.len()] == b->Ok_0);
            assert(s.contains(b->Ok_0 as int));
        }
    }
}

/// A file keeps the blocks that it has before and after its size is set. Those that it gains were free,
/// and no lower block stays free; those that it loses are free. Without new blocks nothing is written.
pub proof fn law_resize_blocks<D: Device>(
    h: INodeImpl,
    fs: &mut SimpleFileSystem<D>,
    len: usize,
    m: Metadata,
    m2: Metadata,
    k: usize,
    b: Result<BlockId, FsError>,
    b2: Result<BlockId, FsError>,
    a: usize,
    used: bool,
    used2: bool,
)
    requires
        fs.wf(),
        fs.reliable(),
        fs.holds(h.id() as int),
        call_ensures(INodeImpl::resize::<D>, (&h, fs, len), Ok::<(), FsError>(())),
        call_ensures(INodeImpl::metadata::<D>, (&h, &*fs), Ok::<Metadata, FsError>(m)),
        call_ensures(INodeImpl::metadata::<D>, (&h, &*final(fs)), Ok::<Metadata, FsError>(m2)),
        call_ensures(INodeImpl::get_disk_block_id::<D>, (&h, &*fs, k), b),
        call_ensures(INodeImpl::get_disk_block_id::<D>, (&h, &*final(fs), k), b2),
        call_ensures(SimpleFileSystem::<D>::in_use, (&*fs, a), used),
        call_ensures(SimpleFileSystem::<D>::in_use, (&*final(fs), a), used2),
    ensures
        b is Ok && b2 is Ok ==> b2 == b,
        b is Err && b2 is Ok ==> {
            &&& a == b2->Ok_0 ==> !used && used2
            &&& a < b2->Ok_0 && !used ==> used2
        },
        b is Ok && b2 is Err ==> (a == b->Ok_0 ==> used && !used2),
        m2.blocks == m.blocks ==> used2 == used,
        m2.blocks > m.blocks ==> (used ==> used2),
        m2.blocks < m.blocks ==> (used2 ==> used),
        len <= m.blocks * 4096 ==> final(fs).device() == old(fs).device(),
{
    let id = h.id() as int;
    let r = fs.raw();
    let u = final(fs).raw();
    let f = fs.tree()[id];
    let g = final(fs).tree()[id];
    lemma_told(h, &*fs, m);
    lemma_held(r, id);
    lemma_tree_node(fs.tree(), id);
    assert(handles(u).contains_key(id));
    lemma_held(u, id);
    lemma_told(h, &*final(fs), m2);
    lemma_tree_node(final(fs).tree(), id);
    lemma_bounds(r);
    lemma_bounds(u);
    if b is Ok {
        assert(f.map[k as int] == b->Ok_0);
        law_blocks(r, id, k as int, id, k as int);
    }
    if b2 is Ok {
        assert(g.map[k as int] == b2->Ok_0);
        law_blocks(u, id, k as int, id, k as int);
    }
    if g.map.len() > f.map.len() {
        let extra = index_need(f.map.len() as int, g.map.len() as int) as nat;
        let n = (g.map.len() - f.map.len()) as nat;
        lemma_after_sum(r.free, extra, n);
        lemma_after_sum(r.free, extra, 0);
        if a < r.free.len() {
            lemma_after_less(r.free, extra + n, a as int);
        }
        if b is Err && b2 is Ok {
            lemma_after_less(after(r.free, extra), (k - f.map.len()) as nat, b2->Ok_0 as int);
            lemma_after_less(r.free, extra, b2->Ok_0 as int);
            if a < r.free.len() {
                lemma_taken_lowest(r.free, u.free, extra, n, k - f.map.len(), a as int);
            }
        }
    } else if g.map.len() < f.map.len() {
        let s = dropped(f, g.map.len() as int);
        if b is Ok && b2 is Err {
            assert(f.map.subrange(g.map.len() as int, f.map.len() as int)[k - g.map.len()]
                == b->Ok_0);
            assert(s[k - g.map.len()] == b->Ok_0);
            assert(s.contains(b->Ok_0 as int));
        }
    }
}

/// The block for the numbers of further blocks is the lowest free one when a file comes to have twelve
/// blocks, and there is none when it has fewer again. Else it stays.
pub proof fn law_resize_index<D: Device>(
    h: INodeImpl,
    fs: &mut SimpleFileSystem<D>,
    len: usize,
    m: Metadata,
    m2: Metadata,
    v: DiskINode,
    v2: DiskINode,
    a: usize,
    used: bool,
)
    requires
        fs.wf(),
        fs.holds(h.id() as int),
        call_ensures(INodeImpl::resize::<D>, (&h, fs, len), Ok::<(), FsError>(())),
        call_ensures(INodeImpl::metadata::<D>, (&h, &*fs), Ok::<Metadata, FsError>(m)),
        call_ensures(INodeImpl::metadata::<D>, (&h, &*final(fs)), Ok::<Metadata, FsError>(m2)),
        call_ensures(SimpleFileSystem::<D>::disk_inode, (&*fs, h.id()), v),
        call_ensures(SimpleFileSystem::<D>::disk_inode, (&*final(fs), h.id()), v2),
        call_ensures(SimpleFileSystem::<D>::in_use, (&*fs, a), used),
    ensures
        m.blocks >= 12 && m2.blocks < 12 ==> v2.indirect == 0,
        m.blocks < 12 && m2.blocks >= 12 ==> {
            &&& a < v2.indirect ==> used
            &&& a == v2.indirect ==> !used
        },
        (m.blocks < 12 <==> m2.blocks < 12) ==> v2.indirect == v.indirect,
{
    let id = h.id() as int;
    let r = fs.raw();
    let u = final(fs).raw();
    lemma_told(h, &*fs, m);
    lemma_held(r, id);
    lemma_tree_node(fs.tree(), id);
    assert(handles(u).contains_key(id));
    lemma_held(u, id);
    lemma_told(h, &*final(fs), m2);
    lemma_tree_node(final(fs).tree(), id);
    lemma_bounds(r);
    law_unused(r);
    law_unused(u);
    if r.sup.unused > 0 {
        lemma_count_lowest(r.free);
    }
    assert(fs.tree()[id].indirect == v.indirect);
    assert(final(fs).tree()[id].indirect == v2.indirect);
}

} // verus!

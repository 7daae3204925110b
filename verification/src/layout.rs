//! Where on the device the bytes lie that calls show.

use vstd::prelude::*;
use vstd::string::StringSliceAdditionalSpecFns;
use vstd::utf8::encode_utf8;

use crate::calls::lemma_told;
use crate::codec::{le16, le32};
use crate::device::Device;
use crate::freemap::{bit_of, lemma_count_len, place, unpack};
use crate::fs::{INodeImpl, SimpleFileSystem};
use crate::laws::{law_blocks, law_unused};
use crate::model::{
    as_index, blk, chunks, core_ok, handles, inode_ok, lemma_bounds, lemma_held, lemma_owned, owns,
    rec,
};
use crate::names::{cut, lemma_nul_at, name_ok, nul_at};
use crate::structs::{inode_at, super_at, tag_of, type_of_tag, FileType, INodeId};
use crate::tree::{entry_field, entry_name, find_entry, first_entry, lemma_tree_node};
use crate::vfs::{self, FsError, FsInfo, Metadata};

verus! {

/// The 32-bit number at a place of the device, the least significant byte first.
pub open spec fn word_at(c: Seq<u8>, p: int) -> int {
    c[p] + 0x100 * c[p + 1] + 0x1_0000 * c[p + 2] + 0x100_0000 * c[p + 3]
}

/// The 16-bit number at a place of the device, the least significant byte first.
pub open spec fn half_at(c: Seq<u8>, p: int) -> int {
    c[p] + 0x100 * c[p + 1]
}

/// What the blocks hold is what the device holds.
proof fn lemma_byte(c: Seq<u8>, b: int, o: int)
    requires
        0 <= b,
        b < c.len() / 4096,
        0 <= o < 4096,
    ensures
        chunks(c)[b][o] == c[b * 4096 + o],
{
}

/// Byte by byte, a read gives what the device holds on the block that the part of the file lies on.
pub proof fn law_read_place<D: Device>(
    h: INodeImpl,
    fs: &SimpleFileSystem<D>,
    offset: usize,
    buf: &mut [u8],
    n: usize,
    i: int,
    k: usize,
    b: usize,
)
    requires
        fs.wf(),
        fs.holds(h.id() as int),
        call_ensures(INodeImpl::read_at::<D>, (&h, fs, offset, buf), Ok::<usize, FsError>(n)),
        0 <= i < n,
        k == (offset + i) / 4096,
        call_ensures(INodeImpl::get_disk_block_id::<D>, (&h, fs, k), Ok::<usize, FsError>(b)),
    ensures
        final(buf)@[i] == fs.device().contents()[b * 4096 + (offset + i) % 4096],
{
    let r = fs.raw();
    let id = h.id() as int;
    let f = fs.tree()[id];
    lemma_held(r, id);
    lemma_tree_node(fs.tree(), id);
    fs.lemma_blocks();
    assert(final(buf)@[i] == f.data[offset + i]);
    assert(f.map[k as int] == b);
    assert(owns(r, blk(r.disk, rec(r, id), k as int), id, k as int));
    lemma_owned(r, b as int, id, k as int);
    lemma_bounds(r);
    lemma_byte(fs.device().contents(), b as int, (offset + i) % 4096);
}

/// No two parts of files lie on one block, and every block that one lies on is in use. A file has as
/// many blocks as it is told to have.
pub proof fn law_block_ids<D: Device>(
    h: INodeImpl,
    k: usize,
    b: Result<usize, FsError>,
    g: INodeImpl,
    j: usize,
    c: Result<usize, FsError>,
    fs: &SimpleFileSystem<D>,
    m: Metadata,
    used: bool,
    i: FsInfo,
)
    requires
        fs.wf(),
        fs.holds(h.id() as int),
        fs.holds(g.id() as int),
        call_ensures(INodeImpl::get_disk_block_id::<D>, (&h, fs, k), b),
        call_ensures(INodeImpl::get_disk_block_id::<D>, (&g, fs, j), c),
        call_ensures(INodeImpl::metadata::<D>, (&h, fs), Ok::<Metadata, FsError>(m)),
        b is Ok ==> call_ensures(SimpleFileSystem::<D>::in_use, (fs, b->Ok_0), used),
        call_ensures(SimpleFileSystem::<D>::info, (fs,), i),
    ensures
        k < m.blocks <==> b is Ok || b == Err::<usize, FsError>(FsError::DeviceError),
        b == Err::<usize, FsError>(FsError::DeviceError) ==> !fs.reliable(),
        k >= m.blocks <==> b == Err::<usize, FsError>(FsError::InvalidParam),
        b is Ok ==> used && 3 <= b->Ok_0 < i.blocks,
        b is Ok ==> b->Ok_0 != h.id() && b->Ok_0 != g.id(),
        b is Ok && c is Ok && b->Ok_0 == c->Ok_0 ==> h.id() == g.id() && k == j,
{
    let r = fs.raw();
    lemma_told(h, fs, m);
    lemma_held(r, h.id() as int);
    lemma_held(r, g.id() as int);
    lemma_bounds(r);
    if b is Ok {
        law_blocks(r, h.id() as int, k as int, h.id() as int, k as int);
        if c is Ok {
            law_blocks(r, h.id() as int, k as int, g.id() as int, j as int);
        }
    }
}

/// Once a file, or the whole file system, has been written back, the inode of the file lies at the start of the block of its number: size,
/// type, links and blocks, and the numbers of its first blocks from byte twelve on.
pub proof fn law_inode_place<D: Device>(
    h: INodeImpl,
    fs: &mut SimpleFileSystem<D>,
    m: Metadata,
    k: usize,
    b: usize,
)
    requires
        fs.wf(),
        fs.holds(h.id() as int),
        call_ensures(INodeImpl::sync_all::<D>, (&h, fs), Ok::<(), FsError>(())) || call_ensures(
            INodeImpl::sync_data::<D>,
            (&h, fs),
            Ok::<(), FsError>(()),
        ) || call_ensures(SimpleFileSystem::<D>::sync, (fs,), Ok::<(), FsError>(())),
        call_ensures(INodeImpl::metadata::<D>, (&h, &*final(fs)), Ok::<Metadata, FsError>(m)),
        k < 12,
        call_ensures(
            INodeImpl::get_disk_block_id::<D>,
            (&h, &*final(fs), k),
            Ok::<usize, FsError>(b),
        ),
    ensures
        ({
            let c = final(fs).device().contents();
            let p = h.id() * 4096;
            &&& word_at(c, p) == if m.type_ == vfs::FileType::Dir {
                m.size * 256
            } else {
                m.size as int
            }
            &&& half_at(c, p + 4) == if m.type_ == vfs::FileType::File {
                1int
            } else if m.type_ == vfs::FileType::Dir {
                2int
            } else {
                3int
            }
            &&& half_at(c, p + 6) == m.nlinks
            &&& word_at(c, p + 8) == m.blocks
            &&& word_at(c, p + 12 + 4 * k) == b
        }),
{
    let id = h.id() as int;
    let r = final(fs).raw();
    let c = final(fs).device().contents();
    assert(handles(r).contains_key(id));
    lemma_held(r, id);
    lemma_told(h, &*final(fs), m);
    lemma_tree_node(final(fs).tree(), id);
    final(fs).lemma_blocks();
    lemma_bounds(r);
    assert forall|o: int| 0 <= o < 4096 implies #[trigger] r.disk[id][o] == c[id * 4096 + o] by {
        lemma_byte(c, id, o);
    }
    let v = inode_at(r.disk[id], 0);
    assert(v == rec(r, id));
    assert(v.direct[k as int] == le32(r.disk[id], 12 + 4 * k));
    assert(tag_of(v.kind) == half_at(c, id * 4096 + 4)) by {
        assert(v.kind == type_of_tag(le16(r.disk[id], 4)));
    }
}

/// The weights of the bits of a byte, the most significant first.
pub open spec fn weights() -> Seq<int> {
    seq![128int, 64, 32, 16, 8, 4, 2, 1]
}

/// Once a file system on a reliable device has been written back, block 0 starts with the magic number,
/// the number of blocks and the number of free blocks, and block 2 holds a bit for each block, which is
/// set if and only if the block is not in use.
pub proof fn law_super_place<D: Device>(
    fs: &mut SimpleFileSystem<D>,
    i: FsInfo,
    b: usize,
    used: bool,
)
    requires
        fs.wf(),
        fs.reliable(),
        call_ensures(SimpleFileSystem::<D>::sync, (fs,), Ok::<(), FsError>(())),
        call_ensures(SimpleFileSystem::<D>::info, (&*final(fs),), i),
        b < 32768,
        call_ensures(SimpleFileSystem::<D>::in_use, (&*final(fs), b), used),
    ensures
        ({
            let c = final(fs).device().contents();
            &&& word_at(c, 0) == 0x2f8d_be2a
            &&& word_at(c, 4) == i.blocks
            &&& word_at(c, 8) == i.bfree
            &&& used <==> (c[2 * 4096 + b / 8] as int / weights()[b as int % 8]) % 2 == 0
        }),
{
    let r = final(fs).raw();
    let c = final(fs).device().contents();
    final(fs).lemma_blocks();
    lemma_bounds(r);
    law_unused(r);
    lemma_count_len(r.free);
    assert(r.sup.magic == 0x2f8d_be2a) by {
        reveal(core_ok);
    }
    assert forall|o: int| 0 <= o < 4096 implies #[trigger] r.disk[0][o] == c[0 * 4096 + o] by {
        lemma_byte(c, 0, o);
    }
    assert forall|o: int| 0 <= o < 4096 implies #[trigger] r.disk[2][o] == c[2 * 4096 + o] by {
        lemma_byte(c, 2, o);
    }
    let v = super_at(r.disk[0], 0);
    assert(v == r.sup);
    assert(unpack(r.disk[2])[b as int] == bit_of(r.disk[2], b as int));
    assert(place(b as int % 8) == weights()[b as int % 8]);
}

/// An entry lies on a block of its own: the number of the inode that it names, then its name and a zero
/// byte. Of several entries of a name, the first one counts.
pub proof fn law_entry_place<D: Device>(
    d: INodeImpl,
    fs: &SimpleFileSystem<D>,
    k: usize,
    s: String,
    b: usize,
    name: &str,
    x: INodeId,
    j: int,
)
    requires
        fs.wf(),
        fs.holds(d.id() as int),
        call_ensures(INodeImpl::get_entry::<D>, (&d, fs, k), Ok::<String, FsError>(s)),
        call_ensures(INodeImpl::get_disk_block_id::<D>, (&d, fs, k), Ok::<usize, FsError>(b)),
        name.spec_bytes() == encode_utf8(s@),
        forall|i: int|
            0 <= i < k ==> #[trigger] entry_name(fs.tree()[d.id() as int], i) != encode_utf8(s@),
        call_ensures(
            INodeImpl::get_file_inode_id::<D>,
            (&d, fs, name),
            Ok::<Option<INodeId>, FsError>(Some(x)),
        ),
    ensures
        ({
            let c = fs.device().contents();
            let p = b * 4096;
            &&& word_at(c, p) == x
            &&& encode_utf8(s@).len() < 256
            &&& 0 <= j < encode_utf8(s@).len() ==> c[p + 4 + j] == encode_utf8(s@)[j]
            &&& c[p + 4 + encode_utf8(s@).len()] == 0
        }),
{
    let r = fs.raw();
    let id = d.id() as int;
    let f = fs.tree()[id];
    let c = fs.device().contents();
    lemma_held(r, id);
    lemma_tree_node(fs.tree(), id);
    fs.lemma_blocks();
    lemma_bounds(r);
    assert(f.map[k as int] == b);
    assert(owns(r, blk(r.disk, rec(r, id), k as int), id, k as int));
    lemma_owned(r, b as int, id, k as int);
    let e = find_entry(f, name.spec_bytes());
    assert(first_entry(f, name.spec_bytes(), e));
    assert(e == k) by {
        if e < k {
            assert(entry_name(f, e) != entry_name(f, k as int));
        } else if k < e {
            assert(entry_name(f, k as int) != entry_name(f, e));
        }
    }
    assert forall|o: int| 0 <= o < 4096 implies #[trigger] f.data[k * 4096 + o] == c[b * 4096
        + o] by {
        assert((k * 4096 + o) / 4096 == k && (k * 4096 + o) % 4096 == o);
        lemma_byte(c, b as int, o);
    }
    let g = entry_field(f, k as int);
    lemma_nul_at(g);
    assert(name_ok(g));
    assert(f.data[k * 4096 + 0] == c[b * 4096 + 0]);
    assert(f.data[k * 4096 + 1] == c[b * 4096 + 1]);
    assert(f.data[k * 4096 + 2] == c[b * 4096 + 2]);
    assert(f.data[k * 4096 + 3] == c[b * 4096 + 3]);
    if 0 <= j < cut(g).len() {
        assert(g[j] == f.data[k * 4096 + (4 + j)]);
    }
    assert(g[nul_at(g)] == f.data[k * 4096 + (4 + nul_at(g))]);
}

/// Once a file, or the whole file system, has been written back, the numbers of its blocks from the thirteenth on lie on a block of
/// their own, whose number is at byte sixty of the inode.
pub proof fn law_index_place<D: Device>(
    h: INodeImpl,
    fs: &mut SimpleFileSystem<D>,
    k: usize,
    b: usize,
)
    requires
        fs.wf(),
        fs.holds(h.id() as int),
        call_ensures(INodeImpl::sync_all::<D>, (&h, fs), Ok::<(), FsError>(())) || call_ensures(
            INodeImpl::sync_data::<D>,
            (&h, fs),
            Ok::<(), FsError>(()),
        ) || call_ensures(SimpleFileSystem::<D>::sync, (fs,), Ok::<(), FsError>(())),
        k >= 12,
        call_ensures(
            INodeImpl::get_disk_block_id::<D>,
            (&h, &*final(fs), k),
            Ok::<usize, FsError>(b),
        ),
    ensures
        ({
            let c = final(fs).device().contents();
            word_at(c, word_at(c, h.id() * 4096 + 60) * 4096 + 4 * (k - 12)) == b
        }),
{
    let id = h.id() as int;
    let r = final(fs).raw();
    let c = final(fs).device().contents();
    assert(handles(r).contains_key(id));
    lemma_held(r, id);
    lemma_tree_node(final(fs).tree(), id);
    final(fs).lemma_blocks();
    lemma_bounds(r);
    assert forall|o: int| 0 <= o < 4096 implies #[trigger] r.disk[id][o] == c[id * 4096 + o] by {
        lemma_byte(c, id, o);
    }
    let v = inode_at(r.disk[id], 0);
    assert(v == rec(r, id));
    assert(v.indirect == le32(r.disk[id], 60));
    assert(inode_ok(r, id, v.blocks));
    lemma_owned(r, v.indirect, id, as_index());
    assert forall|o: int| 0 <= o < 4096 implies #[trigger] r.disk[v.indirect][o] == c[v.indirect
        * 4096 + o] by {
        lemma_byte(c, v.indirect, o);
    }
    assert(b == le32(r.disk[v.indirect], 4 * (k - 12)));
}

/// What an opened file system tells of itself is what its device holds: the numbers of blocks behind
/// the magic number, and for each block a bit on block 2.
pub proof fn law_open_told<D: Device>(
    device: D,
    fs: SimpleFileSystem<D>,
    i: FsInfo,
    b: usize,
    used: bool,
    held: bool,
    x: INodeId,
)
    requires
        call_ensures(
            SimpleFileSystem::<D>::open,
            (device,),
            Ok::<SimpleFileSystem<D>, FsError>(fs),
        ),
        call_ensures(SimpleFileSystem::<D>::info, (&fs,), i),
        b < 32768,
        call_ensures(SimpleFileSystem::<D>::in_use, (&fs, b), used),
        call_ensures(SimpleFileSystem::<D>::is_held, (&fs, x), held),
    ensures
        ({
            let c = device.contents();
            &&& fs.device() == device
            &&& word_at(c, 0) == 0x2f8d_be2a
            &&& word_at(c, 4) == i.blocks
            &&& word_at(c, 8) == i.bfree
            &&& used <==> (c[2 * 4096 + b / 8] as int / weights()[b as int % 8]) % 2 == 0
        }),
        !held,
{
    let r = fs.raw();
    let c = device.contents();
    assert forall|o: int| 0 <= o < 4096 implies #[trigger] r.disk[0][o] == c[0 * 4096 + o] by {
        lemma_byte(c, 0, o);
    }
    assert forall|o: int| 0 <= o < 4096 implies #[trigger] r.disk[2][o] == c[2 * 4096 + o] by {
        lemma_byte(c, 2, o);
    }
    assert(super_at(r.disk[0], 0) == r.sup);
    assert(unpack(r.disk[2])[b as int] == bit_of(r.disk[2], b as int));
    assert(place(b as int % 8) == weights()[b as int % 8]);
}

/// Writing back touches the first 44 bytes of block 0, block 2, and the first 68 bytes of the blocks of
/// inodes of which there is a handle, and no other byte of a block.
pub proof fn law_sync_touch<D: Device>(
    fs: &mut SimpleFileSystem<D>,
    b: usize,
    o: int,
    held: bool,
)
    requires
        fs.wf(),
        call_ensures(SimpleFileSystem::<D>::sync, (fs,), Ok::<(), FsError>(())),
        call_ensures(SimpleFileSystem::<D>::is_held, (&*fs, b), held),
        0 <= o < 4096,
        b < fs.device().contents().len() / 4096,
        b < final(fs).device().contents().len() / 4096,
    ensures
        b != 2 && (b == 0 ==> o >= 44) && (held ==> o >= 68) ==> {
            let c = old(fs).device().contents();
            let c2 = final(fs).device().contents();
            c2[b * 4096 + o] == c[b * 4096 + o]
        },
{
    let r = fs.raw();
    let s = final(fs).raw();
    fs.lemma_blocks();
    final(fs).lemma_blocks();
    lemma_byte(fs.device().contents(), b as int, o);
    lemma_byte(final(fs).device().contents(), b as int, o);
    if b != 2 && b != 0 && !held {
        assert(s.disk[b as int] == r.disk[b as int]);
    }
}

/// Where a write takes no new blocks, each byte is stored at its place, and every other byte on the
/// blocks of the file is as it was, those behind the end of the file among them.
pub proof fn law_write_place<D: Device>(
    h: INodeImpl,
    fs: &mut SimpleFileSystem<D>,
    offset: usize,
    bytes: &[u8],
    n: usize,
    m: Metadata,
    m2: Metadata,
    k: usize,
    b: usize,
    o: int,
)
    requires
        fs.wf(),
        fs.holds(h.id() as int),
        call_ensures(INodeImpl::write_at::<D>, (&h, fs, offset, bytes), Ok::<usize, FsError>(n)),
        call_ensures(INodeImpl::metadata::<D>, (&h, &*fs), Ok::<Metadata, FsError>(m)),
        call_ensures(INodeImpl::metadata::<D>, (&h, &*final(fs)), Ok::<Metadata, FsError>(m2)),
        m2.blocks == m.blocks,
        call_ensures(INodeImpl::get_disk_block_id::<D>, (&h, &*fs, k), Ok::<usize, FsError>(b)),
        0 <= o < 4096,
    ensures
        ({
            let c = old(fs).device().contents();
            let c2 = final(fs).device().contents();
            let p = k * 4096 + o;
            c2[b * 4096 + o] == if offset <= p < offset + n {
                bytes@[p - offset]
            } else {
                c[b * 4096 + o]
            }
        }),
{
    let r = fs.raw();
    let s = final(fs).raw();
    let id = h.id() as int;
    let f = fs.tree()[id];
    let g = final(fs).tree()[id];
    lemma_told(h, &*fs, m);
    lemma_held(r, id);
    lemma_tree_node(fs.tree(), id);
    assert(handles(s).contains_key(id));
    lemma_held(s, id);
    lemma_told(h, &*final(fs), m2);
    lemma_tree_node(final(fs).tree(), id);
    fs.lemma_blocks();
    final(fs).lemma_blocks();
    lemma_bounds(r);
    lemma_bounds(s);
    assert(f.map[k as int] == b);
    assert(owns(r, blk(r.disk, rec(r, id), k as int), id, k as int));
    lemma_owned(r, b as int, id, k as int);
    assert(g.map[k as int] == b);
    assert(owns(s, blk(s.disk, rec(s, id), k as int), id, k as int));
    lemma_owned(s, b as int, id, k as int);
    assert((k * 4096 + o) / 4096 == k && (k * 4096 + o) % 4096 == o);
    lemma_byte(fs.device().contents(), b as int, o);
    lemma_byte(final(fs).device().contents(), b as int, o);
    assert(f.data[k * 4096 + o] == r.disk[b as int][o]);
    assert(g.data[k * 4096 + o] == s.disk[b as int][o]);
}

} // verus!

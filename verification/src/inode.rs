//! Operations on inodes.

use vstd::prelude::*;

use crate::codec::{lemma_le32_same, push_u32, read_u32, splice, word32};
use crate::device::Device;
use crate::freemap::{
    after, cleared, freed, lemma_after_sum, lemma_count_len, lemma_count_zero, lemma_freed_next,
    lemma_freed_push, lemma_lowest, lowest, taken,
};
use crate::fs::{INodeImpl, SimpleFileSystem};
use crate::laws::law_block_set;
use crate::model::{
    as_index, blk, bmap, body, core_ok, core_upto, data_of, disk_ok, handles, inode_ok, keeps,
    lemma_drop_index, lemma_drop_last, lemma_frame, lemma_held, lemma_only_trans, lemma_owned,
    lemma_put_block, lemma_put_meta, lemma_store_data, lemma_take, live, marks, node, only, owns,
    put_block, put_inode, rec, take_block, tree, Node, Raw, Slot,
};
use crate::structs::{
    BlockId, FileType, Inode, Super, BLKSIZE, DIRENT_SIZE, ENTRY_SIZE, MAX_BLOCKS, MAX_FILE_SIZE,
    NDIRECT,
};
use crate::util::BlockIter;
use crate::vfs::FsError;

verus! {

/// The number of bytes that a file spans: its size, or all of its blocks for a directory.
pub open spec fn span(n: Node) -> int {
    if n.kind == FileType::Dir {
        n.map.len() as int * 4096
    } else {
        n.size
    }
}

/// How many of `len` bytes from `offset` on lie within a file of the given span.
pub open spec fn within(span: int, offset: int, len: int) -> int {
    if offset >= span {
        0
    } else if offset + len <= span {
        len
    } else {
        span - offset
    }
}

/// `n` zero bytes.
pub open spec fn zeros(n: int) -> Seq<u8> {
    Seq::new(n as nat, |i: int| 0u8)
}

/// A file after `bytes` have been written at `offset`.
pub open spec fn written(f: Node, offset: int, bytes: Seq<u8>) -> Node {
    Node { data: splice(f.data, offset, bytes), ..f }
}

/// How many blocks it takes to grow a file from `old_blocks` to `blocks` blocks.
pub open spec fn grow_need(old_blocks: int, blocks: int) -> int {
    blocks - old_blocks + index_need(old_blocks, blocks)
}

/// Whether growing takes a block for the numbers of further data blocks.
pub open spec fn index_need(old_blocks: int, blocks: int) -> int {
    if old_blocks < 12 && blocks >= 12 {
        1
    } else {
        0
    }
}

/// A file after it has grown to `blocks` blocks, each the lowest one free. What the new blocks held
/// before is what the file holds there.
pub open spec fn grown(f: Node, disk: Seq<Seq<u8>>, free: Seq<bool>, blocks: int) -> Node {
    let extra = index_need(f.map.len() as int, blocks) as nat;
    let map = f.map + taken(after(free, extra), (blocks - f.map.len()) as nat);
    Node {
        indirect: if extra == 1 {
            lowest(free)
        } else {
            f.indirect
        },
        map,
        data: data_of(disk, map),
        ..f
    }
}

/// A file after it has been cut to `blocks` blocks.
pub open spec fn shrunk(f: Node, blocks: int) -> Node {
    Node {
        indirect: if index_need(blocks, f.map.len() as int) == 1 {
            0
        } else {
            f.indirect
        },
        map: f.map.take(blocks),
        data: f.data.take(blocks * 4096),
        ..f
    }
}

/// The blocks that a file gives back when it is cut to `blocks` blocks.
pub open spec fn dropped(f: Node, blocks: int) -> Seq<int> {
    let s = f.map.subrange(blocks, f.map.len() as int);
    if index_need(blocks, f.map.len() as int) == 1 {
        s.push(f.indirect)
    } else {
        s
    }
}

/// How many blocks `len` bytes fill.
pub open spec fn blocks_for(len: int) -> int {
    (len + 4095) / 4096
}

/// What the size field of an inode says.
pub open spec fn size_field(kind: FileType, blocks: int, len: int) -> int {
    if kind == FileType::Dir {
        blocks * 256
    } else {
        len
    }
}

/// A file after its size has been set to `len`: where it takes more blocks, what it gains is zero;
/// where it keeps its blocks, it gains or loses what they hold.
pub open spec fn resized(f: Node, disk: Seq<Seq<u8>>, free: Seq<bool>, len: int) -> Node {
    let blocks = blocks_for(len);
    let size = size_field(f.kind, blocks, len);
    if blocks > f.map.len() {
        let g = Node { size, ..grown(f, disk, free, blocks) };
        if f.kind == FileType::Dir || f.size >= len {
            g
        } else {
            written(g, f.size, zeros(len - f.size))
        }
    } else if blocks < f.map.len() {
        Node { size, ..shrunk(f, blocks) }
    } else {
        Node { size, ..f }
    }
}

/// The free map after the size of a file has been set to `len`.
pub open spec fn free_resized(f: Node, free: Seq<bool>, len: int) -> Seq<bool> {
    let blocks = blocks_for(len);
    if blocks > f.map.len() {
        after(free, grow_need(f.map.len() as int, blocks) as nat)
    } else if blocks < f.map.len() {
        freed(free, dropped(f, blocks))
    } else {
        free
    }
}

/// The number of unused blocks after the size of a file has been set to `len`.
pub open spec fn unused_resized(f: Node, unused: int, len: int) -> int {
    let blocks = blocks_for(len);
    if blocks > f.map.len() {
        unused - grow_need(f.map.len() as int, blocks)
    } else if blocks < f.map.len() {
        unused + dropped(f, blocks).len()
    } else {
        unused
    }
}

/// Whether setting the size of a file to `len` reads or writes anything on the device: the numbers of
/// blocks beyond the direct ones, or the zeros that the file gains.
pub open spec fn resize_transfers(f: Node, len: int) -> bool {
    let blocks = blocks_for(len);
    if blocks > f.map.len() {
        blocks > NDIRECT || (f.kind != FileType::Dir && f.size < len)
    } else {
        blocks < f.map.len() && f.map.len() > NDIRECT
    }
}

/// A file can take `len` bytes: its inode can address them and there are blocks for them.
pub open spec fn fits(f: Node, unused: int, len: int) -> bool {
    let blocks = blocks_for(len);
    &&& blocks <= MAX_BLOCKS
    &&& blocks > f.map.len() ==> grow_need(f.map.len() as int, blocks) <= unused
}

/// The lesser of two numbers.
pub open spec fn min(a: int, b: int) -> int {
    if a <= b {
        a
    } else {
        b
    }
}

/// Every block that the inode counts has a place where its number is stored.
pub open spec fn addressed(r: Raw, id: int) -> bool {
    let v = rec(r, id);
    &&& v.blocks <= MAX_BLOCKS
    &&& v.blocks > NDIRECT ==> 0 <= v.indirect < r.sup.blocks
}

/// `s` follows from `r` by setting the number of block `i` of inode `id` to `b`: it is read back, the
/// numbers of all other blocks are as before, and nothing else of the inode changes.
pub open spec fn block_set(r: Raw, s: Raw, id: int, i: int, b: int) -> bool {
    let v = rec(r, id);
    let w = rec(s, id);
    &&& disk_ok(s)
    &&& handles(s) == handles(r)
    &&& addressed(s, id)
    &&& blk(s.disk, w, i) == b
    &&& forall|j: int|
        0 <= j < v.blocks && j != i ==> #[trigger] blk(s.disk, w, j) == blk(r.disk, v, j)
    &&& w == (Inode { direct: w.direct, ..v })
}

/// The inodes of a file system that is in order are addressed.
pub proof fn lemma_addressed(r: Raw, id: int)
    requires
        core_ok(r),
        r.cache.contains_key(id),
    ensures
        addressed(r, id),
{
    lemma_held(r, id);
    if rec(r, id).blocks > 12 {
        lemma_owned(r, rec(r, id).indirect, id, as_index());
    }
}

impl INodeImpl {
    /// Map file block id to disk block id
    pub fn get_disk_block_id<D: Device>(
        &self,
        fs: &SimpleFileSystem<D>,
        file_block_id: BlockId,
    ) -> (r: Result<BlockId, FsError>)
        requires
            disk_ok(fs.raw()),
            fs.holds(self.id() as int),
            addressed(fs.raw(), self.id() as int),
        ensures
            ({
                let v = rec(fs.raw(), self.id() as int);
                match r {
                    Ok(b) => {
                        &&& file_block_id < v.blocks
                        &&& b == blk(fs.raw().disk, v, file_block_id as int)
                    },
                    Err(FsError::InvalidParam) => file_block_id >= v.blocks,
                    Err(e) => {
                        &&& e == FsError::DeviceError
                        &&& !fs.reliable()
                        &&& NDIRECT <= file_block_id < v.blocks
                    },
                }
            }),
    {
        let disk_inode = fs.disk_inode(self.number());
        if file_block_id >= disk_inode.blocks as usize {
            Err(FsError::InvalidParam)
        } else if file_block_id < NDIRECT {
            Ok(disk_inode.direct[file_block_id] as usize)
        } else {
            let ghost r = fs.raw();
            let ghost v = rec(fs.raw(), self.id() as int);
            let mut buf: Vec<u8> = vec![0u8; 4];
            match fs.load(
                disk_inode.indirect as usize,
                ENTRY_SIZE * (file_block_id - NDIRECT),
                buf.as_mut_slice(),
            ) {
                Ok(_) => {},
                Err(e) => {
                    return Err(e);
                },
            }
            proof {
                lemma_le32_same(buf@, 0, r.disk[v.indirect], 4 * (file_block_id - 12));
            }
            Ok(read_u32(buf.as_slice(), 0) as usize)
        }
    }

    /// Get the actual size of this inode,
    /// since size in inode for dir is not real size
    pub(crate) fn _size<D: Device>(&self, fs: &SimpleFileSystem<D>) -> (n: usize)
        requires
            core_ok(fs.raw()),
            fs.holds(self.id() as int),
        ensures
            n == span(fs.tree()[self.id() as int]),
    {
        let disk_inode = fs.disk_inode(self.number());
        proof {
            lemma_held(fs.raw(), self.id() as int);
        }
        match disk_inode.type_ {
            FileType::Dir => disk_inode.blocks as usize * BLKSIZE,
            _ => disk_inode.size as usize,
        }
    }

    /// The part of a byte range that lies within the inode, to be visited block by block.
    fn _io_at<D: Device>(&self, fs: &SimpleFileSystem<D>, begin: usize, end: usize) -> (iter:
        BlockIter)
        requires
            core_ok(fs.raw()),
            fs.holds(self.id() as int),
        ensures
            iter.begin == min(span(fs.tree()[self.id() as int]), begin as int),
            iter.end == min(span(fs.tree()[self.id() as int]), end as int),
    {
        let size = self._size(fs);
        BlockIter {
            begin: if size <= begin {
                size
            } else {
                begin
            },
            end: if size <= end {
                size
            } else {
                end
            },
        }
    }

    /// Read content, no matter what type it is
    pub(crate) fn _read_at<D: Device>(
        &self,
        fs: &SimpleFileSystem<D>,
        offset: usize,
        buf: &mut [u8],
    ) -> (r: Result<usize, FsError>)
        requires
            core_ok(fs.raw()),
            fs.holds(self.id() as int),
            offset + old(buf)@.len() <= usize::MAX,
            span(fs.tree()[self.id() as int]) <= fs.tree()[self.id() as int].data.len(),
        ensures
            final(buf)@.len() == old(buf)@.len(),
            match r {
                Ok(n) => {
                    &&& n == within(
                        span(fs.tree()[self.id() as int]),
                        offset as int,
                        old(buf)@.len() as int,
                    )
                    &&& forall|i: int|
                        0 <= i < old(buf)@.len() ==> #[trigger] final(buf)@[i] == if i < n {
                            fs.tree()[self.id() as int].data[offset + i]
                        } else {
                            old(buf)@[i]
                        }
                },
                Err(e) => {
                    &&& e == FsError::DeviceError
                    &&& !fs.reliable()
                    &&& within(
                        span(fs.tree()[self.id() as int]),
                        offset as int,
                        old(buf)@.len() as int,
                    ) > 0
                },
            },
    {
        let ghost f = fs.tree()[self.id() as int];
        let ghost size = span(f);
        proof {
            lemma_held(fs.raw(), self.id() as int);
        }
        let len = buf.len();
        let mut iter = self._io_at(fs, offset, offset + len);
        let ghost start = iter.begin as int;
        let mut done: usize = 0;
        loop
            invariant
                core_ok(fs.raw()),
                fs.holds(self.id() as int),
                f == fs.tree()[self.id() as int],
                size == span(f) <= f.data.len(),
                f.data.len() == f.map.len() * 4096,
                live(fs.raw(), self.id() as int),
                start == min(size, offset as int),
                iter.end == min(size, offset + len),
                iter.begin == start + done,
                iter.begin <= iter.end,
                len == old(buf)@.len(),
                buf@.len() == len,
                forall|i: int|
                    0 <= i < len ==> #[trigger] buf@[i] == if i < done {
                        f.data[offset + i]
                    } else {
                        old(buf)@[i]
                    },
            ensures
                iter.begin >= iter.end,
            decreases iter.end - iter.begin,
        {
            proof {
                lemma_held(fs.raw(), self.id() as int);
                lemma_addressed(fs.raw(), self.id() as int);
            }
            let range = match iter.next() {
                Some(range) => range,
                None => {
                    break ;
                },
            };
            let block = match self.get_disk_block_id(fs, range.block) {
                Ok(b) => b,
                Err(e) => {
                    return Err(e);
                },
            };
            proof {
                let v = rec(fs.raw(), self.id() as int);
                lemma_owned(fs.raw(), block as int, self.id() as int, range.block as int);
            }
            let ghost before = buf@;
            let n = range.len();
            let (_head, rest) = buf.split_at_mut(done);
            let (mid, _tail) = rest.split_at_mut(n);
            match fs.load(block, range.begin, mid) {
                Ok(_) => {},
                Err(e) => {
                    return Err(e);
                },
            }
            done = done + n;
        }
        Ok(done)
    }

    /// Write content, no matter what type it is
    pub(crate) fn _write_at<D: Device>(
        &self,
        fs: &mut SimpleFileSystem<D>,
        offset: usize,
        buf: &[u8],
    ) -> (r: Result<usize, FsError>)
        requires
            core_ok(old(fs).raw()),
            old(fs).holds(self.id() as int),
            offset + buf@.len() <= usize::MAX,
            span(old(fs).tree()[self.id() as int]) <= old(fs).tree()[self.id() as int].data.len(),
        ensures
            final(fs).reliable() == old(fs).reliable(),
            match r {
                Ok(n) => {
                    let f = old(fs).tree()[self.id() as int];
                    &&& n == within(span(f), offset as int, buf@.len() as int)
                    &&& core_ok(final(fs).raw())
                    &&& final(fs).raw() == (Raw { disk: final(fs).raw().disk, ..old(fs).raw() })
                    &&& final(fs).tree() == old(fs).tree().insert(
                        self.id() as int,
                        written(f, offset as int, buf@.take(n as int)),
                    )
                    &&& keeps(old(fs).raw(), final(fs).raw(), body(f))
                    &&& n == 0 ==> final(fs).device() == old(fs).device()
                },
                Err(e) => {
                    &&& e == FsError::DeviceError
                    &&& !final(fs).reliable()
                    &&& within(
                        span(old(fs).tree()[self.id() as int]),
                        offset as int,
                        buf@.len() as int,
                    ) > 0
                },
            },
    {
        let ghost id = self.id() as int;
        let ghost r0 = fs.raw();
        let ghost f = fs.tree()[id];
        let ghost size = span(f);
        proof {
            lemma_held(fs.raw(), id);
            assert(buf@.take(0) =~= Seq::<u8>::empty());
            assert(written(f, offset as int, buf@.take(0)).data =~= f.data);
            assert(fs.tree() =~= tree(r0).insert(id, f));
        }
        let len = buf.len();
        let mut iter = self._io_at(fs, offset, offset + len);
        let ghost start = iter.begin as int;
        let mut done: usize = 0;
        loop
            invariant
                id == self.id(),
                core_ok(fs.raw()),
                fs.holds(id),
                fs.reliable() == old(fs).reliable(),
                done == 0 ==> fs.device() == old(fs).device(),
                f == tree(r0)[id],
                r0 == old(fs).raw(),
                size == span(f) <= f.data.len(),
                f.data.len() == f.map.len() * 4096,
                live(fs.raw(), id),
                start == min(size, offset as int),
                iter.end == min(size, offset + len),
                iter.begin == start + done,
                iter.begin <= iter.end,
                len == buf@.len(),
                done <= len,
                fs.raw() == (Raw { disk: fs.raw().disk, ..r0 }),
                keeps(r0, fs.raw(), body(f)),
                fs.tree() == tree(r0).insert(id, written(f, offset as int, buf@.take(done as int))),
            ensures
                iter.begin >= iter.end,
            decreases iter.end - iter.begin,
        {
            proof {
                lemma_held(fs.raw(), self.id() as int);
                lemma_addressed(fs.raw(), self.id() as int);
            }
            let range = match iter.next() {
                Some(range) => range,
                None => {
                    break ;
                },
            };
            let block = match self.get_disk_block_id(fs, range.block) {
                Ok(b) => b,
                Err(e) => {
                    assert(fs.tree()[id].map == f.map);
                    return Err(e);
                },
            };
            let n = range.len();
            let piece = vstd::slice::slice_subrange(buf, done, done + n);
            let ghost r1 = fs.raw();
            proof {
                assert(tree(r1)[id] == node(r1, id));
                assert(f.map.contains(block as int)) by {
                    assert(f.map[range.block as int] == block);
                }
                lemma_store_data(r1, id, range.block as int, range.begin as int, piece@);
            }
            match fs.store(block, range.begin, piece) {
                Ok(_) => {},
                Err(e) => {
                    return Err(e);
                },
            }
            proof {
                let before = written(f, offset as int, buf@.take(done as int));
                let now = written(f, offset as int, buf@.take(done + n));
                assert(splice(
                    before.data,
                    range.block * 4096 + range.begin,
                    piece@,
                ) =~= now.data);
                assert(tree(r1).insert(id, now) =~= tree(r0).insert(id, now));
            }
            done = done + n;
        }
        Ok(done)
    }

    /// Clean content, no matter what type it is
    pub(crate) fn _clean_at<D: Device>(
        &self,
        fs: &mut SimpleFileSystem<D>,
        begin: usize,
        end: usize,
    ) -> (r: Result<usize, FsError>)
        requires
            core_ok(old(fs).raw()),
            old(fs).holds(self.id() as int),
            span(old(fs).tree()[self.id() as int]) <= old(fs).tree()[self.id() as int].data.len(),
        ensures
            final(fs).reliable() == old(fs).reliable(),
            match r {
                Ok(n) => {
                    let f = old(fs).tree()[self.id() as int];
                    &&& n == if begin <= end {
                        within(span(f), begin as int, end - begin)
                    } else {
                        0
                    }
                    &&& core_ok(final(fs).raw())
                    &&& final(fs).raw() == (Raw { disk: final(fs).raw().disk, ..old(fs).raw() })
                    &&& final(fs).tree() == old(fs).tree().insert(
                        self.id() as int,
                        written(f, begin as int, zeros(n as int)),
                    )
                    &&& keeps(old(fs).raw(), final(fs).raw(), body(f))
                },
                Err(e) => {
                    &&& e == FsError::DeviceError
                    &&& !final(fs).reliable()
                    &&& begin < end
                    &&& begin < span(old(fs).tree()[self.id() as int])
                },
            },
    {
        let ghost id = self.id() as int;
        let ghost r0 = fs.raw();
        let ghost f = fs.tree()[id];
        let ghost size = span(f);
        proof {
            lemma_held(fs.raw(), id);
            assert(written(f, begin as int, zeros(0)).data =~= f.data);
            assert(fs.tree() =~= tree(r0).insert(id, f));
        }
        let blank: Vec<u8> = vec![0u8; BLKSIZE];
        let mut iter = self._io_at(fs, begin, end);
        let ghost start = iter.begin as int;
        let mut done: usize = 0;
        loop
            invariant
                id == self.id(),
                core_ok(fs.raw()),
                fs.holds(id),
                fs.reliable() == old(fs).reliable(),
                f == tree(r0)[id],
                r0 == old(fs).raw(),
                size == span(f) <= f.data.len(),
                f.data.len() == f.map.len() * 4096,
                live(fs.raw(), id),
                blank@ == zeros(4096),
                start == min(size, begin as int),
                iter.end == min(size, end as int),
                iter.begin == start + done,
                done == 0 || iter.begin <= iter.end,
                fs.raw() == (Raw { disk: fs.raw().disk, ..r0 }),
                keeps(r0, fs.raw(), body(f)),
                fs.tree() == tree(r0).insert(id, written(f, begin as int, zeros(done as int))),
            ensures
                iter.begin >= iter.end,
            decreases
                    if iter.end >= iter.begin {
                        iter.end - iter.begin
                    } else {
                        0
                    },
        {
            proof {
                lemma_held(fs.raw(), self.id() as int);
                lemma_addressed(fs.raw(), self.id() as int);
            }
            let range = match iter.next() {
                Some(range) => range,
                None => {
                    break ;
                },
            };
            let block = match self.get_disk_block_id(fs, range.block) {
                Ok(b) => b,
                Err(e) => {
                    assert(fs.tree()[id].map == f.map);
                    return Err(e);
                },
            };
            let n = range.len();
            let piece = vstd::slice::slice_subrange(blank.as_slice(), 0, n);
            let ghost r1 = fs.raw();
            proof {
                assert(tree(r1)[id] == node(r1, id));
                assert(f.map.contains(block as int)) by {
                    assert(f.map[range.block as int] == block);
                }
                lemma_store_data(r1, id, range.block as int, range.begin as int, piece@);
            }
            match fs.store(block, range.begin, piece) {
                Ok(_) => {},
                Err(e) => {
                    return Err(e);
                },
            }
            proof {
                let before = written(f, begin as int, zeros(done as int));
                let now = written(f, begin as int, zeros(done + n));
                assert(splice(
                    before.data,
                    range.block * 4096 + range.begin,
                    piece@,
                ) =~= now.data);
                assert(tree(r1).insert(id, now) =~= tree(r0).insert(id, now));
            }
            done = done + n;
        }
        Ok(done)
    }

    /// Places a block of the file on a block of the device.
    pub(crate) fn set_disk_block_id<D: Device>(
        &self,
        fs: &mut SimpleFileSystem<D>,
        file_block_id: BlockId,
        disk_block_id: BlockId,
    ) -> (r: Result<(), FsError>)
        requires
            disk_ok(old(fs).raw()),
            old(fs).holds(self.id() as int),
            disk_block_id <= u32::MAX,
            addressed(old(fs).raw(), self.id() as int),
        ensures
            final(fs).reliable() == old(fs).reliable(),
            file_block_id < NDIRECT || file_block_id >= rec(old(fs).raw(), self.id() as int).blocks
                ==> final(fs).device() == old(fs).device(),
            match r {
                Ok(_) => {
                    &&& file_block_id < rec(old(fs).raw(), self.id() as int).blocks
                    &&& final(fs).raw() == put_block(
                        old(fs).raw(),
                        self.id() as int,
                        file_block_id as int,
                        disk_block_id as int,
                    )
                    &&& block_set(
                        old(fs).raw(),
                        final(fs).raw(),
                        self.id() as int,
                        file_block_id as int,
                        disk_block_id as int,
                    )
                },
                Err(FsError::InvalidParam) => {
                    &&& file_block_id >= rec(old(fs).raw(), self.id() as int).blocks
                    &&& final(fs).raw() == old(fs).raw()
                },
                Err(e) => {
                    &&& e == FsError::DeviceError
                    &&& !final(fs).reliable()
                    &&& NDIRECT <= file_block_id < rec(old(fs).raw(), self.id() as int).blocks
                },
            },
    {
        let mut disk_inode = fs.disk_inode(self.number());
        let ghost r0 = fs.raw();
        let ghost v = disk_inode@;
        if file_block_id >= disk_inode.blocks as usize {
            Err(FsError::InvalidParam)
        } else if file_block_id < NDIRECT {
            disk_inode.direct[file_block_id] = disk_block_id as u32;
            assert(disk_inode@ =~= (Inode {
                direct: v.direct.update(file_block_id as int, disk_block_id as int),
                ..v
            }));
            fs.set_disk_inode(self.number(), disk_inode);
            proof {
                law_block_set(r0, self.id() as int, file_block_id as int, disk_block_id as int);
            }
            Ok(())
        } else {
            let mut buf: Vec<u8> = Vec::new();
            push_u32(&mut buf, disk_block_id as u32);
            assert(buf@ =~= word32(disk_block_id as int));
            proof {
                law_block_set(r0, self.id() as int, file_block_id as int, disk_block_id as int);
            }
            fs.store(
                disk_inode.indirect as usize,
                ENTRY_SIZE * (file_block_id - NDIRECT),
                buf.as_slice(),
            )
        }
    }

    /// Grows the file to the given number of blocks.
    fn grow<D: Device>(&self, fs: &mut SimpleFileSystem<D>, blocks: u32) -> (r: Result<(), FsError>)
        requires
            core_ok(old(fs).raw()),
            old(fs).holds(self.id() as int),
            old(fs).tree()[self.id() as int].map.len() < blocks <= MAX_BLOCKS,
            grow_need(old(fs).tree()[self.id() as int].map.len() as int, blocks as int) <= old(
                fs,
            ).raw().sup.unused,
        ensures
            final(fs).reliable() == old(fs).reliable(),
            match r {
                Ok(_) => {
                    let id = self.id() as int;
                    let r0 = old(fs).raw();
                    let r1 = final(fs).raw();
                    let f = old(fs).tree()[id];
                    let need = grow_need(f.map.len() as int, blocks as int);
                    &&& core_ok(r1)
                    &&& final(fs).tree() == old(fs).tree().insert(
                        id,
                        grown(f, r0.disk, r0.free, blocks as int),
                    )
                    &&& r1.free == after(r0.free, need as nat)
                    &&& r1.sup == (Super { unused: r0.sup.unused - need, ..r0.sup })
                    &&& r1.cache == r0.cache.insert(
                        id,
                        Slot { inode: rec(r1, id), dirty: true, ..r0.cache[id] },
                    )
                    &&& keeps(r0, r1, body(grown(f, r0.disk, r0.free, blocks as int)))
                    &&& marks(r0, r1, true)
                },
                Err(e) => {
                    &&& e == FsError::DeviceError
                    &&& !final(fs).reliable()
                    &&& blocks > NDIRECT
                },
            },
    {
        proof {
            reveal(core_ok);
        }
        let id_ = self.number();
        let ghost id = self.id() as int;
        let ghost r0 = fs.raw();
        let ghost f = fs.tree()[id];
        let mut disk_inode = fs.disk_inode(id_);
        let old_blocks = disk_inode.blocks;
        let ghost v0 = disk_inode@;
        let ghost extra = index_need(old_blocks as int, blocks as int) as nat;
        let ghost free1 = after(r0.free, extra);
        let ghost map = f.map + taken(free1, (blocks - old_blocks) as nat);
        proof {
            assert(live(r0, id));
            assert(inode_ok(r0, id, v0.blocks));
        }
        // allocate indirect block if need
        disk_inode.blocks = blocks;
        if old_blocks < NDIRECT as u32 && blocks >= NDIRECT as u32 {
            let block = match fs.alloc_block() {
                Some(b) => b,
                None => {
                    proof {
                        if forall|j: int| 0 <= j < r0.free.len() ==> !r0.free[j] {
                            lemma_count_zero(r0.free);
                        }
                        assert(false);
                    }
                    0
                },
            };
            proof {
                lemma_take(r0, id, old_blocks as int, block as int);
                lemma_lowest(r0.free, block as int);
                assert(after(r0.free, 0) == r0.free);
                assert(after(r0.free, 1) == cleared(r0.free, block as int));
                assert(fs.raw().free =~= free1);
            }
            disk_inode.indirect = block as u32;
            fs.assign(Ghost(fs.raw().owner.insert(block as int, (id, as_index()))));
        }
        let ghost ind = disk_inode@.indirect;
        fs.set_disk_inode(id_, disk_inode);
        proof {
            let r = fs.raw();
            let v = rec(r, id);
            assert(only(r0, r, id));
            lemma_frame(r0, r, id);
            assert(inode_ok(r, id, old_blocks as int)) by {
                assert forall|k: int| 0 <= k < old_blocks implies owns(
                    r,
                    #[trigger] blk(r.disk, v, k),
                    id,
                    k,
                ) by {
                    assert(owns(r0, blk(r0.disk, v0, k), id, k));
                }
            }
            assert(core_upto(r, id, old_blocks as int));
            assert forall|k: int| 0 <= k < old_blocks implies #[trigger] blk(r.disk, v, k)
                == map[k] by {
                assert(blk(r.disk, v, k) == blk(r0.disk, v0, k));
            }
        }
        // allocate extra blocks
        let mut i = old_blocks;
        while i < blocks
            invariant
                id == self.id(),
                id_ == self.id(),
                r0 == old(fs).raw(),
                core_ok(r0),
                fs.reliable() == old(fs).reliable(),
                core_upto(fs.raw(), id, i as int),
                only(r0, fs.raw(), id),
                old_blocks <= i <= blocks <= MAX_BLOCKS,
                f == tree(r0)[id],
                f.map.len() == old_blocks,
                extra == index_need(old_blocks as int, blocks as int),
                free1 == after(r0.free, extra),
                map == f.map + taken(free1, (blocks - old_blocks) as nat),
                fs.raw().free == after(free1, (i - old_blocks) as nat),
                fs.raw().sup == (Super {
                    unused: r0.sup.unused - extra - (i - old_blocks),
                    ..r0.sup
                }),
                grow_need(old_blocks as int, blocks as int) <= r0.sup.unused,
                fs.raw().cache == r0.cache.insert(
                    id,
                    Slot { inode: rec(fs.raw(), id), dirty: true, ..r0.cache[id] },
                ),
                i > old_blocks ==> fs.raw().sup_dirty && fs.raw().free_dirty,
                rec(fs.raw(), id) == (Inode {
                    direct: rec(fs.raw(), id).direct,
                    blocks: blocks as int,
                    indirect: ind,
                    ..v0
                }),
                v0 == rec(r0, id),
                forall|k: int|
                    0 <= k < i ==> #[trigger] blk(fs.raw().disk, rec(fs.raw(), id), k) == map[k],
                forall|x: int|
                    0 <= x < r0.disk.len() && !(blocks >= 12 && x == ind)
                        ==> #[trigger] fs.raw().disk[x] == r0.disk[x],
            decreases blocks - i,
        {
            proof {
                reveal(core_ok);
            }
            let ghost r1 = fs.raw();
            let block = match fs.alloc_block() {
                Some(b) => b,
                None => {
                    proof {
                        if forall|j: int| 0 <= j < r1.free.len() ==> !r1.free[j] {
                            lemma_count_zero(r1.free);
                        }
                        assert(false);
                    }
                    0
                },
            };
            let ghost r2 = fs.raw();
            proof {
                lemma_take(r1, id, i as int, block as int);
                lemma_lowest(r1.free, block as int);
                assert(r2 == take_block(r1, block as int));
                assert(r2.free =~= cleared(r1.free, block as int));
                lemma_only_trans(r0, r1, r2, id);
                assert(inode_ok(r2, id, i as int));
                if blocks >= 12 {
                    assert(owns(r2, ind, id, as_index()));
                }
            }
            match self.set_disk_block_id(fs, i as usize, block) {
                Ok(_) => {},
                Err(e) => {
                    return Err(e);
                },
            }
            fs.assign(Ghost(fs.raw().owner.insert(block as int, (id, i as int))));
            proof {
                lemma_put_block(r2, id, i as int, block as int);
                lemma_only_trans(r0, r2, fs.raw(), id);
                assert(map[i as int] == taken(free1, (blocks - old_blocks) as nat)[i - old_blocks]);
                assert(fs.raw().cache =~= r0.cache.insert(
                    id,
                    Slot { inode: rec(fs.raw(), id), dirty: true, ..r0.cache[id] },
                ));
            }
            i = i + 1;
        }
        proof {
            let r = fs.raw();
            let v = rec(r, id);
            assert(core_ok(r)) by {
                assert forall|x: int| #[trigger] live(r, x) implies inode_ok(
                    r,
                    x,
                    rec(r, x).blocks,
                ) by {
                    if x == id {
                        assert(inode_ok(r, id, blocks as int));
                    }
                }
            }
            lemma_frame(r0, r, id);
            assert(bmap(r.disk, v) =~= map);
            assert forall|p: int| 0 <= p < map.len() * 4096 implies data_of(r.disk, map)[p]
                == data_of(r0.disk, map)[p] by {
                let k = p / 4096;
                assert(owns(r, blk(r.disk, v, k), id, k));
                if blocks >= 12 {
                    assert(owns(r, ind, id, as_index()));
                }
            }
            assert(data_of(r.disk, map) =~= data_of(r0.disk, map));
            assert(node(r, id) == grown(f, r0.disk, r0.free, blocks as int));
            lemma_after_sum(r0.free, extra, (blocks - old_blocks) as nat);
        }
        Ok(())
    }

    /// Cuts the file to the given number of blocks.
    fn shrink<D: Device>(&self, fs: &mut SimpleFileSystem<D>, blocks: u32) -> (r: Result<
        (),
        FsError,
    >)
        requires
            core_ok(old(fs).raw()),
            old(fs).holds(self.id() as int),
            blocks < old(fs).tree()[self.id() as int].map.len(),
        ensures
            final(fs).device() == old(fs).device(),
            match r {
                Ok(_) => {
                    let id = self.id() as int;
                    let r0 = old(fs).raw();
                    let r1 = final(fs).raw();
                    let f = old(fs).tree()[id];
                    let s = dropped(f, blocks as int);
                    &&& core_ok(r1)
                    &&& final(fs).tree() == old(fs).tree().insert(id, shrunk(f, blocks as int))
                    &&& r1.free == freed(r0.free, s)
                    &&& r1.sup == (Super { unused: r0.sup.unused + s.len(), ..r0.sup })
                    &&& r1.cache == r0.cache.insert(
                        id,
                        Slot { inode: rec(r1, id), dirty: true, ..r0.cache[id] },
                    )
                    &&& r1.disk == r0.disk
                    &&& marks(r0, r1, true)
                },
                Err(e) => {
                    &&& e == FsError::DeviceError
                    &&& !final(fs).reliable()
                    &&& old(fs).tree()[self.id() as int].map.len() > NDIRECT
                },
            },
    {
        proof {
            reveal(core_ok);
        }
        let id_ = self.number();
        let ghost id = self.id() as int;
        let ghost r0 = fs.raw();
        let ghost f = fs.tree()[id];
        let old_blocks = fs.disk_inode(id_).blocks;
        proof {
            assert(live(r0, id));
            assert(inode_ok(r0, id, rec(r0, id).blocks));
            assert(f.map.take(old_blocks as int) =~= f.map);
            assert(f.data.take(old_blocks * 4096) =~= f.data);
            assert(fs.tree() =~= tree(r0).insert(id, f));
            assert(freed(r0.free, f.map.subrange(old_blocks as int, old_blocks as int))
                =~= r0.free);
        }
        let mut i = old_blocks;
        // free extra blocks
        while i > blocks
            invariant
                id == self.id(),
                id_ == self.id(),
                r0 == old(fs).raw(),
                core_ok(r0),
                fs.device() == old(fs).device(),
                f == old(fs).tree()[id],
                core_ok(fs.raw()),
                fs.holds(id),
                blocks <= i <= old_blocks <= MAX_BLOCKS,
                f == tree(r0)[id],
                f.map.len() == old_blocks,
                f.data.len() == old_blocks * 4096,
                forall|k: int| 0 <= k < old_blocks ==> 0 <= #[trigger] f.map[k] < 32768,
                fs.tree() == tree(r0).insert(
                    id,
                    Node { map: f.map.take(i as int), data: f.data.take(i * 4096), ..f },
                ),
                rec(fs.raw(), id) == (Inode { blocks: i as int, ..rec(r0, id) }),
                fs.raw().free == freed(
                    r0.free,
                    f.map.subrange(i as int, old_blocks as int),
                ),
                fs.raw().sup == (Super { unused: r0.sup.unused + (old_blocks - i), ..r0.sup }),
                i < old_blocks ==> fs.raw().cache == r0.cache.insert(
                    id,
                    Slot { inode: rec(fs.raw(), id), dirty: true, ..r0.cache[id] },
                ),
                i == old_blocks ==> fs.raw() == r0,
                i < old_blocks ==> fs.raw().sup_dirty && fs.raw().free_dirty,
                fs.raw().disk == r0.disk,
                old_blocks >= 12 ==> owns(fs.raw(), f.indirect, id, as_index()),
            decreases i,
        {
            proof {
                reveal(core_ok);
            }
            let ghost r1 = fs.raw();
            proof {
                lemma_held(r1, id);
                lemma_addressed(r1, id);
                lemma_drop_last(r1, id);
                lemma_count_len(r1.free);
            }
            let block = match self.get_disk_block_id(fs, i as usize - 1) {
                Ok(b) => b,
                Err(e) => {
                    return Err(e);
                },
            };
            let mut disk_inode = fs.disk_inode(id_);
            disk_inode.blocks = i - 1;
            fs.set_disk_inode(id_, disk_inode);
            fs.assign(Ghost(fs.raw().owner.remove(block as int)));
            fs.free_block(block);
            proof {
                assert(fs.raw() == crate::model::drop_block(
                    r1,
                    id,
                    block as int,
                    Inode { blocks: i - 1, ..rec(r1, id) },
                ));
                assert(tree(r1)[id].map[i - 1] == f.map[i - 1]);
                assert(block == node(r1, id).map[i - 1]);
                assert(block == f.map[i - 1]);
                lemma_freed_next(r0.free, f.map, i - 1, old_blocks as int);
                let g = Node { map: f.map.take(i - 1), data: f.data.take((i - 1) * 4096), ..f };
                assert(f.map.take(i as int).take(i - 1) =~= f.map.take(i - 1));
                assert(f.data.take(i * 4096).take((i - 1) * 4096) =~= f.data.take((i - 1) * 4096));
                assert(tree(r1).insert(id, g) =~= tree(r0).insert(id, g));
                assert(fs.raw().cache =~= r0.cache.insert(
                    id,
                    Slot { inode: rec(fs.raw(), id), dirty: true, ..r0.cache[id] },
                ));
            }
            i = i - 1;
        }
        // free indirect block if need
        if blocks < NDIRECT as u32 && old_blocks >= NDIRECT as u32 {
            let mut disk_inode = fs.disk_inode(id_);
            let block = disk_inode.indirect as usize;
            let ghost r1 = fs.raw();
            proof {
                lemma_drop_index(r1, id);
                lemma_count_len(r1.free);
                lemma_freed_push(
                    r0.free,
                    f.map.subrange(blocks as int, old_blocks as int),
                    block as int,
                );
            }
            disk_inode.indirect = 0;
            fs.set_disk_inode(id_, disk_inode);
            fs.assign(Ghost(fs.raw().owner.remove(block as int)));
            fs.free_block(block);
            proof {
                assert(fs.raw() == crate::model::drop_block(
                    r1,
                    id,
                    block as int,
                    Inode { indirect: 0, ..rec(r1, id) },
                ));
                let g = shrunk(f, blocks as int);
                assert(live(r1, id));
                assert(node(r1, id) == tree(r1)[id]);
                assert(tree(r1).insert(id, g) =~= tree(r0).insert(id, g));
                assert(fs.raw().cache =~= r0.cache.insert(
                    id,
                    Slot { inode: rec(fs.raw(), id), dirty: true, ..r0.cache[id] },
                ));
            }
        }
        Ok(())
    }

    /// Set the ucore compat size of this inode,
    /// Size in inode for dir is size of entries
    pub(crate) fn _set_size<D: Device>(&self, fs: &mut SimpleFileSystem<D>, len: usize)
        requires
            core_ok(old(fs).raw()),
            old(fs).holds(self.id() as int),
            len <= u32::MAX,
        ensures
            final(fs).device() == old(fs).device(),
            core_ok(final(fs).raw()),
            ({
                let id = self.id() as int;
                let f = old(fs).tree()[id];
                let v = rec(old(fs).raw(), id);
                let size = size_field(f.kind, f.map.len() as int, len as int);
                &&& final(fs).raw() == put_inode(old(fs).raw(), id, Inode { size, ..v })
                &&& final(fs).tree() == old(fs).tree().insert(id, Node { size, ..f })
            }),
    {
        let mut disk_inode = fs.disk_inode(self.number());
        proof {
            lemma_held(fs.raw(), self.id() as int);
        }
        disk_inode.size = match disk_inode.type_ {
            FileType::Dir => (disk_inode.blocks as usize * DIRENT_SIZE) as u32,
            _ => len as u32,
        };
        proof {
            lemma_put_meta(fs.raw(), self.id() as int, disk_inode@);
        }
        fs.set_disk_inode(self.number(), disk_inode);
    }

    /// Resize content size, no matter what type it is.
    pub(crate) fn _resize<D: Device>(&self, fs: &mut SimpleFileSystem<D>, len: usize) -> (r: Result<
        (),
        FsError,
    >)
        requires
            core_ok(old(fs).raw()),
            old(fs).holds(self.id() as int),
            len > MAX_FILE_SIZE || fits(
                old(fs).tree()[self.id() as int],
                old(fs).raw().sup.unused,
                len as int,
            ),
        ensures
            final(fs).reliable() == old(fs).reliable(),
            blocks_for(len as int) <= old(fs).tree()[self.id() as int].map.len()
                ==> final(fs).device() == old(fs).device(),
            match r {
                Ok(_) => {
                    let id = self.id() as int;
                    let r0 = old(fs).raw();
                    let r1 = final(fs).raw();
                    let f = old(fs).tree()[id];
                    &&& len <= MAX_FILE_SIZE
                    &&& core_ok(r1)
                    &&& final(fs).tree() == old(fs).tree().insert(
                        id,
                        resized(f, r0.disk, r0.free, len as int),
                    )
                    &&& r1.free == free_resized(f, r0.free, len as int)
                    &&& r1.sup == (Super {
                        unused: unused_resized(f, r0.sup.unused, len as int),
                        ..r0.sup
                    })
                    &&& r1.cache == r0.cache.insert(
                        id,
                        Slot { inode: rec(r1, id), dirty: true, ..r0.cache[id] },
                    )
                    &&& blocks_for(len as int) <= f.map.len() ==> r1.disk == r0.disk
                    &&& keeps(r0, r1, body(resized(f, r0.disk, r0.free, len as int)))
                    &&& marks(r0, r1, blocks_for(len as int) != f.map.len())
                },
                Err(FsError::InvalidParam) => {
                    &&& len > MAX_FILE_SIZE
                    &&& final(fs).raw() == old(fs).raw()
                    &&& final(fs).device() == old(fs).device()
                },
                Err(e) => {
                    &&& e == FsError::DeviceError
                    &&& !final(fs).reliable()
                    &&& len <= MAX_FILE_SIZE
                    &&& resize_transfers(old(fs).tree()[self.id() as int], len as int)
                },
            },
    {
        if len > MAX_FILE_SIZE {
            return Err(FsError::InvalidParam);
        }
        let ghost id = self.id() as int;
        let ghost r0 = fs.raw();
        let ghost f = fs.tree()[id];
        let blocks = ((len + BLKSIZE - 1) / BLKSIZE) as u32;
        let old_blocks = fs.disk_inode(self.number()).blocks;
        proof {
            lemma_held(r0, id);
        }
        if blocks > old_blocks {
            match self.grow(fs, blocks) {
                Ok(_) => {},
                Err(e) => {
                    return Err(e);
                },
            }
            // clean up
            let old_size = self._size(fs);
            let ghost g1 = fs.tree()[id];
            self._set_size(fs, len);
            let ghost g2 = fs.tree()[id];
            match self._clean_at(fs, old_size, len) {
                Ok(n) => {
                    proof {
                        if n == 0 {
                            assert(written(g2, old_size as int, zeros(0)).data =~= g2.data);
                        }
                    }
                },
                Err(e) => {
                    return Err(e);
                },
            }
        } else if blocks < old_blocks {
            match self.shrink(fs, blocks) {
                Ok(_) => {},
                Err(e) => {
                    return Err(e);
                },
            }
        } else {
            assert(fs.tree() =~= tree(r0).insert(id, f));
        }
        self._set_size(fs, len);
        proof {
            let g = resized(f, r0.disk, r0.free, len as int);
            assert(fs.tree()[id] == g);
            assert(fs.tree() =~= tree(r0).insert(id, g));
            assert(fs.raw().cache =~= r0.cache.insert(
                id,
                Slot { inode: rec(fs.raw(), id), dirty: true, ..r0.cache[id] },
            ));
        }
        Ok(())
    }
}

} // verus!

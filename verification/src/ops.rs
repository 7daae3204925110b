//! What can be done with a file.

use vstd::prelude::*;
use vstd::string::StringSliceAdditionalSpecFns;

use crate::codec::splice;
use crate::device::Device;
use crate::dir::{entry_fits, new_dir};
use crate::dirty::Dirty;
use crate::freemap::{
    after, freed, lemma_after_sum, lemma_count_len, lemma_count_zero, lemma_freed_push,
    lemma_lowest, lowest, taken,
};
use crate::fs::{INodeImpl, SimpleFileSystem};
use crate::inode::{
    blocks_for, dropped, fits, free_resized, resize_transfers, resized, unused_resized, within,
    written,
};
use crate::model::{
    body, core_ok, free_inode, fresh_node, handles, inode_synced, keeps, lemma_flag,
    lemma_free_inode, lemma_held, lemma_load, lemma_new_inode, lemma_spared, lemma_store_inode,
    lemma_unload, marks, new_inode, rec, spared, store_inode, tree, Node, Raw, Slot,
};
use crate::structs::{
    inode_at, inode_bytes, DiskINode, FileType, INodeId, Super, BLKSIZE, INODE_LEN, MAX_BLOCKS,
    MAX_FILE_SIZE, NDIRECT,
};
use crate::tree::{lemma_file_ok, lemma_gone, lemma_tree_node, node_ok};
use crate::vfs::{self, outer_type, FsError, Metadata, Timespec};

verus! {

/// Nothing at all is changed, and the device is not written.
pub open spec fn same_fs<D: Device>(a: SimpleFileSystem<D>, b: SimpleFileSystem<D>) -> bool {
    b.raw() == a.raw() && b.device() == a.device()
}

/// The block of inode `id` holds the bytes of the inode if it was marked as changed; all that lies
/// behind them is as it was, and so is the whole block if the inode was not marked.
pub open spec fn inode_stored(r: Raw, s: Raw, id: int) -> bool {
    &&& s.disk[id] == if r.cache[id].dirty {
        splice(r.disk[id], 0, inode_bytes(r.cache[id].inode))
    } else {
        r.disk[id]
    }
    &&& forall|p: int| INODE_LEN <= p < BLKSIZE ==> #[trigger] s.disk[id][p] == r.disk[id][p]
}

impl INodeImpl {
    /// Writes the inode back if it has changed.
    pub fn sync_all<D: Device>(&self, fs: &mut SimpleFileSystem<D>) -> (r: Result<(), FsError>)
        requires
            core_ok(old(fs).raw()),
            old(fs).holds(self.id() as int),
        ensures
            final(fs).reliable() == old(fs).reliable(),
            match r {
                Ok(_) => {
                    let id = self.id() as int;
                    let r0 = old(fs).raw();
                    let r1 = final(fs).raw();
                    &&& core_ok(r1)
                    &&& final(fs).tree() == old(fs).tree()
                    &&& final(fs).handles() == old(fs).handles()
                    &&& r1 == inode_synced(r0, id)
                    &&& inode_at(r1.disk[id], 0) == rec(r0, id)
                    &&& inode_stored(r0, r1, id)
                    &&& r0.cache[id].dirty ==> final(fs).device().contents() == splice(
                        old(fs).device().contents(),
                        id * BLKSIZE,
                        inode_bytes(rec(r0, id)),
                    )
                    &&& !r0.cache[id].dirty ==> same_fs(*old(fs), *final(fs))
                },
                Err(e) => {
                    &&& e == FsError::DeviceError
                    &&& !final(fs).reliable()
                    &&& old(fs).raw().cache[self.id() as int].dirty
                },
            },
    {
        let ghost id = self.id() as int;
        let ghost r0 = fs.raw();
        proof {
            lemma_held(r0, id);
        }
        if fs.inode_dirty(self.number()) {
            let buf = fs.disk_inode(self.number()).as_buf();
            proof {
                lemma_store_inode(r0, id, buf@);
            }
            match fs.store(self.number(), 0, buf.as_slice()) {
                Ok(_) => {},
                Err(e) => {
                    return Err(e);
                },
            }
            fs.sync_disk_inode(self.number());
            assert(fs.raw() == store_inode(r0, id, buf@));
            assert(fs.raw().disk =~= r0.disk.update(id, fs.raw().disk[id]));
            assert(fs.handles() =~= handles(r0));
        } else {
            assert(r0.disk.update(id, r0.disk[id]) =~= r0.disk);
            assert(r0.cache.insert(id, Slot { dirty: false, ..r0.cache[id] }) =~= r0.cache);
        }
        Ok(())
    }

    /// Writes the inode back if it has changed.
    pub fn sync_data<D: Device>(&self, fs: &mut SimpleFileSystem<D>) -> (r: Result<(), FsError>)
        requires
            core_ok(old(fs).raw()),
            old(fs).holds(self.id() as int),
        ensures
            final(fs).reliable() == old(fs).reliable(),
            match r {
                Ok(_) => {
                    let id = self.id() as int;
                    let r0 = old(fs).raw();
                    let r1 = final(fs).raw();
                    &&& core_ok(r1)
                    &&& final(fs).tree() == old(fs).tree()
                    &&& final(fs).handles() == old(fs).handles()
                    &&& r1 == inode_synced(r0, id)
                    &&& inode_at(r1.disk[id], 0) == rec(r0, id)
                    &&& inode_stored(r0, r1, id)
                    &&& r0.cache[id].dirty ==> final(fs).device().contents() == splice(
                        old(fs).device().contents(),
                        id * BLKSIZE,
                        inode_bytes(rec(r0, id)),
                    )
                    &&& !r0.cache[id].dirty ==> same_fs(*old(fs), *final(fs))
                },
                Err(e) => {
                    &&& e == FsError::DeviceError
                    &&& !final(fs).reliable()
                    &&& old(fs).raw().cache[self.id() as int].dirty
                },
            },
    {
        self.sync_all(fs)
    }

    /// Gives the handle back. With the last handle the inode is written back and leaves memory; if
    /// no entry names it any more, its blocks are freed.
    pub fn drop<D: Device>(self, fs: &mut SimpleFileSystem<D>) -> (r: Result<(), FsError>)
        requires
            old(fs).wf(),
            old(fs).holds(self.id() as int),
        ensures
            final(fs).reliable() == old(fs).reliable(),
            match r {
                Ok(_) => {
                    let id = self.id() as int;
                    let r0 = old(fs).raw();
                    let r1 = final(fs).raw();
                    let f = old(fs).tree()[id];
                    &&& final(fs).wf()
                    &&& keeps(r0, r1, Set::<int>::empty().insert(id))
                    &&& spared(r0, r1)
                    &&& final(fs).handles() == if r0.cache[id].refs > 1 {
                        old(fs).handles().insert(id, (r0.cache[id].refs - 1) as nat)
                    } else {
                        old(fs).handles().remove(id)
                    }
                    &&& if r0.cache[id].refs > 1 {
                        r1 == (Raw {
                            cache: r0.cache.insert(
                                id,
                                Slot { refs: (r0.cache[id].refs - 1) as nat, ..r0.cache[id] },
                            ),
                            ..r0
                        }) && final(fs).tree() == old(fs).tree() && final(fs).device() == old(
                            fs,
                        ).device()
                    } else if f.nlinks > 0 {
                        &&& inode_at(r1.disk[id], 0) == rec(r0, id)
                        &&& r1 == (Raw {
                            disk: r0.disk.update(id, r1.disk[id]),
                            cache: r0.cache.remove(id),
                            ..r0
                        })
                        &&& final(fs).tree() == old(fs).tree()
                        &&& inode_stored(r0, r1, id)
                        &&& !r0.cache[id].dirty ==> final(fs).device() == old(fs).device()
                    } else {
                        &&& r1.cache == r0.cache.remove(id)
                        &&& r1.disk == r0.disk.update(id, r1.disk[id])
                        &&& inode_stored(r0, r1, id)
                        &&& !r0.cache[id].dirty ==> final(fs).device() == old(fs).device()
                        &&& final(fs).tree() == old(fs).tree().remove(id)
                        &&& r1.free == freed(r0.free, dropped(f, 0).push(id))
                        &&& r1.sup == (Super {
                            unused: r0.sup.unused + dropped(f, 0).len() + 1,
                            ..r0.sup
                        })
                        &&& marks(r0, r1, true)
                    }
                },
                Err(e) => {
                    &&& e == FsError::DeviceError
                    &&& !final(fs).reliable()
                    &&& old(fs).raw().cache[self.id() as int].refs == 1
                    &&& old(fs).raw().cache[self.id() as int].dirty || (old(
                        fs,
                    ).tree()[self.id() as int].nlinks == 0 && old(
                        fs,
                    ).tree()[self.id() as int].map.len() > NDIRECT)
                },
            },
    {
        let id_ = self.number();
        let ghost id = self.id() as int;
        let ghost r0 = fs.raw();
        let ghost t0 = fs.tree();
        proof {
            lemma_held(r0, id);
        }
        if fs.refs(id_) > 1 {
            proof {
                lemma_load(r0, id, (r0.cache[id].refs - 1) as nat);
            }
            fs.release(id_);
            assert(fs.handles() =~= handles(r0).insert(id, (r0.cache[id].refs - 1) as nat));
            return Ok(());
        }
        match self.sync_all(fs) {
            Ok(_) => {},
            Err(e) => {
                return Err(e);
            },
        }
        let ghost r1 = fs.raw();
        if fs.disk_inode(id_).nlinks == 0 {
            match self._resize(fs, 0) {
                Ok(_) => {},
                Err(e) => {
                    return Err(e);
                },
            }
            let ghost r2 = fs.raw();
            proof {
                let f = t0[id];
                if f.map.len() == 0 {
                    assert(freed(r0.free, dropped(f, 0)) =~= r0.free);
                }
                lemma_gone(t0, id);
                lemma_held(r2, id);
                lemma_free_inode(r2, id);
                lemma_freed_push(r0.free, dropped(f, 0), id);
                lemma_count_len(r2.free);
                assert(tree(r2).remove(id) =~= t0.remove(id));
                assert(r2.cache.remove(id) =~= r0.cache.remove(id));
            }
            fs.assign(Ghost(fs.raw().owner.remove(id)));
            fs.free_block(id_);
            fs.forget(id_);
            assert(fs.raw() == free_inode(r2, id));
        } else {
            proof {
                lemma_unload(r1, id);
                assert(r1.cache.remove(id) =~= r0.cache.remove(id));
            }
            fs.forget(id_);
        }
        assert(fs.handles() =~= handles(r0).remove(id));
        Ok(())
    }
}

impl<D: Device> SimpleFileSystem<D> {
    /// Makes an inode of the given kind on the lowest free block.
    fn new_inode_of(&mut self, kind: FileType) -> (r: Result<INodeImpl, FsError>)
        requires
            core_ok(old(self).raw()),
            kind != FileType::Invalid,
        ensures
            final(self).device() == old(self).device(),
            core_ok(final(self).raw()),
            match r {
                Ok(h) => {
                    let b = lowest(old(self).raw().free);
                    &&& h.id() == b
                    &&& 3 <= b < old(self).raw().sup.blocks
                    &&& old(self).raw().sup.unused > 0
                    &&& !old(self).tree().contains_key(b)
                    &&& !old(self).holds(b)
                    &&& final(self).raw() == new_inode(old(self).raw(), b, kind)
                    &&& final(self).raw().free == after(old(self).raw().free, 1)
                    &&& final(self).tree() == old(self).tree().insert(b, fresh_node(kind))
                    &&& final(self).handles() == old(self).handles().insert(b, 1)
                },
                Err(e) => {
                    &&& e == FsError::NoDeviceSpace
                    &&& old(self).raw().sup.unused == 0
                    &&& final(self).raw() == (Raw { free_dirty: true, ..old(self).raw() })
                    &&& final(self).tree() == old(self).tree()
                },
            },
    {
        let ghost r0 = self.raw();
        let id = match self.alloc_block() {
            Some(id) => id,
            None => {
                proof {
                    reveal(core_ok);
                    lemma_flag(r0);
                    if r0.sup.unused != 0 {
                        lemma_count_zero(r0.free);
                    }
                }
                return Err(FsError::NoDeviceSpace);
            },
        };
        proof {
            lemma_lowest(r0.free, id as int);
            lemma_new_inode(r0, id as int, kind);
            assert(r0.free.update(id as int, false) =~= after(r0.free, 1)) by {
                assert(after(r0.free, 0) == r0.free);
            }
        }
        self.assign(Ghost(self.raw().owner.insert(id as int, (id as int, -2))));
        let disk_inode = match kind {
            FileType::Dir => DiskINode::new_dir(),
            FileType::SymLink => DiskINode::new_symlink(),
            _ => DiskINode::new_file(),
        };
        let h = self._new_inode(id, Dirty::new_dirty(disk_inode));
        assert(self.raw() == new_inode(r0, id as int, kind));
        assert(self.handles() =~= handles(r0).insert(id as int, 1));
        Ok(h)
    }

    /// Create a new INode file
    pub(crate) fn new_inode_file(&mut self) -> (r: Result<INodeImpl, FsError>)
        requires
            core_ok(old(self).raw()),
        ensures
            final(self).device() == old(self).device(),
            core_ok(final(self).raw()),
            match r {
                Ok(h) => {
                    let b = lowest(old(self).raw().free);
                    &&& h.id() == b
                    &&& 3 <= b < old(self).raw().sup.blocks
                    &&& old(self).raw().sup.unused > 0
                    &&& !old(self).tree().contains_key(b)
                    &&& !old(self).holds(b)
                    &&& final(self).raw() == new_inode(old(self).raw(), b, FileType::File)
                    &&& final(self).raw().free == after(old(self).raw().free, 1)
                    &&& final(self).tree() == old(self).tree().insert(
                        b,
                        fresh_node(FileType::File),
                    )
                    &&& final(self).handles() == old(self).handles().insert(b, 1)
                },
                Err(e) => {
                    &&& e == FsError::NoDeviceSpace
                    &&& old(self).raw().sup.unused == 0
                    &&& final(self).raw() == (Raw { free_dirty: true, ..old(self).raw() })
                    &&& final(self).tree() == old(self).tree()
                },
            },
    {
        self.new_inode_of(FileType::File)
    }

    /// Create a new INode symlink
    pub(crate) fn new_inode_symlink(&mut self) -> (r: Result<INodeImpl, FsError>)
        requires
            core_ok(old(self).raw()),
        ensures
            final(self).device() == old(self).device(),
            core_ok(final(self).raw()),
            match r {
                Ok(h) => {
                    let b = lowest(old(self).raw().free);
                    &&& h.id() == b
                    &&& 3 <= b < old(self).raw().sup.blocks
                    &&& old(self).raw().sup.unused > 0
                    &&& !old(self).tree().contains_key(b)
                    &&& !old(self).holds(b)
                    &&& final(self).raw() == new_inode(old(self).raw(), b, FileType::SymLink)
                    &&& final(self).raw().free == after(old(self).raw().free, 1)
                    &&& final(self).tree() == old(self).tree().insert(
                        b,
                        fresh_node(FileType::SymLink),
                    )
                    &&& final(self).handles() == old(self).handles().insert(b, 1)
                },
                Err(e) => {
                    &&& e == FsError::NoDeviceSpace
                    &&& old(self).raw().sup.unused == 0
                    &&& final(self).raw() == (Raw { free_dirty: true, ..old(self).raw() })
                    &&& final(self).tree() == old(self).tree()
                },
            },
    {
        self.new_inode_of(FileType::SymLink)
    }

    /// Create a new INode dir
    pub(crate) fn new_inode_dir(&mut self, parent: INodeId) -> (r: Result<INodeImpl, FsError>)
        requires
            core_ok(old(self).raw()),
            parent <= u32::MAX,
            old(self).raw().sup.unused == 0 || old(self).raw().sup.unused >= 3,
        ensures
            final(self).reliable() == old(self).reliable(),
            match r {
                Ok(h) => {
                    let b = lowest(old(self).raw().free);
                    let r0 = old(self).raw();
                    let r1 = final(self).raw();
                    let g = final(self).tree()[b];
                    &&& core_ok(r1)
                    &&& h.id() == b
                    &&& 3 <= b < r0.sup.blocks
                    &&& r0.sup.unused > 0
                    &&& !old(self).tree().contains_key(b)
                    &&& !old(self).holds(b)
                    &&& final(self).tree() == old(self).tree().insert(b, g)
                    &&& new_dir(g, b, parent as int, taken(after(r0.free, 1), 2), 0, 0)
                    &&& keeps(r0, r1, body(g))
                    &&& marks(r0, r1, true)
                    &&& r1.free == after(r0.free, 3)
                    &&& r1.sup == (Super { unused: r0.sup.unused - 3, ..r0.sup })
                    &&& r1.cache == r0.cache.insert(
                        b,
                        Slot { inode: rec(r1, b), dirty: true, refs: 1 },
                    )
                    &&& final(self).handles() == old(self).handles().insert(b, 1)
                },
                Err(FsError::NoDeviceSpace) => {
                    &&& old(self).raw().sup.unused == 0
                    &&& core_ok(final(self).raw())
                    &&& final(self).raw() == (Raw { free_dirty: true, ..old(self).raw() })
                    &&& final(self).tree() == old(self).tree()
                    &&& final(self).device() == old(self).device()
                },
                Err(e) => e == FsError::DeviceError && !final(self).reliable(),
            },
    {
        let ghost r0 = self.raw();
        let inode = match self.new_inode_of(FileType::Dir) {
            Ok(inode) => inode,
            Err(e) => {
                return Err(e);
            },
        };
        let ghost r1 = self.raw();
        match inode.init_dir_entry(self, parent) {
            Ok(_) => {},
            Err(e) => {
                return Err(e);
            },
        }
        proof {
            let b = lowest(r0.free);
            lemma_after_sum(r0.free, 1, 2);
            assert(self.tree() =~= tree(r0).insert(b, self.tree()[b]));
            assert(self.raw().cache =~= r0.cache.insert(
                b,
                Slot { inode: rec(self.raw(), b), dirty: true, refs: 1 },
            ));
            assert(self.handles() =~= handles(r0).insert(b, 1));
        }
        Ok(inode)
    }
}

/// Nothing is changed but, perhaps, what is marked as stored.
pub open spec fn unchanged(r: Raw, s: Raw) -> bool {
    tree(s) == tree(r) && handles(s) == handles(r) && s.free == r.free && s.sup == r.sup
}

/// The file may be given `end` bytes by a write: where nothing else stands against it, there is room
/// for them.
pub open spec fn may_extend(f: Node, unused: int, end: int) -> bool {
    f.kind != FileType::Dir && f.size < end <= MAX_FILE_SIZE ==> fits(f, unused, end)
}

/// The size of the file may be set: where nothing else stands against it, there is room for it.
pub open spec fn may_resize(f: Node, unused: int, len: int) -> bool {
    f.kind != FileType::Dir && len <= MAX_FILE_SIZE ==> fits(f, unused, len)
}

/// A file after a write has made room for the bytes up to `end`.
pub open spec fn extended(f: Node, disk: Seq<Seq<u8>>, free: Seq<bool>, end: int) -> Node {
    if f.size < end {
        resized(f, disk, free, end)
    } else {
        f
    }
}

/// A file with data keeps its form when its size is set.
proof fn lemma_resized_ok(id: int, f: Node, disk: Seq<Seq<u8>>, free: Seq<bool>, len: int)
    requires
        node_ok(id, f),
        f.kind != FileType::Dir,
        0 <= len,
        blocks_for(len) <= MAX_BLOCKS,
    ensures
        node_ok(id, resized(f, disk, free, len)),
        resized(f, disk, free, len).kind == f.kind,
        resized(f, disk, free, len).nlinks == f.nlinks,
        resized(f, disk, free, len).size == len,
{
}

impl INodeImpl {
    /// Reads the file from `offset` on; returns how many bytes were read.
    pub fn read_at<D: Device>(&self, fs: &SimpleFileSystem<D>, offset: usize, buf: &mut [u8]) -> (r:
        Result<usize, FsError>)
        requires
            fs.wf(),
            fs.holds(self.id() as int),
            offset + old(buf)@.len() <= usize::MAX,
        ensures
            final(buf)@.len() == old(buf)@.len(),
            ({
                let f = fs.tree()[self.id() as int];
                match r {
                    Ok(n) => {
                        &&& f.kind != FileType::Dir
                        &&& n == within(f.size, offset as int, old(buf)@.len() as int)
                        &&& forall|i: int|
                            0 <= i < old(buf)@.len() ==> #[trigger] final(buf)@[i] == if i < n {
                                f.data[offset + i]
                            } else {
                                old(buf)@[i]
                            }
                    },
                    Err(FsError::NotFile) => f.kind == FileType::Dir && final(buf)@ == old(buf)@,
                    Err(e) => {
                        &&& e == FsError::DeviceError
                        &&& !fs.reliable()
                        &&& f.kind != FileType::Dir
                        &&& within(f.size, offset as int, old(buf)@.len() as int) > 0
                    },
                }
            }),
    {
        proof {
            lemma_held(fs.raw(), self.id() as int);
            lemma_tree_node(fs.tree(), self.id() as int);
        }
        let type_ = fs.disk_inode(self.number()).type_;
        if type_ != FileType::File && type_ != FileType::SymLink {
            return Err(FsError::NotFile);
        }
        self._read_at(fs, offset, buf)
    }

    /// Writes `buf` into the file from `offset` on; the file grows where it is too short.
    pub fn write_at<D: Device>(
        &self,
        fs: &mut SimpleFileSystem<D>,
        offset: usize,
        buf: &[u8],
    ) -> (r: Result<usize, FsError>)
        requires
            old(fs).wf(),
            old(fs).holds(self.id() as int),
            offset + buf@.len() <= usize::MAX,
            may_extend(
                old(fs).tree()[self.id() as int],
                old(fs).raw().sup.unused,
                offset + buf@.len(),
            ),
        ensures
            final(fs).reliable() == old(fs).reliable(),
            ({
                let id = self.id() as int;
                let r0 = old(fs).raw();
                let r1 = final(fs).raw();
                let f = old(fs).tree()[id];
                let end = offset + buf@.len();
                match r {
                    Ok(n) => {
                        &&& f.kind != FileType::Dir
                        &&& f.size >= end || end <= MAX_FILE_SIZE
                        &&& n == buf@.len()
                        &&& n == 0 && (f.size >= end || blocks_for(end) <= f.map.len())
                            ==> final(fs).device() == old(fs).device()
                        &&& keeps(r0, r1, body(final(fs).tree()[id]))
                        &&& spared(r0, r1)
                        &&& final(fs).wf()
                        &&& final(fs).tree() == old(fs).tree().insert(
                            id,
                            written(extended(f, r0.disk, r0.free, end), offset as int, buf@),
                        )
                        &&& final(fs).handles() == old(fs).handles()
                        &&& r1.free == if f.size < end {
                            free_resized(f, r0.free, end)
                        } else {
                            r0.free
                        }
                        &&& r1.sup == if f.size < end {
                            Super { unused: unused_resized(f, r0.sup.unused, end), ..r0.sup }
                        } else {
                            r0.sup
                        }
                        &&& r1.cache == if f.size < end {
                            r0.cache.insert(
                                id,
                                Slot { inode: rec(r1, id), dirty: true, ..r0.cache[id] },
                            )
                        } else {
                            r0.cache
                        }
                        &&& marks(r0, r1, f.size < end && blocks_for(end) != f.map.len())
                    },
                    Err(FsError::NotFile) => {
                        f.kind == FileType::Dir && same_fs(*old(fs), *final(fs))
                    },
                    Err(FsError::InvalidParam) => {
                        &&& f.kind != FileType::Dir
                        &&& f.size < end
                        &&& end > MAX_FILE_SIZE
                        &&& same_fs(*old(fs), *final(fs))
                    },
                    Err(e) => {
                        &&& e == FsError::DeviceError
                        &&& !final(fs).reliable()
                        &&& f.kind != FileType::Dir
                        &&& f.size >= end || end <= MAX_FILE_SIZE
                        &&& buf@.len() > 0 || (f.size < end && resize_transfers(f, end))
                    },
                }
            }),
    {
        let ghost id = self.id() as int;
        let ghost r0 = fs.raw();
        let ghost t0 = fs.tree();
        let ghost f = fs.tree()[id];
        proof {
            lemma_held(r0, id);
            lemma_tree_node(t0, id);
        }
        let disk_inode = fs.disk_inode(self.number());
        if disk_inode.type_ != FileType::File && disk_inode.type_ != FileType::SymLink {
            return Err(FsError::NotFile);
        }
        // resize if not large enough
        let end_offset = offset + buf.len();
        if (disk_inode.size as usize) < end_offset {
            match self._resize(fs, end_offset) {
                Ok(_) => {},
                Err(e) => {
                    return Err(e);
                },
            }
            proof {
                lemma_resized_ok(id, f, r0.disk, r0.free, end_offset as int);
            }
        }
        let ghost g = extended(f, r0.disk, r0.free, end_offset as int);
        assert(fs.tree()[id] == g);
        match self._write_at(fs, offset, buf) {
            Ok(n) => {
                proof {
                    assert(buf@.take(n as int) =~= buf@);
                    let h = written(g, offset as int, buf@);
                    assert(node_ok(id, h));
                    lemma_file_ok(t0, id, h);
                    assert(fs.tree() =~= t0.insert(id, h));
                    assert(fs.handles() =~= handles(r0));
                    lemma_spared(r0, fs.raw(), id, id, id);
                }
                Ok(n)
            },
            Err(e) => Err(e),
        }
    }

    /// the size returned here is logical size(entry num for directory), not the disk space used.
    pub fn metadata<D: Device>(&self, fs: &SimpleFileSystem<D>) -> (r: Result<Metadata, FsError>)
        requires
            core_ok(fs.raw()),
            fs.holds(self.id() as int),
        ensures
            r == Ok::<Metadata, FsError>(metadata_of(self.id(), fs.tree()[self.id() as int])),
            r->Ok_0.nlinks == fs.tree()[self.id() as int].nlinks,
    {
        let disk_inode = fs.disk_inode(self.number());
        proof {
            lemma_held(fs.raw(), self.id() as int);
        }
        Ok(
            Metadata {
                dev: 0,
                inode: self.number(),
                size: match disk_inode.type_ {
                    FileType::Dir => disk_inode.blocks as usize,
                    _ => disk_inode.size as usize,
                },
                mode: 0o777,
                type_: vfs::FileType::from(disk_inode.type_),
                blocks: disk_inode.blocks as usize,
                atime: Timespec { sec: 0, nsec: 0 },
                mtime: Timespec { sec: 0, nsec: 0 },
                ctime: Timespec { sec: 0, nsec: 0 },
                nlinks: disk_inode.nlinks as usize,
                uid: 0,
                gid: 0,
                blk_size: BLKSIZE,
            },
        )
    }

    /// Permission bits are not kept: nothing changes.
    pub fn chmod(&self, _mode: u16) -> (r: Result<(), FsError>)
        ensures
            r == Ok::<(), FsError>(()),
    {
        Ok(())
    }

    /// Sets the size of the file.
    pub fn resize<D: Device>(&self, fs: &mut SimpleFileSystem<D>, len: usize) -> (r: Result<
        (),
        FsError,
    >)
        requires
            old(fs).wf(),
            old(fs).holds(self.id() as int),
            may_resize(
                old(fs).tree()[self.id() as int],
                old(fs).raw().sup.unused,
                len as int,
            ),
        ensures
            final(fs).reliable() == old(fs).reliable(),
            blocks_for(len as int) <= old(fs).tree()[self.id() as int].map.len()
                ==> final(fs).device() == old(fs).device(),
            ({
                let id = self.id() as int;
                let r0 = old(fs).raw();
                let r1 = final(fs).raw();
                let f = old(fs).tree()[id];
                match r {
                    Ok(_) => {
                        &&& f.kind != FileType::Dir
                        &&& len <= MAX_FILE_SIZE
                        &&& final(fs).wf()
                        &&& final(fs).tree() == old(fs).tree().insert(
                            id,
                            resized(f, r0.disk, r0.free, len as int),
                        )
                        &&& final(fs).handles() == old(fs).handles()
                        &&& r1.free == free_resized(f, r0.free, len as int)
                        &&& r1.sup == (Super {
                            unused: unused_resized(f, r0.sup.unused, len as int),
                            ..r0.sup
                        })
                        &&& keeps(r0, r1, body(final(fs).tree()[id]))
                        &&& spared(r0, r1)
                        &&& r1.cache == r0.cache.insert(
                            id,
                            Slot { inode: rec(r1, id), dirty: true, ..r0.cache[id] },
                        )
                        &&& marks(r0, r1, blocks_for(len as int) != f.map.len())
                    },
                    Err(FsError::NotFile) => {
                        f.kind == FileType::Dir && same_fs(*old(fs), *final(fs))
                    },
                    Err(FsError::InvalidParam) => {
                        &&& f.kind != FileType::Dir
                        &&& len > MAX_FILE_SIZE
                        &&& same_fs(*old(fs), *final(fs))
                    },
                    Err(e) => {
                        &&& e == FsError::DeviceError
                        &&& !final(fs).reliable()
                        &&& f.kind != FileType::Dir
                        &&& len <= MAX_FILE_SIZE
                        &&& resize_transfers(f, len as int)
                    },
                }
            }),
    {
        let ghost id = self.id() as int;
        let ghost r0 = fs.raw();
        let ghost t0 = fs.tree();
        let ghost f = fs.tree()[id];
        proof {
            lemma_held(r0, id);
            lemma_tree_node(t0, id);
        }
        let type_ = fs.disk_inode(self.number()).type_;
        if type_ != FileType::File && type_ != FileType::SymLink {
            return Err(FsError::NotFile);
        }
        match self._resize(fs, len) {
            Ok(_) => {
                proof {
                    lemma_resized_ok(id, f, r0.disk, r0.free, len as int);
                    lemma_file_ok(t0, id, resized(f, r0.disk, r0.free, len as int));
                    assert(fs.handles() =~= handles(r0));
                    lemma_spared(r0, fs.raw(), id, id, id);
                }
                Ok(())
            },
            Err(e) => Err(e),
        }
    }
}

impl INodeImpl {
    /// Whether the file can take `len` bytes.
    pub fn fits_len<D: Device>(&self, fs: &SimpleFileSystem<D>, len: usize) -> (r: bool)
        requires
            core_ok(fs.raw()),
            fs.holds(self.id() as int),
        ensures
            r == fits(fs.tree()[self.id() as int], fs.raw().sup.unused, len as int),
    {
        proof {
            lemma_held(fs.raw(), self.id() as int);
        }
        let old_blocks = fs.disk_inode(self.number()).blocks as usize;
        let blocks = len / BLKSIZE + if len % BLKSIZE == 0 {
            0
        } else {
            1
        };
        if blocks > MAX_BLOCKS {
            return false;
        }
        if blocks <= old_blocks {
            return true;
        }
        let index: usize = if old_blocks < NDIRECT && blocks >= NDIRECT {
            1
        } else {
            0
        };
        blocks - old_blocks + index <= fs.unused_blocks()
    }

    /// Whether `write_at` may be called for bytes up to `end`.
    pub fn can_extend<D: Device>(&self, fs: &SimpleFileSystem<D>, end: usize) -> (r: bool)
        requires
            core_ok(fs.raw()),
            fs.holds(self.id() as int),
        ensures
            r == may_extend(fs.tree()[self.id() as int], fs.raw().sup.unused, end as int),
    {
        proof {
            lemma_held(fs.raw(), self.id() as int);
        }
        let info = fs.disk_inode(self.number());
        info.type_ == FileType::Dir || info.size as usize >= end || end > MAX_FILE_SIZE
            || self.fits_len(fs, end)
    }

    /// Whether `resize` may be called.
    pub fn can_resize<D: Device>(&self, fs: &SimpleFileSystem<D>, len: usize) -> (r: bool)
        requires
            core_ok(fs.raw()),
            fs.holds(self.id() as int),
        ensures
            r == may_resize(fs.tree()[self.id() as int], fs.raw().sup.unused, len as int),
    {
        proof {
            lemma_held(fs.raw(), self.id() as int);
        }
        fs.disk_inode(self.number()).type_ == FileType::Dir || len > MAX_FILE_SIZE
            || self.fits_len(fs, len)
    }

    /// Whether the directory can take one entry more with `spared` free blocks left untouched.
    pub fn fits_entry<D: Device>(&self, fs: &SimpleFileSystem<D>, spared: usize) -> (r: bool)
        requires
            core_ok(fs.raw()),
            fs.holds(self.id() as int),
        ensures
            r == entry_fits(fs.tree()[self.id() as int], fs.raw().sup.unused - spared),
    {
        proof {
            lemma_held(fs.raw(), self.id() as int);
        }
        let blocks = fs.disk_inode(self.number()).blocks as usize;
        if blocks >= MAX_BLOCKS {
            return false;
        }
        let need: usize = if blocks == NDIRECT - 1 {
            2
        } else {
            1
        };
        let unused = fs.unused_blocks();
        spared <= unused && need <= unused - spared
    }
}

/// What is told of a file.
pub open spec fn metadata_of(id: INodeId, f: Node) -> Metadata {
    Metadata {
        dev: 0,
        inode: id,
        size: (if f.kind == FileType::Dir {
            f.map.len() as int
        } else {
            f.size
        }) as usize,
        mode: 0o777,
        type_: outer_type(f.kind),
        blocks: f.map.len() as usize,
        atime: Timespec { sec: 0, nsec: 0 },
        mtime: Timespec { sec: 0, nsec: 0 },
        ctime: Timespec { sec: 0, nsec: 0 },
        nlinks: f.nlinks as usize,
        uid: 0,
        gid: 0,
        blk_size: BLKSIZE,
    }
}

} // verus!

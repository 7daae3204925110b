//! The mounted file system: superblock, free map, inodes in memory, device.

use std::collections::BTreeMap;

use vstd::prelude::*;
use vstd::std_specs::btree::{group_btree_axioms, spec_keys_iter};
use vstd::std_specs::iter::IteratorSpec;
use vstd::string::{is_ascii_spec_bytes, StringSliceAdditionalSpecFns};

use crate::codec::splice;
use crate::device::{read_block, write_block, Device};
use crate::dir::{lemma_new_dir, new_dir};
use crate::dirty::Dirty;
use crate::freemap::{
    after, as_bytes, bit_len, bits, cleared, extend_repeat, from_bytes, get_bit, is_lowest,
    lemma_lowest, set_bit, taken, unpack, with_capacity, Bits,
};
use crate::laws::law_remount;
use crate::model::{
    as_inode, chunks, clean, core_ok, disk_ok, handles, image, lemma_blank, lemma_bounds,
    lemma_chunks_write, lemma_held, lemma_load, lemma_owned, lemma_root, lemma_store_meta, live,
    one_more, rec, spare, stored_ok, tree, with_handle, Node, Raw, Slot, Tree,
};
use crate::names::{padded, Str32};
use crate::ops::same_fs;
use crate::structs::{
    fields_fit, inode_bytes, lemma_inode_len, lemma_inode_same, lemma_super_same, super_at,
    super_bytes, BlockId, DiskINode, INodeId, Super, SuperBlock, BLKBITS, BLKN_FREEMAP, BLKN_ROOT,
    BLKN_SUPER, BLKSIZE, DEFAULT_INFO, INODE_LEN, MAGIC, MAX_FNAME_LEN, SUPER_LEN,
};
use crate::tree::{lemma_root_ok, tree_ok};
use crate::vfs::{FsError, FsInfo};

verus! {

/// An inode in memory.
pub struct CachedINode {
    /// on-disk inode
    disk_inode: Dirty<DiskINode>,
    /// number of handles
    refs: usize,
}

/// A handle of an inode. Each handle counts as one reference until it is dropped.
pub struct INodeImpl {
    /// inode number
    id: INodeId,
}

impl INodeImpl {
    /// inode number
    pub closed spec fn id(&self) -> INodeId {
        self.id
    }

    /// inode number
    pub fn number(&self) -> (id: INodeId)
        ensures
            id == self.id(),
    {
        self.id
    }
}

/// The file system.
pub struct SimpleFileSystem<D: Device> {
    /// on-disk superblock
    super_block: Dirty<SuperBlock>,
    /// blocks in use are marked 0
    free_map: Dirty<Bits>,
    /// inode list; `None` stands for an inode whose handles are all gone
    inodes: BTreeMap<INodeId, Option<CachedINode>>,
    /// device
    device: D,
    /// what the blocks in use are used for
    owner: Ghost<Map<int, (int, int)>>,
}

/// What is known of an inode in memory.
pub closed spec fn slot_of(c: CachedINode) -> Slot {
    Slot { inode: c.disk_inode.value()@, dirty: c.disk_inode.is_dirty(), refs: c.refs as nat }
}

/// The inodes in memory that have handles.
pub closed spec fn cache_of(m: Map<usize, Option<CachedINode>>) -> Map<int, Slot> {
    Map::new(
        |i: int| 0 <= i <= usize::MAX && m.contains_key(i as usize) && m[i as usize] is Some,
        |i: int| slot_of(m[i as usize]->0),
    )
}

proof fn lemma_cache_insert(m: Map<usize, Option<CachedINode>>, k: usize, c: CachedINode)
    ensures
        cache_of(m.insert(k, Some(c))) == cache_of(m).insert(k as int, slot_of(c)),
{
    assert(cache_of(m.insert(k, Some(c))) =~= cache_of(m).insert(k as int, slot_of(c)));
}

proof fn lemma_cache_clear(m: Map<usize, Option<CachedINode>>, k: usize)
    ensures
        cache_of(m.insert(k, None)) == cache_of(m).remove(k as int),
        cache_of(m.remove(k)) == cache_of(m).remove(k as int),
{
    assert(cache_of(m.insert(k, None)) =~= cache_of(m).remove(k as int));
    assert(cache_of(m.remove(k)) =~= cache_of(m).remove(k as int));
}

impl<D: Device> SimpleFileSystem<D> {
    /// The parts of the file system.
    pub closed spec fn raw(&self) -> Raw {
        Raw {
            sup: self.super_block.value()@,
            sup_dirty: self.super_block.is_dirty(),
            free: bits(self.free_map.value()),
            free_dirty: self.free_map.is_dirty(),
            cache: cache_of(self.inodes@),
            disk: chunks(self.device.contents()),
            owner: self.owner@,
            reliable: self.device.reliable(),
        }
    }

    /// The device.
    pub closed spec fn device(&self) -> D {
        self.device
    }

    /// Whether the device serves every transfer within its bounds in full.
    pub open spec fn reliable(&self) -> bool {
        self.device().reliable()
    }

    /// The blocks of the file system are those of the device.
    pub proof fn lemma_blocks(&self)
        ensures
            self.raw().disk == chunks(self.device().contents()),
            self.raw().reliable == self.reliable(),
    {
    }

    /// The files of the file system.
    pub open spec fn tree(&self) -> Tree {
        tree(self.raw())
    }

    /// The file system is in order: its blocks have one use each, and its files fit together.
    pub open spec fn wf(&self) -> bool {
        core_ok(self.raw()) && tree_ok(self.tree())
    }

    /// How many handles of each inode there are.
    pub open spec fn handles(&self) -> Map<int, nat> {
        handles(self.raw())
    }

    /// There is a handle of inode `id`.
    pub open spec fn holds(&self, id: int) -> bool {
        self.handles().contains_key(id)
    }

    /// The inode in memory.
    pub fn disk_inode(&self, id: INodeId) -> (r: DiskINode)
        requires
            self.holds(id as int),
        ensures
            r@ == rec(self.raw(), id as int),
            r@ == self.raw().cache[id as int].inode,
            fields_fit(r@),
    {
        match self.inodes.get(&id) {
            Some(Some(c)) => *c.disk_inode.get(),
            _ => {
                assert(false);
                DiskINode::new_file()
            },
        }
    }

    /// Changes the inode in memory.
    pub(crate) fn set_disk_inode(&mut self, id: INodeId, inode: DiskINode)
        requires
            old(self).holds(id as int),
        ensures
            final(self).device() == old(self).device(),
            final(self).raw() == (Raw {
                cache: old(self).raw().cache.insert(
                    id as int,
                    Slot { inode: inode@, dirty: true, ..old(self).raw().cache[id as int] },
                ),
                ..old(self).raw()
            }),
    {
        let ghost before = self.inodes@;
        match self.inodes.remove(&id) {
            Some(Some(c)) => {
                let mut c = c;
                *c.disk_inode.get_mut() = inode;
                proof {
                    lemma_cache_clear(before, id);
                    lemma_cache_insert(self.inodes@, id, c);
                }
                self.inodes.insert(id, Some(c));
                assert(self.raw().cache =~= old(self).raw().cache.insert(
                    id as int,
                    Slot { inode: inode@, dirty: true, ..old(self).raw().cache[id as int] },
                ));
            },
            _ => {
                assert(false);
            },
        }
    }

    /// Notes that the inode in memory has been stored.
    pub(crate) fn sync_disk_inode(&mut self, id: INodeId)
        requires
            old(self).holds(id as int),
        ensures
            final(self).device() == old(self).device(),
            final(self).raw() == (Raw {
                cache: old(self).raw().cache.insert(
                    id as int,
                    Slot { dirty: false, ..old(self).raw().cache[id as int] },
                ),
                ..old(self).raw()
            }),
    {
        let ghost before = self.inodes@;
        match self.inodes.remove(&id) {
            Some(Some(c)) => {
                let mut c = c;
                c.disk_inode.sync();
                proof {
                    lemma_cache_clear(before, id);
                    lemma_cache_insert(self.inodes@, id, c);
                }
                self.inodes.insert(id, Some(c));
                assert(self.raw().cache =~= old(self).raw().cache.insert(
                    id as int,
                    Slot { dirty: false, ..old(self).raw().cache[id as int] },
                ));
            },
            _ => {
                assert(false);
            },
        }
    }

    /// Whether the inode in memory differs from its copy on the device.
    pub(crate) fn inode_dirty(&self, id: INodeId) -> (r: bool)
        requires
            self.holds(id as int),
        ensures
            r == self.raw().cache[id as int].dirty,
    {
        match self.inodes.get(&id) {
            Some(Some(c)) => c.disk_inode.dirty(),
            _ => {
                assert(false);
                false
            },
        }
    }

    /// The number of handles of an inode.
    pub(crate) fn refs(&self, id: INodeId) -> (n: usize)
        requires
            self.holds(id as int),
        ensures
            n == self.raw().cache[id as int].refs,
    {
        match self.inodes.get(&id) {
            Some(Some(c)) => c.refs,
            _ => {
                assert(false);
                0
            },
        }
    }

    /// Counts one handle less.
    pub(crate) fn release(&mut self, id: INodeId)
        requires
            old(self).holds(id as int),
            old(self).raw().cache[id as int].refs >= 1,
        ensures
            final(self).device() == old(self).device(),
            final(self).raw() == (Raw {
                cache: old(self).raw().cache.insert(
                    id as int,
                    Slot {
                        refs: (old(self).raw().cache[id as int].refs - 1) as nat,
                        ..old(self).raw().cache[id as int]
                    },
                ),
                ..old(self).raw()
            }),
    {
        let ghost before = self.inodes@;
        match self.inodes.remove(&id) {
            Some(Some(c)) => {
                let mut c = c;
                c.refs = c.refs - 1;
                proof {
                    lemma_cache_clear(before, id);
                    lemma_cache_insert(self.inodes@, id, c);
                }
                self.inodes.insert(id, Some(c));
                assert(self.raw().cache =~= old(self).raw().cache.insert(
                    id as int,
                    slot_of(c),
                ));
            },
            _ => {
                assert(false);
            },
        }
    }

    /// Takes an inode out of memory; its place in the list stays until the list is flushed.
    pub(crate) fn forget(&mut self, id: INodeId)
        ensures
            final(self).device() == old(self).device(),
            final(self).raw() == (Raw {
                cache: old(self).raw().cache.remove(id as int),
                ..old(self).raw()
            }),
    {
        proof {
            lemma_cache_clear(self.inodes@, id);
        }
        self.inodes.insert(id, None);
    }

    /// The number of free blocks.
    pub(crate) fn unused_blocks(&self) -> (n: usize)
        ensures
            n == self.raw().sup.unused,
    {
        self.super_block.get().unused_blocks as usize
    }

    /// Whether there is a handle of an inode.
    pub fn is_held(&self, id: INodeId) -> (r: bool)
        ensures
            r == self.holds(id as int),
    {
        match self.inodes.get(&id) {
            Some(Some(_)) => true,
            _ => false,
        }
    }

    /// Whether one handle more of an inode can be counted.
    pub fn has_spare(&self, id: INodeId) -> (r: bool)
        ensures
            r == spare(self.raw(), id as int),
    {
        match self.inodes.get(&id) {
            Some(Some(c)) => c.refs < usize::MAX,
            _ => true,
        }
    }

    /// Whether a block exists and is not free.
    pub fn in_use(&self, block: BlockId) -> (r: bool)
        ensures
            r == (block < self.raw().free.len() && !self.raw().free[block as int]),
    {
        let map = self.free_map.get();
        block < bit_len(map) && !get_bit(map, block)
    }

    /// Notes what a block is used for.
    pub(crate) fn assign(&mut self, owner: Ghost<Map<int, (int, int)>>)
        ensures
            final(self).device() == old(self).device(),
            final(self).raw() == (Raw { owner: owner@, ..old(self).raw() }),
    {
        self.owner = owner;
    }

    /// Reads the bytes of a block from `offset` on.
    pub(crate) fn load(&self, block: BlockId, offset: usize, buf: &mut [u8]) -> (r: Result<
        (),
        FsError,
    >)
        requires
            disk_ok(self.raw()),
            block < self.raw().sup.blocks,
            offset + old(buf)@.len() <= 4096,
        ensures
            final(buf)@.len() == old(buf)@.len(),
            match r {
                Ok(_) => forall|i: int|
                    0 <= i < old(buf)@.len() ==> #[trigger] final(buf)@[i]
                        == self.raw().disk[block as int][offset + i],
                Err(e) => e == FsError::DeviceError && !self.reliable(),
            },
    {
        read_block(&self.device, block, offset, buf)
    }

    /// Writes `buf` into a block from `offset` on.
    pub(crate) fn store(&mut self, block: BlockId, offset: usize, buf: &[u8]) -> (r: Result<
        (),
        FsError,
    >)
        requires
            disk_ok(old(self).raw()),
            block < old(self).raw().sup.blocks,
            offset + buf@.len() <= 4096,
        ensures
            final(self).reliable() == old(self).reliable(),
            match r {
                Ok(_) => final(self).raw() == (Raw {
                    disk: old(self).raw().disk.update(
                        block as int,
                        splice(old(self).raw().disk[block as int], offset as int, buf@),
                    ),
                    ..old(self).raw()
                }) && final(self).device().contents() == splice(
                    old(self).device().contents(),
                    block * 4096 + offset,
                    buf@,
                ),
                Err(e) => e == FsError::DeviceError && !final(self).reliable(),
            },
    {
        proof {
            lemma_chunks_write(self.device.contents(), block as int, offset as int, buf@);
        }
        write_block(&mut self.device, block, offset, buf)
    }

    /// Allocate a block, return block id
    pub fn alloc_block(&mut self) -> (r: Option<usize>)
        ensures
            final(self).device() == old(self).device(),
            match r {
                Some(b) => {
                    &&& is_lowest(old(self).raw().free, b as int)
                    &&& old(self).raw().sup.unused > 0
                    &&& final(self).raw() == (Raw {
                        free: old(self).raw().free.update(b as int, false),
                        free_dirty: true,
                        sup: Super {
                            unused: old(self).raw().sup.unused - 1,
                            ..old(self).raw().sup
                        },
                        sup_dirty: true,
                        ..old(self).raw()
                    })
                },
                None => {
                    &&& old(self).raw().sup.unused == 0 || forall|j: int|
                        0 <= j < old(self).raw().free.len() ==> !old(self).raw().free[j]
                    &&& final(self).raw() == (Raw { free_dirty: true, ..old(self).raw() })
                },
            },
    {
        let free_map = self.free_map.get_mut();
        let id = free_map.alloc_lowest();
        if let Some(block_id) = id {
            if self.super_block.get().unused_blocks == 0 {
                set_bit(self.free_map.get_mut(), block_id, true);
                assert(self.raw().free =~= old(self).raw().free);
                return None;
            }
            let super_block = self.super_block.get_mut();
            super_block.unused_blocks = super_block.unused_blocks - 1;
        }
        id
    }

    /// Free a block
    pub fn free_block(&mut self, block_id: usize)
        requires
            block_id < old(self).raw().free.len(),
            !old(self).raw().free[block_id as int],
            old(self).raw().sup.unused < u32::MAX,
        ensures
            final(self).device() == old(self).device(),
            final(self).raw() == (Raw {
                free: old(self).raw().free.update(block_id as int, true),
                free_dirty: true,
                sup: Super { unused: old(self).raw().sup.unused + 1, ..old(self).raw().sup },
                sup_dirty: true,
                ..old(self).raw()
            }),
    {
        set_bit(self.free_map.get_mut(), block_id, true);
        let super_block = self.super_block.get_mut();
        super_block.unused_blocks = super_block.unused_blocks + 1;
    }

    /// Puts an inode into memory and hands out its first handle.
    pub(crate) fn _new_inode(&mut self, id: INodeId, disk_inode: Dirty<DiskINode>) -> (h: INodeImpl)
        ensures
            h.id() == id,
            final(self).device() == old(self).device(),
            final(self).raw() == (Raw {
                cache: old(self).raw().cache.insert(
                    id as int,
                    Slot { inode: disk_inode.value()@, dirty: disk_inode.is_dirty(), refs: 1 },
                ),
                ..old(self).raw()
            }),
    {
        let c = CachedINode { disk_inode, refs: 1 };
        proof {
            lemma_cache_insert(self.inodes@, id, c);
        }
        self.inodes.insert(id, Some(c));
        INodeImpl { id }
    }

    /// What an inode says, without a handle of it: its copy in memory, else its copy on the device.
    pub(crate) fn peek(&self, id: INodeId) -> (r: Result<DiskINode, FsError>)
        requires
            core_ok(self.raw()),
            live(self.raw(), id as int),
        ensures
            match r {
                Ok(v) => v@ == rec(self.raw(), id as int),
                Err(e) => {
                    &&& e == FsError::DeviceError
                    &&& !self.reliable()
                    &&& !self.holds(id as int)
                },
            },
    {
        proof {
            reveal(core_ok);
        }
        match self.inodes.get(&id) {
            Some(Some(c)) => {
                return Ok(*c.disk_inode.get());
            },
            _ => {},
        }
        let mut buf: Vec<u8> = vec![0u8; INODE_LEN];
        match self.load(id, 0, buf.as_mut_slice()) {
            Ok(_) => {},
            Err(e) => {
                return Err(e);
            },
        }
        proof {
            lemma_inode_same(buf@, self.raw().disk[id as int]);
        }
        Ok(DiskINode::from_buf(buf.as_slice()))
    }

    /// Get inode by id. Load if not in memory.
    pub fn get_inode(&mut self, id: INodeId) -> (r: Result<INodeImpl, FsError>)
        requires
            core_ok(old(self).raw()),
            live(old(self).raw(), id as int),
            old(self).holds(id as int) ==> old(self).raw().cache[id as int].refs < usize::MAX,
        ensures
            final(self).device() == old(self).device(),
            match r {
                Ok(h) => h.id() == id && final(self).raw() == with_handle(
                    old(self).raw(),
                    id as int,
                ),
                Err(e) => {
                    &&& e == FsError::DeviceError
                    &&& !final(self).reliable()
                    &&& !old(self).holds(id as int)
                    &&& final(self).raw() == old(self).raw()
                },
            },
    {
        proof {
            reveal(core_ok);
        }
        let ghost before = self.inodes@;
        match self.inodes.remove(&id) {
            Some(Some(c)) => {
                let mut c = c;
                c.refs = c.refs + 1;
                proof {
                    lemma_cache_clear(before, id);
                    lemma_cache_insert(self.inodes@, id, c);
                }
                self.inodes.insert(id, Some(c));
                assert(self.raw().cache =~= old(self).raw().cache.insert(
                    id as int,
                    slot_of(c),
                ));
                return Ok(INodeImpl { id });
            },
            _ => {},
        }
        proof {
            lemma_cache_clear(before, id);
            assert(self.raw() =~= old(self).raw());
        }
        let mut buf: Vec<u8> = vec![0u8; INODE_LEN];
        match self.load(id, 0, buf.as_mut_slice()) {
            Ok(_) => {},
            Err(e) => {
                return Err(e);
            },
        }
        proof {
            lemma_inode_same(buf@, self.raw().disk[id as int]);
        }
        let disk_inode = Dirty::new(DiskINode::from_buf(buf.as_slice()));
        Ok(self._new_inode(id, disk_inode))
    }

    /// The inodes in the list, in ascending order.
    fn listed(&self) -> (ids: Vec<usize>)
        ensures
            forall|k: usize| self.inodes@.contains_key(k) <==> ids@.contains(k),
    {
        broadcast use group_btree_axioms;

        let mut ids: Vec<usize> = Vec::new();
        let ghost all = spec_keys_iter(&self.inodes).remaining().unref();
        for k in it: self.inodes.keys()
            invariant
                it.seq().unref() == all,
                ids@ == all.take(it.index() as int),
        {
            ids.push(*k);
            assert(ids@ =~= all.take(it.index() as int + 1));
        }
        assert(ids@ =~= all);
        assert(all.to_set() == self.inodes@.dom());
        assert forall|k: usize| self.inodes@.contains_key(k) <==> ids@.contains(k) by {
            assert(all.to_set().contains(k) <==> all.contains(k));
        }
        ids
    }

    /// The list holds no inode whose handles are all gone.
    pub closed spec fn flushed(&self) -> bool {
        forall|k: usize| #[trigger] self.inodes@.contains_key(k) ==> self.inodes@[k] is Some
    }

    /// Takes the inodes whose handles are all gone off the list.
    pub(crate) fn flush_weak_inodes(&mut self)
        ensures
            final(self).device() == old(self).device(),
            final(self).raw() == old(self).raw(),
            final(self).flushed(),
    {
        let ids = self.listed();
        let mut i: usize = 0;
        while i < ids.len()
            invariant
                i <= ids@.len(),
                self.device() == old(self).device(),
                self.raw() == old(self).raw(),
                forall|k: usize| #[trigger] self.inodes@.contains_key(k) ==> ids@.contains(k),
                forall|j: int|
                    0 <= j < i ==> (self.inodes@.contains_key(#[trigger] ids@[j])
                        ==> self.inodes@[ids@[j]] is Some),
            decreases ids@.len() - i,
        {
            let id = ids[i];
            let dead = match self.inodes.get(&id) {
                Some(None) => true,
                _ => false,
            };
            if dead {
                let ghost before = self.inodes@;
                proof {
                    lemma_cache_clear(before, id);
                }
                self.inodes.remove(&id);
                assert(cache_of(self.inodes@) =~= cache_of(before));
            }
            i = i + 1;
        }
        proof {
            assert forall|k: usize| #[trigger]
                self.inodes@.contains_key(k) implies self.inodes@[k] is Some by {
                assert(ids@.contains(k));
                let j = choose|j: int| 0 <= j < ids@.len() && ids@[j] == k;
                assert(self.inodes@.contains_key(ids@[j]));
            }
        }
    }

    /// Writes the superblock back if it has changed.
    fn sync_super(&mut self) -> (r: Result<(), FsError>)
        requires
            core_ok(old(self).raw()),
        ensures
            final(self).reliable() == old(self).reliable(),
            match r {
                Ok(_) => {
                    &&& core_ok(final(self).raw())
                    &&& final(self).tree() == old(self).tree()
                    &&& !old(self).raw().sup_dirty ==> same_fs(*old(self), *final(self))
                    &&& exists|k: int| #[trigger] super_put(old(self).raw(), final(self).raw(), k)
                },
                Err(e) => {
                    &&& e == FsError::DeviceError
                    &&& !final(self).reliable()
                    &&& old(self).raw().sup_dirty
                },
            },
    {
        let ghost r0 = self.raw();
        proof {
            reveal(core_ok);
        }
        if !self.super_block.dirty() {
            assert(super_put(r0, self.raw(), 44));
            return Ok(());
        }
        let buf = self.super_block.get().as_buf();
        match self.device.write_at(BLKSIZE * BLKN_SUPER, buf.as_slice()) {
            Some(n) => {
                self.super_block.sync();
                proof {
                    lemma_chunks_write(old(self).device.contents(), 0, 0, buf@.take(n as int));
                    assert(super_put(r0, self.raw(), n as int));
                    if self.reliable() {
                        assert(buf@.take(44) =~= buf@);
                        lemma_super_same(self.raw().disk[0], buf@);
                    }
                    lemma_store_meta(r0, self.raw());
                }
                Ok(())
            },
            None => Err(FsError::DeviceError),
        }
    }

    /// Writes the free map back if it has changed.
    fn sync_free_map(&mut self) -> (r: Result<(), FsError>)
        requires
            core_ok(old(self).raw()),
        ensures
            final(self).reliable() == old(self).reliable(),
            match r {
                Ok(_) => {
                    &&& core_ok(final(self).raw())
                    &&& final(self).tree() == old(self).tree()
                    &&& !old(self).raw().free_dirty ==> same_fs(*old(self), *final(self))
                    &&& exists|map: Seq<u8>, m: int| #[trigger]
                        map_put(old(self).raw(), final(self).raw(), map, m)
                },
                Err(e) => {
                    &&& e == FsError::DeviceError
                    &&& !final(self).reliable()
                    &&& old(self).raw().free_dirty
                },
            },
    {
        let ghost r0 = self.raw();
        proof {
            reveal(core_ok);
        }
        if !self.free_map.dirty() {
            assert(map_put(r0, self.raw(), Seq::empty(), 4096));
            return Ok(());
        }
        let bytes = as_bytes(self.free_map.get());
        assert(unpack(bytes@) =~= r0.free);
        match self.device.write_at(BLKSIZE * BLKN_FREEMAP, bytes) {
            Some(n) => {
                let ghost map = bytes@;
                self.free_map.sync();
                proof {
                    lemma_chunks_write(old(self).device.contents(), 2, 0, map.take(n as int));
                    assert(map_put(r0, self.raw(), map, n as int));
                    if self.reliable() {
                        assert(map.take(4096) =~= map);
                        assert(splice(r0.disk[2], 0, map) =~= map);
                    }
                    lemma_store_meta(r0, self.raw());
                }
                Ok(())
            },
            None => Err(FsError::DeviceError),
        }
    }

    /// Writes the inodes in memory back that have changed.
    fn sync_inodes(&mut self) -> (r: Result<(), FsError>)
        requires
            core_ok(old(self).raw()),
        ensures
            final(self).reliable() == old(self).reliable(),
            match r {
                Ok(_) => {
                    &&& core_ok(final(self).raw())
                    &&& final(self).tree() == old(self).tree()
                    &&& final(self).handles() == old(self).handles()
                    &&& inodes_put(old(self).raw(), final(self).raw())
                    &&& marked_none(old(self).raw()) ==> same_fs(*old(self), *final(self))
                },
                Err(e) => {
                    &&& e == FsError::DeviceError
                    &&& !final(self).reliable()
                    &&& !marked_none(old(self).raw())
                },
            },
    {
        let ghost r0 = self.raw();
        self.flush_weak_inodes();
        let ids = self.listed();
        proof {
            assert forall|x: int| #[trigger] handles(r0).contains_key(x) implies 0 <= x
                <= usize::MAX && ids@.contains(x as usize) by {
                assert(self.inodes@.contains_key(x as usize));
            }
            assert forall|j: usize| #[trigger] ids@.contains(j) implies handles(r0).contains_key(
                j as int,
            ) by {
                assert(self.inodes@.contains_key(j));
            }
        }
        let mut i: usize = 0;
        while i < ids.len()
            invariant
                i <= ids@.len(),
                core_ok(self.raw()),
                tree(self.raw()) == tree(r0),
                handles(self.raw()) == handles(r0),
                self.raw() == (Raw { cache: self.raw().cache, disk: self.raw().disk, ..r0 }),
                self.reliable() == old(self).reliable(),
                r0 == old(self).raw(),
                marked_none(r0) ==> same_fs(*old(self), *self),
                self.raw().disk.len() == r0.disk.len(),
                self.raw().cache.dom() == r0.cache.dom(),
                forall|x: int| #[trigger]
                    r0.cache.contains_key(x) ==> self.raw().cache[x] == r0.cache[x]
                        || self.raw().cache[x] == (Slot { dirty: false, ..r0.cache[x] }),
                forall|b: int|
                    0 <= b < r0.disk.len() ==> #[trigger] self.raw().disk[b]
                        == if r0.cache.contains_key(b) && r0.cache[b].dirty
                        && !self.raw().cache[b].dirty {
                        splice(r0.disk[b], 0, inode_bytes(r0.cache[b].inode))
                    } else {
                        r0.disk[b]
                    },
                forall|x: int| #[trigger]
                    handles(r0).contains_key(x) ==> 0 <= x <= usize::MAX && ids@.contains(
                        x as usize,
                    ),
                forall|j: usize| #[trigger] ids@.contains(j) ==> handles(r0).contains_key(j as int),
                forall|j: int|
                    0 <= j < i ==> !self.raw().cache[(#[trigger] ids@[j]) as int].dirty,
            decreases ids@.len() - i,
        {
            let id = ids[i];
            proof {
                assert(ids@.contains(id));
                assert(handles(r0).contains_key(id as int));
                assert(handles(self.raw()).contains_key(id as int));
                lemma_held(self.raw(), id as int);
                assert(r0.cache.contains_key(id as int));
            }
            let ghost before = self.raw();
            let inode = INodeImpl { id };
            match inode.sync_all(self) {
                Ok(_) => {},
                Err(e) => {
                    return Err(e);
                },
            }
            assert(self.raw().cache.dom() =~= before.cache.dom());
            i = i + 1;
        }
        proof {
            assert forall|x: int| #[trigger] self.raw().cache.contains_key(
                x,
            ) implies !self.raw().cache[x].dirty by {
                assert(handles(self.raw()).contains_key(x));
                assert(ids@.contains(x as usize));
                let j = choose|j: int| 0 <= j < ids@.len() && ids@[j] == x as usize;
                assert(!self.raw().cache[ids@[j] as int].dirty);
            }
            assert forall|x: int| #[trigger] self.raw().cache.contains_key(
                x,
            ) implies self.raw().cache[x] == settled(r0.cache)[x] by {
                assert(r0.cache.contains_key(x));
            }
            assert(self.raw().cache =~= settled(r0.cache));
        }
        Ok(())
    }

    /// Write back super block if dirty
    pub fn sync(&mut self) -> (r: Result<(), FsError>)
        requires
            core_ok(old(self).raw()),
        ensures
            final(self).reliable() == old(self).reliable(),
            match r {
                Ok(_) => {
                    &&& core_ok(final(self).raw())
                    &&& clean(final(self).raw())
                    &&& final(self).reliable() ==> stored_ok(final(self).raw())
                    &&& exists|k: int, map: Seq<u8>, m: int| #[trigger]
                        synced(old(self).raw(), final(self).raw(), k, map, m)
                    &&& rest_kept(old(self).raw(), final(self).raw())
                    &&& final(self).raw().sup == old(self).raw().sup
                    &&& final(self).raw().free == old(self).raw().free
                    &&& clean(old(self).raw()) ==> same_fs(*old(self), *final(self))
                    &&& final(self).tree() == old(self).tree()
                    &&& final(self).handles() == old(self).handles()
                },
                Err(e) => {
                    &&& e == FsError::DeviceError
                    &&& !final(self).reliable()
                    &&& !clean(old(self).raw())
                },
            },
    {
        let ghost r0 = self.raw();
        match self.sync_super() {
            Ok(_) => {},
            Err(e) => {
                return Err(e);
            },
        }
        let ghost r1 = self.raw();
        let ghost k = choose|k: int| #[trigger] super_put(r0, r1, k);
        match self.sync_free_map() {
            Ok(_) => {},
            Err(e) => {
                return Err(e);
            },
        }
        let ghost r2 = self.raw();
        let ghost (map, m) = choose|map: Seq<u8>, m: int| #[trigger] map_put(r1, r2, map, m);
        match self.sync_inodes() {
            Ok(_) => {},
            Err(e) => {
                return Err(e);
            },
        }
        proof {
            reveal(core_ok);
            assert(super_put(r0, r1, k) && map_put(r1, r2, map, m));
            assert(handles(r2) =~= handles(r0));
            assert(synced(r0, self.raw(), k, map, m));
            lemma_rest_kept(r0, self.raw(), k, map, m);
        }
        Ok(())
    }

    /// The root directory.
    pub fn root_inode(&mut self) -> (r: Result<INodeImpl, FsError>)
        requires
            core_ok(old(self).raw()),
            spare(old(self).raw(), 1),
        ensures
            final(self).reliable() == old(self).reliable(),
            match r {
                Ok(h) => {
                    &&& h.id() == BLKN_ROOT
                    &&& final(self).device() == old(self).device()
                    &&& core_ok(final(self).raw())
                    &&& final(self).tree() == old(self).tree()
                    &&& final(self).raw() == with_handle(old(self).raw(), 1)
                    &&& final(self).handles() == one_more(old(self).handles(), 1)
                },
                Err(e) => {
                    &&& e == FsError::DeviceError
                    &&& !final(self).reliable()
                    &&& !old(self).holds(1)
                    &&& same_fs(*old(self), *final(self))
                },
            },
    {
        let ghost r0 = self.raw();
        proof {
            lemma_root(r0);
            lemma_load(
                r0,
                1,
                if r0.cache.contains_key(1) {
                    r0.cache[1].refs + 1
                } else {
                    1
                },
            );
        }
        let r = self.get_inode(BLKN_ROOT);
        assert(r is Ok ==> self.handles() =~= one_more(handles(r0), 1));
        r
    }

    /// What is known of the file system.
    pub fn info(&self) -> (info: FsInfo)
        ensures
            info == (FsInfo {
                bsize: BLKSIZE,
                frsize: BLKSIZE,
                blocks: self.raw().sup.blocks as usize,
                bfree: self.raw().sup.unused as usize,
                bavail: self.raw().sup.unused as usize,
                files: self.raw().sup.blocks as usize,
                ffree: self.raw().sup.unused as usize,
                namemax: MAX_FNAME_LEN,
            }),
    {
        let sb = self.super_block.get();
        FsInfo {
            bsize: BLKSIZE,
            frsize: BLKSIZE,
            blocks: sb.blocks as usize,
            bfree: sb.unused_blocks as usize,
            bavail: sb.unused_blocks as usize,
            files: sb.blocks as usize,  // inaccurate
            ffree: sb.unused_blocks as usize,  // inaccurate
            namemax: MAX_FNAME_LEN,
        }
    }

    /// Load SFS from device
    pub fn open(device: D) -> (r: Result<Self, FsError>)
        ensures
            ({
                let disk = chunks(device.contents());
                match r {
                    Ok(fs) => {
                        &&& super_at(device.contents(), 0).magic == MAGIC
                        &&& device.contents().len() >= 3 * BLKSIZE
                        &&& fs.device() == device
                        &&& fs.raw() == (Raw {
                            reliable: device.reliable(),
                            ..image(disk, fs.raw().owner)
                        })
                        &&& mountable(disk) ==> fs.wf()
                    },
                    Err(FsError::WrongFs) => super_at(device.contents(), 0).magic != MAGIC,
                    Err(e) => {
                        &&& e == FsError::DeviceError
                        &&& !(device.reliable() && device.contents().len() >= 3 * BLKSIZE)
                    },
                }
            }),
            device.reliable() && mountable(chunks(device.contents())) ==> r is Ok,
    {
        proof {
            if mountable(chunks(device.contents())) {
                lemma_mountable(device.contents());
            }
        }
        let mut buf: Vec<u8> = vec![0u8; SUPER_LEN];
        match read_block(&device, BLKN_SUPER, 0, buf.as_mut_slice()) {
            Ok(_) => {},
            Err(e) => {
                return Err(e);
            },
        }
        let super_block = SuperBlock::from_buf(buf.as_slice());
        proof {
            lemma_super_same(device.contents(), buf@);
        }
        if !super_block.check() {
            return Err(FsError::WrongFs);
        }
        let mut map: Vec<u8> = vec![0u8; BLKSIZE];
        match read_block(&device, BLKN_FREEMAP, 0, map.as_mut_slice()) {
            Ok(_) => {},
            Err(e) => {
                return Err(e);
            },
        }
        let ghost disk = chunks(device.contents());
        let free_map = from_bytes(map.as_slice());
        proof {
            assert(map@ =~= disk[2]);
            lemma_super_same(disk[0], buf@);
        }
        let ghost owner = choose|owner: Map<int, (int, int)>| mounted_ok(disk, owner);
        let fs = SimpleFileSystem {
            super_block: Dirty::new(super_block),
            free_map: Dirty::new(free_map),
            inodes: BTreeMap::new(),
            device,
            owner: Ghost(owner),
        };
        assert(fs.raw().cache =~= Map::<int, Slot>::empty());
        proof {
            if mountable(disk) {
                reveal(core_ok);
                assert(mounted_ok(disk, owner));
                lemma_store_meta(image(disk, owner), fs.raw());
            }
        }
        Ok(fs)
    }

    /// Create a new SFS on blank disk
    #[verifier::spinoff_prover]
    #[verifier::rlimit(60)]
    pub fn create(device: D, space: usize) -> (r: Result<Self, FsError>)
        requires
            space / BLKSIZE >= 16,
            device.contents().len() >= blocks_in(space as int) * BLKSIZE,
        ensures
            match r {
                Ok(fs) => {
                    let blocks = blocks_in(space as int);
                    let r1 = fs.raw();
                    let g = fs.tree()[1];
                    &&& fs.wf()
                    &&& fs.reliable() == device.reliable()
                    &&& fs.tree() == Map::<int, Node>::empty().insert(1, g)
                    &&& new_dir(g, 1, 1, seq![3int, 4int], 2, 0)
                    &&& fs.handles() == Map::<int, nat>::empty()
                    &&& r1.sup == (Super {
                        magic: MAGIC as int,
                        blocks,
                        unused: blocks - 5,
                        info: padded(DEFAULT_INFO.spec_bytes(), 32),
                    })
                    &&& r1.free == Seq::new(32768, |i: int| 5 <= i < blocks)
                    &&& r1.disk.len() == chunks(device.contents()).len()
                    &&& forall|b: int|
                        0 <= b < r1.disk.len() && b != 1 && b != 3 && b != 4
                            ==> #[trigger] r1.disk[b] == chunks(device.contents())[b]
                },
                Err(e) => e == FsError::DeviceError && !device.reliable(),
            },
    {
        let mut blocks = space / BLKSIZE;
        if BLKBITS < blocks {
            blocks = BLKBITS;
        }
        proof {
            reveal_strlit("simple file system");
            is_ascii_spec_bytes(DEFAULT_INFO);
        }
        let super_block = SuperBlock {
            magic: MAGIC,
            blocks: blocks as u32,
            unused_blocks: blocks as u32 - 3,
            info: Str32::from(DEFAULT_INFO),
        };
        let mut free_map = with_capacity(BLKBITS);
        extend_repeat(&mut free_map, false, BLKBITS);
        let mut i: usize = 3;
        while i < blocks
            invariant
                3 <= i <= blocks <= 32768,
                bits(free_map) == Seq::new(32768, |j: int| 3 <= j < i),
            decreases blocks - i,
        {
            set_bit(&mut free_map, i, true);
            i = i + 1;
            assert(bits(free_map) =~= Seq::new(32768, |j: int| 3 <= j < i));
        }
        let mut sfs = SimpleFileSystem {
            super_block: Dirty::new_dirty(super_block),
            free_map: Dirty::new_dirty(free_map),
            inodes: BTreeMap::new(),
            device,
            owner: Ghost(Map::empty().insert(1, (1, as_inode()))),
        };
        assert(sfs.raw().cache =~= Map::<int, Slot>::empty());
        // Init root INode
        let root = sfs._new_inode(BLKN_ROOT, Dirty::new_dirty(DiskINode::new_dir()));
        let ghost r0 = sfs.raw();
        proof {
            lemma_blank(r0, blocks as int);
        }
        match root.init_dir_entry(&mut sfs, BLKN_ROOT) {
            Ok(_) => {},
            Err(e) => {
                return Err(e);
            },
        }
        proof {
            lemma_first_two(r0.free, blocks as int);
        }
        root.nlinks_inc(&mut sfs);  //for .
        root.nlinks_inc(&mut sfs);  //for ..(root's parent is itself)
        proof {
            let g = sfs.tree()[1];
            lemma_new_dir(g, 1, 1, seq![3int, 4int], 2, 0);
            lemma_root_ok(g);
            assert(sfs.tree() =~= Map::<int, Node>::empty().insert(1, g));
        }
        match root.sync_all(&mut sfs) {
            Ok(_) => {},
            Err(e) => {
                return Err(e);
            },
        }
        match root.drop(&mut sfs) {
            Ok(_) => {},
            Err(e) => {
                return Err(e);
            },
        }
        assert(sfs.handles() =~= Map::<int, nat>::empty());
        Ok(sfs)
    }

    /// Writes all back and gives up the file system. A reliable device that is handed back can be
    /// opened again.
    pub fn drop(self) -> (r: Result<D, FsError>)
        requires
            core_ok(self.raw()),
        ensures
            match r {
                Ok(device) => {
                    &&& device.reliable() == self.reliable()
                    &&& exists|k: int, map: Seq<u8>, m: int, s: Raw| #[trigger]
                        synced(self.raw(), s, k, map, m) && s.disk == chunks(device.contents())
                    &&& self.reliable() ==> written_back(self.raw(), chunks(device.contents()))
                    &&& self.wf() && self.reliable() ==> mountable(chunks(device.contents()))
                    &&& clean(self.raw()) ==> device == self.device()
                },
                Err(e) => {
                    &&& e == FsError::DeviceError
                    &&& !self.reliable()
                    &&& !clean(self.raw())
                },
            },
    {
        let mut fs = self;
        match fs.sync() {
            Ok(_) => {},
            Err(e) => {
                return Err(e);
            },
        }
        proof {
            if self.reliable() {
                assert(stored_as(self.raw(), fs.raw(), chunks(fs.device().contents())));
                if self.wf() {
                    law_remount(fs.raw());
                }
            }
        }
        Ok(fs.device)
    }
}

/// The inodes in memory, none of them marked as changed.
pub open spec fn settled(cache: Map<int, Slot>) -> Map<int, Slot> {
    Map::new(|x: int| cache.contains_key(x), |x: int| Slot { dirty: false, ..cache[x] })
}

/// No inode in memory is marked as changed.
pub open spec fn marked_none(r: Raw) -> bool {
    forall|x: int| #[trigger] r.cache.contains_key(x) ==> !r.cache[x].dirty
}

/// `s` follows from `r` by writing the superblock back if it was marked as changed. The first `k` of
/// its bytes have reached the device.
pub open spec fn super_put(r: Raw, s: Raw, k: int) -> bool {
    &&& 0 <= k <= SUPER_LEN
    &&& r.reliable ==> k == SUPER_LEN
    &&& r.sup_dirty ==> super_bytes(r.sup).len() == SUPER_LEN
    &&& s == (Raw {
        sup_dirty: false,
        disk: if r.sup_dirty {
            r.disk.update(0, splice(r.disk[0], 0, super_bytes(r.sup).take(k)))
        } else {
            r.disk
        },
        ..r
    })
}

/// `s` follows from `r` by writing the free map back if it was marked as changed. It is stored as
/// `map`, of which the first `m` bytes have reached the device.
pub open spec fn map_put(r: Raw, s: Raw, map: Seq<u8>, m: int) -> bool {
    &&& 0 <= m <= BLKSIZE
    &&& r.reliable ==> m == BLKSIZE
    &&& r.free_dirty ==> map.len() == BLKSIZE && unpack(map) == r.free
    &&& s == (Raw {
        free_dirty: false,
        disk: if r.free_dirty {
            r.disk.update(2, splice(r.disk[2], 0, map.take(m)))
        } else {
            r.disk
        },
        ..r
    })
}

/// `s` follows from `r` by writing the inodes back that were marked as changed. Of the blocks of the
/// device nothing else changes.
pub open spec fn inodes_put(r: Raw, s: Raw) -> bool {
    &&& s == (Raw { cache: settled(r.cache), disk: s.disk, ..r })
    &&& s.disk.len() == r.disk.len()
    &&& forall|b: int|
        0 <= b < r.disk.len() ==> #[trigger] s.disk[b] == if r.cache.contains_key(b)
            && r.cache[b].dirty {
            splice(r.disk[b], 0, inode_bytes(r.cache[b].inode))
        } else {
            r.disk[b]
        }
}

/// `s` follows from `r` by writing back what is marked as changed. How much of the superblock and of
/// the free map has reached the device is not looked at; a reliable device takes all of it.
pub open spec fn synced(r: Raw, s: Raw, k: int, map: Seq<u8>, m: int) -> bool {
    exists|r1: Raw, r2: Raw| #[trigger]
        super_put(r, r1, k) && #[trigger] map_put(r1, r2, map, m) && inodes_put(r2, s)
}

/// Of the blocks of the device nothing differs but the superblock, the free map, and the inodes that
/// are in memory; what lies behind the superblock and the inodes in their blocks is the same.
pub open spec fn rest_kept(r: Raw, s: Raw) -> bool {
    &&& s.disk.len() == r.disk.len()
    &&& forall|p: int| SUPER_LEN <= p < BLKSIZE ==> #[trigger] s.disk[0][p] == r.disk[0][p]
    &&& forall|x: int, p: int|
        r.cache.contains_key(x) && INODE_LEN <= p < BLKSIZE ==> #[trigger] s.disk[x][p]
            == r.disk[x][p]
    &&& forall|b: int|
        0 <= b < r.disk.len() && b != BLKN_SUPER && b != BLKN_FREEMAP && !r.cache.contains_key(b)
            ==> #[trigger] s.disk[b] == r.disk[b]
}

/// Writing back touches nothing else.
pub proof fn lemma_rest_kept(r: Raw, s: Raw, k: int, map: Seq<u8>, m: int)
    requires
        core_ok(r),
        synced(r, s, k, map, m),
    ensures
        rest_kept(r, s),
{
    let (r1, r2) = choose|r1: Raw, r2: Raw| #[trigger]
        super_put(r, r1, k) && #[trigger] map_put(r1, r2, map, m) && inodes_put(r2, s);
    lemma_bounds(r);
    assert forall|x: int| #[trigger] r.cache.contains_key(x) implies 0 < x < r.disk.len() && x != 2
        && inode_bytes(r.cache[x].inode).len() == 68 by {
        lemma_held(r, x);
        lemma_inode_len(r.cache[x].inode);
        lemma_owned(r, x, x, as_inode());
    }
    assert(s.disk[0] == r2.disk[0] && r2.disk[0] == r1.disk[0]);
    assert forall|p: int| 44 <= p < 4096 implies #[trigger] s.disk[0][p] == r.disk[0][p] by {}
    assert forall|b: int| 0 < b < r.disk.len() && b != 2 implies r2.disk[b] == r.disk[b] by {}
    assert forall|x: int, p: int|
        r.cache.contains_key(x) && 68 <= p < 4096 implies #[trigger] s.disk[x][p]
        == r.disk[x][p] by {
        assert(r2.disk[x] == r.disk[x]);
    }
    assert forall|b: int|
        0 <= b < r.disk.len() && b != 0 && b != 2 && !r.cache.contains_key(
            b,
        ) implies #[trigger] s.disk[b] == r.disk[b] by {
        assert(r2.disk[b] == r.disk[b]);
    }
}

/// `s` has the files, the superblock and the free map of `r`, and the blocks of the device hold them.
pub open spec fn stored_as(r: Raw, s: Raw, disk: Seq<Seq<u8>>) -> bool {
    &&& core_ok(s)
    &&& clean(s)
    &&& stored_ok(s)
    &&& tree(s) == tree(r)
    &&& s.sup == r.sup
    &&& s.free == r.free
    &&& s.disk == disk
}

/// The blocks of the device hold the files, the superblock and the free map of `r`.
pub open spec fn written_back(r: Raw, disk: Seq<Seq<u8>>) -> bool {
    exists|s: Raw| stored_as(r, s, disk)
}

/// What a device that holds a file system starts with.
pub proof fn lemma_mountable(contents: Seq<u8>)
    requires
        mountable(chunks(contents)),
    ensures
        contents.len() >= 3 * BLKSIZE,
        super_at(contents, 0).magic == MAGIC,
{
    reveal(core_ok);
    let disk = chunks(contents);
    let owner = choose|owner: Map<int, (int, int)>| mounted_ok(disk, owner);
    assert(mounted_ok(disk, owner));
    lemma_super_same(disk[0], contents);
}

/// How many blocks a file system in the given space has.
pub open spec fn blocks_in(space: int) -> int {
    if space / 4096 < 32768 {
        space / 4096
    } else {
        32768
    }
}

/// The two blocks that a new root directory takes.
proof fn lemma_first_two(free: Seq<bool>, blocks: int)
    requires
        free == Seq::new(32768, |i: int| 3 <= i < blocks),
        16 <= blocks <= 32768,
    ensures
        taken(free, 2) == seq![3int, 4int],
        after(free, 2) == Seq::new(32768, |i: int| 5 <= i < blocks),
{
    assert(is_lowest(free, 3));
    lemma_lowest(free, 3);
    let f1 = after(free, 1);
    assert(after(free, 0) == free);
    assert(f1 == cleared(free, 3));
    assert(is_lowest(f1, 4));
    lemma_lowest(f1, 4);
    assert(after(free, 2) == cleared(f1, 4));
    assert(taken(free, 2) =~= seq![3int, 4int]);
    assert(after(free, 2) =~= Seq::new(32768, |i: int| 5 <= i < blocks));
}

/// The device with these blocks holds a file system in which blocks are used as `owner` says.
pub open spec fn mounted_ok(disk: Seq<Seq<u8>>, owner: Map<int, (int, int)>) -> bool {
    core_ok(image(disk, owner)) && tree_ok(tree(image(disk, owner)))
}

/// The device with these blocks holds a file system.
pub open spec fn mountable(disk: Seq<Seq<u8>>) -> bool {
    exists|owner: Map<int, (int, int)>| mounted_ok(disk, owner)
}

} // verus!

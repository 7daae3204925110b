//! Entries of directories.

use vstd::prelude::*;
use vstd::string::{is_ascii_spec_bytes, StringSliceAdditionalSpecFns};
use vstd::utf8::{encode_utf8_valid_utf8, valid_utf8};

use crate::codec::{lemma_le32_same, word32};
use crate::device::Device;
use crate::freemap::{after, lemma_count_len, lowest, taken};
use crate::fs::{INodeImpl, SimpleFileSystem};
use crate::inode::{lemma_addressed, blocks_for, grow_need, index_need, written};
use crate::model::{
    body, core_ok, give_block, keeps, lemma_held, lemma_put_meta, lemma_swap, marks, put_block,
    put_inode, rec, swap_owner, swapped, tree, Node, Raw, Slot,
};
use crate::names::{cut, lemma_cut_whole, lemma_padded, name_ok, padded, Str256};
use crate::structs::{
    DiskEntry, FileType, INodeId, Inode, Super, BLKSIZE, DIRENT_LEN, MAX_BLOCKS, NDIRECT,
};
use crate::tree::{
    dot, dotdot, entry_field, entry_id, entry_name, find_entry, first_entry, has_entry, node_ok,
};
use crate::vfs::FsError;

verus! {

/// The stored form of an entry that names `x`.
pub open spec fn entry_bytes(x: int, name: Seq<u8>) -> Seq<u8> {
    word32(x) + padded(name, 256)
}

/// The stored form of entry `i`.
pub open spec fn entry_at(f: Node, i: int) -> Seq<u8> {
    f.data.subrange(i * 4096, i * 4096 + 260)
}

/// What the stored form of an entry says.
pub proof fn lemma_entry_at(f: Node, i: int, x: int, name: Seq<u8>)
    requires
        0 <= i < f.map.len(),
        f.data.len() == f.map.len() * 4096,
        entry_at(f, i) == entry_bytes(x, name),
        0 <= x <= u32::MAX,
    ensures
        entry_id(f, i) == x,
        entry_field(f, i) == padded(name, 256),
{
    let e = entry_bytes(x, name);
    assert forall|k: int| 0 <= k < 260 implies f.data[i * 4096 + k] == #[trigger] e[k] by {
        assert(entry_at(f, i)[k] == e[k]);
    }
    assert(entry_field(f, i) =~= padded(name, 256)) by {
        assert forall|k: int| 0 <= k < 256 implies entry_field(f, i)[k] == padded(name, 256)[k] by {
            assert(f.data[i * 4096 + 4 + k] == e[4 + k]);
        }
    }
    lemma_le32_same(f.data, i * 4096, e, 0);
    lemma_le32_same(e, 0, word32(x), 0);
}

/// Directory `f` has become `g`: it has one entry more, which names `x` and lies on block `b`.
pub open spec fn entry_put(f: Node, g: Node, x: int, name: Seq<u8>, b: int, indirect: int) -> bool {
    let n = f.map.len() as int;
    &&& g.kind == f.kind
    &&& g.nlinks == f.nlinks
    &&& g.size == (n + 1) * 256
    &&& g.indirect == indirect
    &&& g.map == f.map.push(b)
    &&& g.data.len() == (n + 1) * 4096
    &&& forall|p: int| 0 <= p < n * 4096 ==> #[trigger] g.data[p] == f.data[p]
    &&& entry_at(g, n) == entry_bytes(x, name)
}

/// The block that the next entry of a directory lies on.
pub open spec fn entry_block(f: Node, free: Seq<bool>) -> int {
    lowest(after(free, index_need(f.map.len() as int, f.map.len() as int + 1) as nat))
}

/// The indirect block of a directory after it has taken one entry more.
pub open spec fn entry_index(f: Node, free: Seq<bool>) -> int {
    if index_need(f.map.len() as int, f.map.len() as int + 1) == 1 {
        lowest(free)
    } else {
        f.indirect
    }
}

/// How many blocks one entry more takes.
pub open spec fn entry_need(f: Node) -> int {
    grow_need(f.map.len() as int, f.map.len() as int + 1)
}

/// The block that is written where block `i` of a file is placed elsewhere: none for a direct one.
pub open spec fn index_written(f: Node, i: int) -> Set<int> {
    if i < NDIRECT {
        Set::empty()
    } else {
        Set::empty().insert(f.indirect)
    }
}

/// A directory can take one entry more.
pub open spec fn entry_fits(f: Node, unused: int) -> bool {
    f.map.len() < MAX_BLOCKS && entry_need(f) <= unused
}

/// What the entries of a directory say after one has been put.
pub proof fn lemma_entry_put(d: int, f: Node, g: Node, x: int, name: Seq<u8>, b: int, indirect: int)
    requires
        node_ok(d, f),
        f.kind == FileType::Dir,
        entry_put(f, g, x, name, b, indirect),
        f.map.len() < MAX_BLOCKS,
        0 <= x <= u32::MAX,
        name.len() < 256,
        valid_utf8(name),
    ensures
        node_ok(d, g),
        entry_id(g, f.map.len() as int) == x,
        entry_name(g, f.map.len() as int) == cut(name),
        forall|i: int| 0 <= i < f.map.len() ==> #[trigger] entry_id(g, i) == entry_id(f, i),
        forall|i: int| 0 <= i < f.map.len() ==> #[trigger] entry_field(g, i) == entry_field(f, i),
{
    let n = f.map.len() as int;
    assert forall|i: int| 0 <= i < n implies #[trigger] entry_id(g, i) == entry_id(f, i) by {
        lemma_le32_same(g.data, i * 4096, f.data, i * 4096);
    }
    assert forall|i: int| 0 <= i < n implies #[trigger] entry_field(g, i) == entry_field(f, i) by {
        assert(entry_field(g, i) =~= entry_field(f, i));
    }
    lemma_entry_at(g, n, x, name);
    lemma_padded(name, 256);
    assert forall|i: int| 0 <= i < g.map.len() implies name_ok(#[trigger] entry_field(g, i)) by {
        if i < n {
            assert(name_ok(entry_field(f, i)));
        }
    }
    assert(entry_field(g, 0) == entry_field(f, 0));
    assert(entry_field(g, 1) == entry_field(f, 1));
    assert(entry_id(g, 0) == entry_id(f, 0));
}

/// What the entries of a directory say after block `i` has been taken out.
pub proof fn lemma_entry_out(d: int, f: Node, g: Node, i: int)
    requires
        node_ok(d, f),
        f.kind == FileType::Dir,
        2 <= i < f.map.len(),
        g == (Node { size: (f.map.len() - 1) * 256, nlinks: g.nlinks, ..swapped(f, i) }),
    ensures
        node_ok(d, g),
        forall|j: int|
            0 <= j < g.map.len() ==> #[trigger] entry_id(g, j) == entry_id(
                f,
                if j == i {
                    f.map.len() - 1
                } else {
                    j
                },
            ),
        forall|j: int|
            0 <= j < g.map.len() ==> #[trigger] entry_field(g, j) == entry_field(
                f,
                if j == i {
                    f.map.len() - 1
                } else {
                    j
                },
            ),
{
    let last = f.map.len() - 1;
    assert forall|j: int| 0 <= j < last implies #[trigger] entry_id(g, j) == entry_id(
        f,
        if j == i {
            last
        } else {
            j
        },
    ) by {
        let k = if j == i {
            last
        } else {
            j
        };
        assert forall|q: int| 0 <= q < 4 implies #[trigger] g.data[j * 4096 + q] == f.data[k * 4096
            + q] by {}
        lemma_le32_same(g.data, j * 4096, f.data, k * 4096);
    }
    assert forall|j: int| 0 <= j < last implies #[trigger] entry_field(g, j) == entry_field(
        f,
        if j == i {
            last
        } else {
            j
        },
    ) by {
        let k = if j == i {
            last
        } else {
            j
        };
        assert forall|q: int| 0 <= q < 256 implies #[trigger] entry_field(g, j)[q] == entry_field(
            f,
            k,
        )[q] by {
            assert(g.data[j * 4096 + 4 + q] == f.data[k * 4096 + 4 + q]);
        }
        assert(entry_field(g, j) =~= entry_field(f, k));
    }
    assert forall|j: int| 0 <= j < g.map.len() implies name_ok(#[trigger] entry_field(g, j)) by {
        if j == i {
            assert(name_ok(entry_field(f, last)));
        } else {
            assert(name_ok(entry_field(f, j)));
        }
    }
    assert(entry_field(g, 0) == entry_field(f, 0));
    assert(entry_field(g, 1) == entry_field(f, 1));
    assert(entry_id(g, 0) == entry_id(f, 0));
}

/// `g` is a directory that holds nothing but its entries for itself and its parent.
pub open spec fn new_dir(
    g: Node,
    x: int,
    parent: int,
    map: Seq<int>,
    nlinks: int,
    indirect: int,
) -> bool {
    &&& g.kind == FileType::Dir
    &&& g.size == 512
    &&& g.nlinks == nlinks
    &&& g.indirect == indirect
    &&& g.map == map
    &&& g.map.len() == 2
    &&& g.data.len() == 8192
    &&& entry_at(g, 0) == entry_bytes(x, dot())
    &&& entry_at(g, 1) == entry_bytes(parent, dotdot())
}

/// The two names that every directory holds, as bytes.
pub proof fn lemma_dots()
    ensures
        ".".spec_bytes() == dot(),
        "..".spec_bytes() == dotdot(),
{
    reveal_strlit(".");
    reveal_strlit("..");
    is_ascii_spec_bytes(".");
    is_ascii_spec_bytes("..");
    assert(".".spec_bytes() =~= dot());
    assert("..".spec_bytes() =~= dotdot());
}

/// What the entries of a new directory say.
pub proof fn lemma_new_dir(
    g: Node,
    x: int,
    parent: int,
    map: Seq<int>,
    nlinks: int,
    indirect: int,
)
    requires
        new_dir(g, x, parent, map, nlinks, indirect),
        0 <= x <= u32::MAX,
        0 <= parent <= u32::MAX,
    ensures
        node_ok(x, g),
        entry_id(g, 1) == parent,
{
    lemma_dots();
    encode_utf8_valid_utf8("."@);
    encode_utf8_valid_utf8(".."@);
    lemma_entry_at(g, 0, x, dot());
    lemma_entry_at(g, 1, parent, dotdot());
    lemma_padded(dot(), 256);
    lemma_padded(dotdot(), 256);
    lemma_cut_whole(dot());
    lemma_cut_whole(dotdot());
    assert forall|i: int| 0 <= i < g.map.len() implies name_ok(#[trigger] entry_field(g, i)) by {
        assert(i == 0 || i == 1);
    }
}

impl INodeImpl {
    /// The entry in block `i` of the directory.
    pub(crate) fn load_entry<D: Device>(&self, fs: &SimpleFileSystem<D>, i: usize) -> (r: Result<
        DiskEntry,
        FsError,
    >)
        requires
            core_ok(fs.raw()),
            fs.holds(self.id() as int),
            fs.tree()[self.id() as int].kind == FileType::Dir,
            i < fs.tree()[self.id() as int].map.len(),
        ensures
            match r {
                Ok(e) => {
                    &&& e.id == entry_id(fs.tree()[self.id() as int], i as int)
                    &&& e.name.0@ == entry_field(fs.tree()[self.id() as int], i as int)
                },
                Err(e) => e == FsError::DeviceError && !fs.reliable(),
            },
    {
        let ghost f = fs.tree()[self.id() as int];
        proof {
            lemma_held(fs.raw(), self.id() as int);
        }
        let mut buf: Vec<u8> = vec![0u8; DIRENT_LEN];
        match self._read_at(fs, i * BLKSIZE, buf.as_mut_slice()) {
            Ok(_) => {},
            Err(e) => {
                return Err(e);
            },
        }
        proof {
            lemma_le32_same(buf@, 0, f.data, i * 4096);
            assert(buf@.subrange(4, 260) =~= entry_field(f, i as int)) by {
                assert forall|k: int| 0 <= k < 256 implies buf@.subrange(4, 260)[k] == entry_field(
                    f,
                    i as int,
                )[k] by {
                    assert(buf@[4 + k] == f.data[i * 4096 + (4 + k)]);
                }
            }
        }
        Ok(DiskEntry::from_buf(buf.as_slice()))
    }

    /// Only for Dir
    pub(crate) fn get_file_inode_and_entry_id<D: Device>(
        &self,
        fs: &SimpleFileSystem<D>,
        name: &str,
    ) -> (r: Result<Option<(INodeId, usize)>, FsError>)
        requires
            core_ok(fs.raw()),
            fs.holds(self.id() as int),
            fs.tree()[self.id() as int].kind == FileType::Dir,
        ensures
            ({
                let f = fs.tree()[self.id() as int];
                match r {
                    Ok(Some((id, i))) => {
                        &&& first_entry(f, name.spec_bytes(), i as int)
                        &&& has_entry(f, name.spec_bytes())
                        &&& i == find_entry(f, name.spec_bytes())
                        &&& id == entry_id(f, i as int)
                        &&& id <= u32::MAX
                    },
                    Ok(None) => !has_entry(f, name.spec_bytes()),
                    Err(e) => e == FsError::DeviceError && !fs.reliable() && f.map.len() > 0,
                }
            }),
    {
        let ghost f = fs.tree()[self.id() as int];
        proof {
            lemma_held(fs.raw(), self.id() as int);
        }
        let blocks = fs.disk_inode(self.number()).blocks as usize;
        let mut i: usize = 0;
        while i < blocks
            invariant
                core_ok(fs.raw()),
                fs.holds(self.id() as int),
                f == fs.tree()[self.id() as int],
                f.kind == FileType::Dir,
                i <= blocks == f.map.len(),
                forall|j: int| 0 <= j < i ==> #[trigger] entry_name(f, j) != name.spec_bytes(),
            decreases blocks - i,
        {
            let entry = match self.load_entry(fs, i) {
                Ok(entry) => entry,
                Err(e) => {
                    return Err(e);
                },
            };
            if entry.name.is(name) {
                proof {
                    assert(first_entry(f, name.spec_bytes(), i as int));
                    let k = find_entry(f, name.spec_bytes());
                    assert(first_entry(f, name.spec_bytes(), k));
                    if k < i {
                        assert(entry_name(f, k) != name.spec_bytes());
                    } else if i < k {
                        assert(entry_name(f, i as int) != name.spec_bytes());
                    }
                }
                return Ok(Some((entry.id as usize, i)));
            }
            i = i + 1;
        }
        Ok(None)
    }

    /// The inode that a name stands for. Only for Dir
    pub fn get_file_inode_id<D: Device>(
        &self,
        fs: &SimpleFileSystem<D>,
        name: &str,
    ) -> (r: Result<Option<INodeId>, FsError>)
        requires
            core_ok(fs.raw()),
            fs.holds(self.id() as int),
            fs.tree()[self.id() as int].kind == FileType::Dir,
        ensures
            ({
                let f = fs.tree()[self.id() as int];
                match r {
                    Ok(Some(id)) => {
                        &&& has_entry(f, name.spec_bytes())
                        &&& id == entry_id(f, find_entry(f, name.spec_bytes()))
                    },
                    Ok(None) => !has_entry(f, name.spec_bytes()),
                    Err(e) => e == FsError::DeviceError && !fs.reliable() && f.map.len() > 0,
                }
            }),
    {
        match self.get_file_inode_and_entry_id(fs, name) {
            Ok(Some((inode_id, _))) => Ok(Some(inode_id)),
            Ok(None) => Ok(None),
            Err(e) => Err(e),
        }
    }

    /// Adds an entry at the end of the directory.
    pub(crate) fn append_entry<D: Device>(
        &self,
        fs: &mut SimpleFileSystem<D>,
        child: INodeId,
        name: &str,
    ) -> (r: Result<(), FsError>)
        requires
            core_ok(old(fs).raw()),
            old(fs).holds(self.id() as int),
            old(fs).tree()[self.id() as int].kind == FileType::Dir,
            entry_fits(old(fs).tree()[self.id() as int], old(fs).raw().sup.unused),
            child <= u32::MAX,
            name.spec_bytes().len() <= 256,
        ensures
            final(fs).reliable() == old(fs).reliable(),
            match r {
                Ok(_) => {
                    let id = self.id() as int;
                    let r0 = old(fs).raw();
                    let r1 = final(fs).raw();
                    let f = old(fs).tree()[id];
                    let g = final(fs).tree()[id];
                    &&& core_ok(r1)
                    &&& final(fs).tree() == old(fs).tree().insert(id, g)
                    &&& entry_put(
                        f,
                        g,
                        child as int,
                        name.spec_bytes(),
                        entry_block(f, r0.free),
                        entry_index(f, r0.free),
                    )
                    &&& r1.free == after(r0.free, entry_need(f) as nat)
                    &&& r1.sup == (Super { unused: r0.sup.unused - entry_need(f), ..r0.sup })
                    &&& keeps(r0, r1, body(g))
                    &&& marks(r0, r1, true)
                    &&& r1.cache == r0.cache.insert(
                        id,
                        Slot { inode: rec(r1, id), dirty: true, ..r0.cache[id] },
                    )
                },
                Err(e) => e == FsError::DeviceError && !final(fs).reliable(),
            },
    {
        let ghost id = self.id() as int;
        let ghost r0 = fs.raw();
        let ghost f = fs.tree()[id];
        let ghost n = f.map.len() as int;
        proof {
            lemma_held(r0, id);
        }
        let entry = DiskEntry { id: child as u32, name: Str256::from(name) };
        let old_size = self._size(fs);
        match self._resize(fs, old_size + BLKSIZE) {
            Ok(_) => {},
            Err(e) => {
                return Err(e);
            },
        }
        let ghost g0 = fs.tree()[id];
        let ghost r1 = fs.raw();
        proof {
            let extra = index_need(n, n + 1) as nat;
            assert(blocks_for((n + 1) * 4096) == n + 1);
            assert(taken(after(r0.free, extra), 1) =~= seq![entry_block(f, r0.free)]);
            assert(g0.map =~= f.map.push(entry_block(f, r0.free)));
            assert forall|p: int| 0 <= p < n * 4096 implies #[trigger] g0.data[p] == f.data[p] by {
                assert(p / 4096 < n);
            }
        }
        let buf = entry.as_buf();
        match self._write_at(fs, old_size, buf.as_slice()) {
            Ok(_) => {},
            Err(e) => {
                return Err(e);
            },
        }
        proof {
            let g = fs.tree()[id];
            assert(buf@.take(260) =~= buf@);
            assert(g == written(g0, n * 4096, buf@));
            assert(entry_at(g, n) =~= entry_bytes(child as int, name.spec_bytes()));
            assert(fs.tree() =~= tree(r0).insert(id, g));
            assert(rec(fs.raw(), id) == rec(r1, id));
        }
        Ok(())
    }

    /// Init dir content. Insert 2 init entries.
    /// This do not init nlinks, please modify the nlinks in the invoker.
    pub(crate) fn init_dir_entry<D: Device>(&self, fs: &mut SimpleFileSystem<D>, parent: INodeId)
        -> (r: Result<(), FsError>)
        requires
            core_ok(old(fs).raw()),
            old(fs).holds(self.id() as int),
            old(fs).tree()[self.id() as int].kind == FileType::Dir,
            old(fs).tree()[self.id() as int].map.len() == 0,
            old(fs).raw().sup.unused >= 2,
            parent <= u32::MAX,
        ensures
            final(fs).reliable() == old(fs).reliable(),
            match r {
                Ok(_) => {
                    let id = self.id() as int;
                    let r0 = old(fs).raw();
                    let r1 = final(fs).raw();
                    let g = final(fs).tree()[id];
                    &&& core_ok(r1)
                    &&& final(fs).tree() == old(fs).tree().insert(id, g)
                    &&& new_dir(
                        g,
                        id,
                        parent as int,
                        taken(r0.free, 2),
                        old(fs).tree()[id].nlinks,
                        old(fs).tree()[id].indirect,
                    )
                    &&& r1.free == after(r0.free, 2)
                    &&& r1.sup == (Super { unused: r0.sup.unused - 2, ..r0.sup })
                    &&& keeps(r0, r1, body(g))
                    &&& marks(r0, r1, true)
                    &&& r1.cache == r0.cache.insert(
                        id,
                        Slot { inode: rec(r1, id), dirty: true, ..r0.cache[id] },
                    )
                },
                Err(e) => e == FsError::DeviceError && !final(fs).reliable(),
            },
    {
        let ghost id = self.id() as int;
        let ghost r0 = fs.raw();
        let ghost f = fs.tree()[id];
        proof {
            lemma_held(r0, id);
            lemma_dots();
        }
        // Insert entries: '.' '..'
        match self._resize(fs, BLKSIZE * 2) {
            Ok(_) => {},
            Err(e) => {
                return Err(e);
            },
        }
        let ghost g0 = fs.tree()[id];
        let ghost r1 = fs.raw();
        proof {
            assert(f.map + taken(after(r0.free, 0), 2) =~= taken(r0.free, 2));
            lemma_held(r0, id);
            assert(id <= u32::MAX);
        }
        let entry = DiskEntry { id: parent as u32, name: Str256::from("..") };
        let buf = entry.as_buf();
        match self._write_at(fs, BLKSIZE, buf.as_slice()) {
            Ok(_) => {},
            Err(e) => {
                return Err(e);
            },
        }
        let ghost g1 = fs.tree()[id];
        let ghost r2 = fs.raw();
        let entry0 = DiskEntry { id: self.number() as u32, name: Str256::from(".") };
        let buf0 = entry0.as_buf();
        match self._write_at(fs, 0, buf0.as_slice()) {
            Ok(_) => {},
            Err(e) => {
                return Err(e);
            },
        }
        proof {
            let g = fs.tree()[id];
            assert(buf@.take(260) =~= buf@);
            assert(buf0@.take(260) =~= buf0@);
            assert(g1 == written(g0, 4096, buf@));
            assert(g == written(g1, 0, buf0@));
            assert(entry_at(g, 0) =~= entry_bytes(id, dot()));
            assert(entry_at(g, 1) =~= entry_bytes(parent as int, dotdot()));
            assert(fs.tree() =~= tree(r0).insert(id, g));
            assert(rec(fs.raw(), id) == rec(r1, id));
        }
        Ok(())
    }

    /// remove a page in middle of file and insert the last page here, useful for dirent remove
    /// should be only used in unlink
    pub(crate) fn remove_dirent_page<D: Device>(&self, fs: &mut SimpleFileSystem<D>, entry: usize)
        -> (r: Result<(), FsError>)
        requires
            core_ok(old(fs).raw()),
            old(fs).holds(self.id() as int),
            old(fs).tree()[self.id() as int].kind == FileType::Dir,
            entry < old(fs).tree()[self.id() as int].map.len(),
        ensures
            final(fs).reliable() == old(fs).reliable(),
            entry < NDIRECT ==> final(fs).device() == old(fs).device(),
            match r {
                Ok(_) => {
                    let id = self.id() as int;
                    let r0 = old(fs).raw();
                    let r1 = final(fs).raw();
                    let f = old(fs).tree()[id];
                    &&& core_ok(r1)
                    &&& final(fs).tree() == old(fs).tree().insert(
                        id,
                        Node { size: (f.map.len() - 1) * 256, ..swapped(f, entry as int) },
                    )
                    &&& 0 <= f.map[entry as int] < r0.free.len()
                    &&& !r0.free[f.map[entry as int]]
                    &&& r1.free == r0.free.update(f.map[entry as int], true)
                    &&& r1.sup == (Super { unused: r0.sup.unused + 1, ..r0.sup })
                    &&& keeps(r0, r1, index_written(f, entry as int))
                    &&& marks(r0, r1, true)
                    &&& r1.cache == r0.cache.insert(
                        id,
                        Slot { inode: rec(r1, id), dirty: true, ..r0.cache[id] },
                    )
                },
                Err(e) => {
                    &&& e == FsError::DeviceError
                    &&& !final(fs).reliable()
                    &&& old(fs).tree()[self.id() as int].map.len() > NDIRECT
                },
            },
    {
        let ghost id = self.id() as int;
        let ghost r0 = fs.raw();
        let ghost f = fs.tree()[id];
        let ghost v = rec(r0, id);
        proof {
            lemma_held(r0, id);
            lemma_addressed(r0, id);
            lemma_swap(r0, id, entry as int);
            lemma_count_len(r0.free);
        }
        let blocks = fs.disk_inode(self.number()).blocks;
        let to_remove = match self.get_disk_block_id(fs, entry) {
            Ok(b) => b,
            Err(e) => {
                return Err(e);
            },
        };
        let current_last = match self.get_disk_block_id(fs, blocks as usize - 1) {
            Ok(b) => b,
            Err(e) => {
                return Err(e);
            },
        };
        match self.set_disk_block_id(fs, entry, current_last) {
            Ok(_) => {},
            Err(e) => {
                return Err(e);
            },
        }
        let mut disk_inode = fs.disk_inode(self.number());
        disk_inode.blocks = blocks - 1;
        fs.set_disk_inode(self.number(), disk_inode);
        fs.assign(Ghost(swap_owner(r0, id, entry as int)));
        fs.free_block(to_remove);
        proof {
            let r1 = put_block(r0, id, entry as int, current_last as int);
            assert(fs.raw().owner =~= swap_owner(r0, id, entry as int));
            assert(fs.raw() == give_block(
                Raw {
                    owner: swap_owner(r0, id, entry as int),
                    ..put_inode(r1, id, Inode { blocks: v.blocks - 1, ..rec(r1, id) })
                },
                to_remove as int,
            ));
        }
        let ghost r2 = fs.raw();
        self._set_size(fs, (blocks as usize - 1) * BLKSIZE);
        proof {
            let g = Node { size: (f.map.len() - 1) * 256, ..swapped(f, entry as int) };
            assert(tree(r2).insert(id, g) =~= tree(r0).insert(id, g));
            assert(fs.raw().cache =~= r0.cache.insert(
                id,
                Slot { inode: rec(fs.raw(), id), dirty: true, ..r0.cache[id] },
            ));
        }
        Ok(())
    }

    /// Gives the entry in block `entry` another name.
    pub(crate) fn rename_entry<D: Device>(
        &self,
        fs: &mut SimpleFileSystem<D>,
        entry: usize,
        name: &str,
    ) -> (r: Result<(), FsError>)
        requires
            core_ok(old(fs).raw()),
            old(fs).holds(self.id() as int),
            old(fs).tree()[self.id() as int].kind == FileType::Dir,
            entry < old(fs).tree()[self.id() as int].map.len(),
            name.spec_bytes().len() <= 256,
        ensures
            final(fs).reliable() == old(fs).reliable(),
            match r {
                Ok(_) => {
                    let f = old(fs).tree()[self.id() as int];
                    &&& core_ok(final(fs).raw())
                    &&& final(fs).raw() == (Raw { disk: final(fs).raw().disk, ..old(fs).raw() })
                    &&& final(fs).tree() == old(fs).tree().insert(
                        self.id() as int,
                        written(
                            f,
                            entry * 4096,
                            entry_bytes(entry_id(f, entry as int), name.spec_bytes()),
                        ),
                    )
                    &&& keeps(old(fs).raw(), final(fs).raw(), body(f))
                },
                Err(e) => e == FsError::DeviceError && !final(fs).reliable(),
            },
    {
        proof {
            lemma_held(fs.raw(), self.id() as int);
        }
        let mut e = match self.load_entry(fs, entry) {
            Ok(e) => e,
            Err(e) => {
                return Err(e);
            },
        };
        e.name = Str256::from(name);
        let buf = e.as_buf();
        match self._write_at(fs, entry * BLKSIZE, buf.as_slice()) {
            Ok(_) => {},
            Err(e) => {
                return Err(e);
            },
        }
        assert(buf@.take(260) =~= buf@);
        Ok(())
    }

    pub(crate) fn nlinks_inc<D: Device>(&self, fs: &mut SimpleFileSystem<D>)
        requires
            core_ok(old(fs).raw()),
            old(fs).holds(self.id() as int),
            old(fs).tree()[self.id() as int].nlinks < u16::MAX,
        ensures
            final(fs).device() == old(fs).device(),
            core_ok(final(fs).raw()),
            ({
                let id = self.id() as int;
                let f = old(fs).tree()[id];
                let v = rec(old(fs).raw(), id);
                &&& final(fs).raw() == put_inode(
                    old(fs).raw(),
                    id,
                    Inode { nlinks: f.nlinks + 1, ..v },
                )
                &&& final(fs).tree() == old(fs).tree().insert(
                    id,
                    Node { nlinks: f.nlinks + 1, ..f },
                )
            }),
    {
        let mut disk_inode = fs.disk_inode(self.number());
        proof {
            lemma_held(fs.raw(), self.id() as int);
        }
        disk_inode.nlinks = disk_inode.nlinks + 1;
        proof {
            lemma_put_meta(fs.raw(), self.id() as int, disk_inode@);
        }
        fs.set_disk_inode(self.number(), disk_inode);
    }

    pub(crate) fn nlinks_dec<D: Device>(&self, fs: &mut SimpleFileSystem<D>)
        requires
            core_ok(old(fs).raw()),
            old(fs).holds(self.id() as int),
            old(fs).tree()[self.id() as int].nlinks > 0,
        ensures
            final(fs).device() == old(fs).device(),
            core_ok(final(fs).raw()),
            ({
                let id = self.id() as int;
                let f = old(fs).tree()[id];
                let v = rec(old(fs).raw(), id);
                &&& final(fs).raw() == put_inode(
                    old(fs).raw(),
                    id,
                    Inode { nlinks: f.nlinks - 1, ..v },
                )
                &&& final(fs).tree() == old(fs).tree().insert(
                    id,
                    Node { nlinks: f.nlinks - 1, ..f },
                )
            }),
    {
        let mut disk_inode = fs.disk_inode(self.number());
        proof {
            lemma_held(fs.raw(), self.id() as int);
        }
        disk_inode.nlinks = disk_inode.nlinks - 1;
        proof {
            lemma_put_meta(fs.raw(), self.id() as int, disk_inode@);
        }
        fs.set_disk_inode(self.number(), disk_inode);
    }
}

} // verus!

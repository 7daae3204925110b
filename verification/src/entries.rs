//! What can be done with the entries of a directory.

use vstd::prelude::*;
use vstd::string::StringSliceAdditionalSpecFns;
use vstd::utf8::{encode_utf8, encode_utf8_valid_utf8};

use crate::codec::{lemma_le32_same, splice};
use crate::device::Device;
use crate::dir::{
    entry_at, entry_block, entry_bytes, entry_fits, entry_index, entry_need, entry_put,
    index_written, lemma_entry_at, lemma_entry_out, lemma_entry_put, lemma_new_dir, new_dir,
};
use crate::freemap::{after, freed, lemma_after_sum, lowest, taken};
use crate::fs::{INodeImpl, SimpleFileSystem};
use crate::inode::{dropped, written};
use crate::model::{
    as_inode, body, core_ok, fresh_node, handles, keeps, lemma_held, lemma_index, lemma_load,
    lemma_owned, lemma_spared, live, marks, node, one_more, others_same, rec, spare, spared,
    swapped, tree, with_handle, Node, Raw, Slot, Tree,
};
use crate::names::{lemma_padded, name_ok};
use crate::ops::{same_fs, unchanged};
use crate::structs::{inode_bytes, FileType, INodeId, Inode, Super, MAX_FNAME_LEN, NDIRECT};
use crate::tree::{
    dot, dotdot, entry_added, entry_field, entry_id, entry_name, entry_removed, find_entry,
    has_entry, is_dir, lemma_closed, lemma_fresh_ok, lemma_kids_bound, lemma_link_ok,
    lemma_mkdir_ok, lemma_move_ok, lemma_named_links, lemma_rename_ok, lemma_rmdir_ok,
    lemma_tree_node, lemma_unlink_ok, named, node_ok, tree_ok,
};
use crate::vfs::{self, FsError};

verus! {

/// The kind of inode that a file of the given type gets, where it can be created.
pub open spec fn inner_type(t: vfs::FileType) -> Option<FileType> {
    match t {
        vfs::FileType::File => Some(FileType::File),
        vfs::FileType::Dir => Some(FileType::Dir),
        vfs::FileType::SymLink => Some(FileType::SymLink),
        _ => None,
    }
}

/// `h` is a file of the given kind that nothing names yet.
pub open spec fn new_node(h: Node, x: int, parent: int, kind: FileType, free: Seq<bool>) -> bool {
    if kind == FileType::Dir {
        new_dir(h, x, parent, taken(after(free, 1), 2), 0, 0)
    } else {
        h == fresh_node(kind)
    }
}

proof fn lemma_new_node(h: Node, x: int, parent: int, kind: FileType, free: Seq<bool>)
    requires
        new_node(h, x, parent, kind, free),
        kind != FileType::Invalid,
        0 <= x <= u32::MAX,
        0 <= parent <= u32::MAX,
    ensures
        node_ok(x, h),
        h.kind == kind,
        h.nlinks == 0,
        kind == FileType::Dir ==> h.map.len() == 2,
{
    if kind == FileType::Dir {
        lemma_new_dir(h, x, parent, taken(after(free, 1), 2), 0, 0);
    }
}

/// How many blocks a new file takes besides its entry.
pub open spec fn body_need(kind: FileType) -> int {
    if kind == FileType::Dir {
        3
    } else {
        1
    }
}

/// A file of the given kind can be created in directory `f`: the name fits its field, the directory
/// can take an entry more, and there are blocks for all of it.
pub open spec fn create_fits(f: Node, unused: int, kind: FileType, name: Seq<u8>) -> bool {
    &&& name.len() <= MAX_FNAME_LEN
    &&& entry_fits(f, unused - body_need(kind))
}

/// A file may be created in `d`: where nothing else stands against it, there is room for it.
pub open spec fn may_create(r: Raw, d: int, name: Seq<u8>, type_: vfs::FileType) -> bool {
    let f = tree(r)[d];
    f.kind == FileType::Dir && f.nlinks > 0 && !has_entry(f, name) && r.sup.unused > 0 ==> (
    inner_type(type_) matches Some(kind) ==> create_fits(f, r.sup.unused, kind, name))
}

/// File `x` may be given a name in `d`: where nothing else stands against it, there is room for the
/// entry, and the link can be counted.
pub open spec fn may_link(r: Raw, d: int, name: Seq<u8>, x: int) -> bool {
    let f = tree(r)[d];
    f.kind == FileType::Dir && f.nlinks > 0 && !has_entry(f, name) && tree(r)[x].kind
        != FileType::Dir ==> {
        &&& name.len() <= MAX_FNAME_LEN
        &&& entry_fits(f, r.sup.unused)
        &&& tree(r)[x].nlinks < u16::MAX
    }
}

/// The entry may be found and taken out of `d`.
pub open spec fn takes_out(f: Node, name: Seq<u8>) -> bool {
    f.kind == FileType::Dir && f.nlinks > 0 && name != dot() && name != dotdot() && has_entry(
        f,
        name,
    )
}

/// An entry of `d` may be removed: a handle more of what it names can be counted.
pub open spec fn may_unlink(r: Raw, d: int, name: Seq<u8>) -> bool {
    let f = tree(r)[d];
    takes_out(f, name) ==> spare(r, entry_id(f, find_entry(f, name)))
}

/// An entry of `d` may be moved to `e`: where nothing else stands against it, there is room for the
/// entry, and a handle more of what it names can be counted.
pub open spec fn may_move(r: Raw, d: int, old_name: Seq<u8>, e: int, name: Seq<u8>) -> bool {
    let f = tree(r)[d];
    let g = tree(r)[e];
    takes_out(f, old_name) && g.kind == FileType::Dir && g.nlinks > 0 && !has_entry(g, name) ==> {
        &&& name.len() <= MAX_FNAME_LEN
        &&& d != e ==> entry_fits(g, r.sup.unused) && spare(
            r,
            entry_id(f, find_entry(f, old_name)),
        )
    }
}

/// `s` follows from `r` by creating a file of the given kind in directory `d`.
pub open spec fn created(r: Raw, s: Raw, d: int, name: Seq<u8>, kind: FileType) -> bool {
    let f = tree(r)[d];
    let x = lowest(r.free);
    let free = after(r.free, body_need(kind) as nat);
    let g = tree(s)[d];
    let h = tree(s)[x];
    let need = body_need(kind) + entry_need(f);
    &&& !tree(r).contains_key(x)
    &&& tree(s) == tree(r).insert(x, h).insert(d, g)
    &&& if kind == FileType::Dir {
        &&& new_dir(h, x, d, taken(after(r.free, 1), 2), 2, 0)
        &&& g.nlinks == f.nlinks + 1
    } else {
        &&& h == (Node { nlinks: 1, ..fresh_node(kind) })
        &&& g.nlinks == f.nlinks
    }
    &&& entry_put(
        f,
        Node { nlinks: f.nlinks, ..g },
        x,
        name,
        entry_block(f, free),
        entry_index(f, free),
    )
    &&& handles(s) == handles(r).insert(x, 1)
    &&& s.free == after(r.free, need as nat)
    &&& s.sup == (Super { unused: r.sup.unused - need, ..r.sup })
}

/// A directory that is in order has far fewer links than can be counted.
proof fn lemma_dir_links(t: Tree, d: int)
    requires
        tree_ok(t),
        is_dir(t, d),
    ensures
        0 <= t[d].nlinks <= 1036,
{
    lemma_tree_node(t, d);
    lemma_kids_bound(t, d);
}

/// The steps of naming a file: `t2` has the entry for it, `t3` the links too.
proof fn lemma_entered(
    t1: Tree,
    t2: Tree,
    t3: Tree,
    d: int,
    x: int,
    f: Node,
    name: &str,
    kind: FileType,
    free: Seq<bool>,
)
    requires
        tree_ok(t1),
        is_dir(t1, d),
        f == t1[d],
        f.nlinks > 0,
        f.map.len() < 1036,
        x != d,
        t1.contains_key(x),
        0 <= x <= u32::MAX,
        name.spec_bytes().len() < 256,
        t1[x].kind == kind,
        t1[x].nlinks == 0,
        t2 == t1.insert(d, t2[d]),
        entry_put(
            f,
            t2[d],
            x,
            name.spec_bytes(),
            entry_block(f, free),
            entry_index(f, free),
        ),
        t3 == if kind == FileType::Dir {
            t2.insert(x, Node { nlinks: 2, ..t1[x] }).insert(
                d,
                Node { nlinks: f.nlinks + 1, ..t2[d] },
            )
        } else {
            t2.insert(x, Node { nlinks: 1, ..t1[x] })
        },
    ensures
        tree_ok(t3),
        t3 == t1.insert(x, t3[x]).insert(d, t3[d]),
        t3[d] == (Node { nlinks: t3[d].nlinks, ..t2[d] }),
        t3[x] == (Node { nlinks: t3[x].nlinks, ..t1[x] }),
{
    let g = t3[d];
    assert(t3 =~= t1.insert(x, t3[x]).insert(d, t3[d]));
    lemma_entry_added(t1, d, f, g, x, name, free);
    if kind == FileType::Dir {
        lemma_mkdir_ok(t1, d, g, x);
        assert(t1.insert(d, g).insert(x, t3[x]) =~= t3);
    } else {
        lemma_link_ok(t1, d, g, x);
        assert(t1.insert(d, g).insert(x, t3[x]) =~= t3);
    }
}

/// `s` follows from `r` by giving file `x` an entry in directory `d`.
pub open spec fn linked(r: Raw, s: Raw, d: int, x: int, name: Seq<u8>) -> bool {
    let f = tree(r)[d];
    let g = tree(s)[d];
    &&& tree(s) == tree(r).insert(d, g).insert(
        x,
        Node { nlinks: tree(r)[x].nlinks + 1, ..tree(r)[x] },
    )
    &&& entry_put(f, g, x, name, entry_block(f, r.free), entry_index(f, r.free))
    &&& handles(s) == handles(r)
    &&& s.free == after(r.free, entry_need(f) as nat)
    &&& s.sup == (Super { unused: r.sup.unused - entry_need(f), ..r.sup })
}

/// A directory without its entry `i`; the last one takes its place.
pub open spec fn entry_out(f: Node, i: int) -> Node {
    Node { size: (f.map.len() - 1) * 256, ..swapped(f, i) }
}

/// The files after entry `i` of directory `d` has been taken out, with the links that it was worth.
pub open spec fn unnamed(t: Tree, d: int, i: int) -> Tree {
    let f = t[d];
    let x = entry_id(f, i);
    if t[x].kind == FileType::Dir {
        t.insert(d, Node { nlinks: f.nlinks - 1, ..entry_out(f, i) }).insert(
            x,
            Node { nlinks: 0, ..t[x] },
        )
    } else {
        t.insert(d, entry_out(f, i)).insert(x, Node { nlinks: t[x].nlinks - 1, ..t[x] })
    }
}

/// A directory with one entry more.
proof fn lemma_entry_added(
    t: Tree,
    d: int,
    f: Node,
    g: Node,
    x: int,
    name: &str,
    free: Seq<bool>,
)
    requires
        tree_ok(t),
        is_dir(t, d),
        f == t[d],
        f.map.len() < 1036,
        0 <= x <= u32::MAX,
        name.spec_bytes().len() < 256,
        entry_put(
            f,
            Node { nlinks: f.nlinks, ..g },
            x,
            name.spec_bytes(),
            entry_block(f, free),
            entry_index(f, free),
        ),
    ensures
        entry_added(t, t.insert(d, g), d, x),
        node_ok(d, g),
{
    let h = Node { nlinks: f.nlinks, ..g };
    lemma_tree_node(t, d);
    encode_utf8_valid_utf8(name@);
    lemma_entry_put(
        d,
        f,
        h,
        x,
        name.spec_bytes(),
        entry_block(f, free),
        entry_index(f, free),
    );
    assert forall|i: int| 0 <= i < g.map.len() implies #[trigger] entry_field(g, i) == entry_field(
        h,
        i,
    ) && entry_id(g, i) == entry_id(h, i) by {}
    assert forall|i: int| 2 <= i < f.map.len() implies #[trigger] entry_id(g, i) == entry_id(
        f,
        i,
    ) by {
        assert(entry_id(h, i) == entry_id(f, i));
    }
    assert(entry_id(h, f.map.len() as int) == x);
}

/// A directory with one entry less.
proof fn lemma_entry_removed(t: Tree, d: int, i: int, g: Node)
    requires
        tree_ok(t),
        named(t, d, i),
        g == (Node { nlinks: g.nlinks, ..entry_out(t[d], i) }),
    ensures
        entry_removed(t, t.insert(d, g), d, i),
        node_ok(d, g),
{
    lemma_tree_node(t, d);
    lemma_entry_out(d, t[d], g, i);
    let last = t[d].map.len() - 1;
    assert forall|j: int| 2 <= j < last implies #[trigger] entry_id(g, j) == if j == i {
        entry_id(t[d], last)
    } else {
        entry_id(t[d], j)
    } by {}
}

/// `s` follows from `r` by removing entry `i` of directory `d`.
pub open spec fn unlinked(r: Raw, s: Raw, d: int, i: int) -> bool {
    let t = tree(r);
    let u = unnamed(t, d, i);
    let x = entry_id(t[d], i);
    let free = r.free.update(t[d].map[i], true);
    let gone = u[x].nlinks == 0 && !r.cache.contains_key(x);
    &&& handles(s) == handles(r)
    &&& tree(s) == if gone {
        u.remove(x)
    } else {
        u
    }
    &&& s.free == if gone {
        freed(free, dropped(t[x], 0).push(x))
    } else {
        free
    }
    &&& s.sup == (Super {
        unused: r.sup.unused + if gone {
            2 + dropped(t[x], 0).len() as int
        } else {
            1int
        },
        ..r.sup
    })
}

/// The block of inode `x` after its number of links has been set to `nlinks`: without a handle that
/// keeps it in memory, the inode has been written back.
pub open spec fn left_behind(r: Raw, s: Raw, x: int, nlinks: int) -> bool {
    s.disk[x] == if r.cache.contains_key(x) {
        r.disk[x]
    } else {
        splice(r.disk[x], 0, inode_bytes(Inode { nlinks, ..rec(r, x) }))
    }
}

/// What is written where an entry of a directory is taken out was in use, and is no inode.
proof fn lemma_index_written(r: Raw, d: int, i: int, x: int)
    requires
        core_ok(r),
        live(r, d),
        live(r, x),
        0 <= i < node(r, d).map.len(),
    ensures
        !index_written(node(r, d), i).contains(x),
        forall|b: int| #[trigger] index_written(node(r, d), i).contains(b) ==> !r.free[b],
{
    if i >= 12 {
        let f = node(r, d);
        lemma_index(r, d);
    }
}

/// `s` follows from `r` by moving entry `i` of directory `d` to directory `e` under a new name.
pub open spec fn moved(r: Raw, s: Raw, d: int, i: int, e: int, name: Seq<u8>) -> bool {
    let t = tree(r);
    let f = t[d];
    let x = entry_id(f, i);
    let g = tree(s)[e];
    let worth = if t[x].kind == FileType::Dir {
        1int
    } else {
        0int
    };
    &&& tree(s) == t.insert(e, g).insert(
        d,
        Node { nlinks: f.nlinks - worth, ..entry_out(f, i) },
    )
    &&& g.nlinks == t[e].nlinks + worth
    &&& entry_put(
        t[e],
        Node { nlinks: t[e].nlinks, ..g },
        x,
        name,
        entry_block(t[e], r.free),
        entry_index(t[e], r.free),
    )
    &&& handles(s) == handles(r)
    &&& s.free == after(r.free, entry_need(t[e]) as nat).update(f.map[i], true)
    &&& s.sup == (Super { unused: r.sup.unused - entry_need(t[e]) + 1, ..r.sup })
}

/// `s` follows from `r` by giving entry `i` of directory `d` a new name.
pub open spec fn renamed(r: Raw, s: Raw, d: int, i: int, name: Seq<u8>) -> bool {
    let f = tree(r)[d];
    &&& tree(s) == tree(r).insert(
        d,
        written(f, i * 4096, entry_bytes(entry_id(f, i), name)),
    )
    &&& handles(s) == handles(r)
    &&& s.free == r.free
    &&& s.sup == r.sup
}

/// Giving an entry a new name changes nothing that it names.
proof fn lemma_renamed(t: Tree, d: int, i: int, name: &str)
    requires
        tree_ok(t),
        named(t, d, i),
        name.spec_bytes().len() < 256,
    ensures
        tree_ok(
            t.insert(
                d,
                written(t[d], i * 4096, entry_bytes(entry_id(t[d], i), name.spec_bytes())),
            ),
        ),
{
    let f = t[d];
    let x = entry_id(f, i);
    let bytes = entry_bytes(x, name.spec_bytes());
    let g = written(f, i * 4096, bytes);
    lemma_tree_node(t, d);
    encode_utf8_valid_utf8(name@);
    lemma_padded(name.spec_bytes(), 256);
    assert(entry_at(g, i) =~= bytes);
    lemma_entry_at(g, i, x, name.spec_bytes());
    assert forall|j: int| 0 <= j < f.map.len() && j != i implies #[trigger] entry_field(g, j)
        == entry_field(f, j) by {
        assert(entry_field(g, j) =~= entry_field(f, j));
    }
    assert forall|j: int| 0 <= j < f.map.len() implies #[trigger] entry_id(g, j) == entry_id(
        f,
        j,
    ) by {
        if j != i {
            lemma_le32_same(g.data, j * 4096, f.data, j * 4096);
        }
    }
    assert forall|j: int| 0 <= j < g.map.len() implies name_ok(#[trigger] entry_field(g, j)) by {
        if j != i {
            assert(name_ok(entry_field(f, j)));
        }
    }
    assert(entry_field(g, 0) == entry_field(f, 0));
    assert(entry_field(g, 1) == entry_field(f, 1));
    lemma_rename_ok(t, d, g);
}

/// A file of the tree is in use.
proof fn lemma_contained(r: Raw, x: int)
    requires
        tree(r).contains_key(x),
    ensures
        live(r, x),
{
}

/// The handles are as they were once a handle that was taken has been given back.
proof fn lemma_given_back(r: Raw, s: Raw, t: Raw, x: int)
    requires
        handles(s) == one_more(handles(r), x),
        s.cache.contains_key(x),
        handles(t) == if s.cache[x].refs > 1 {
            handles(s).insert(x, (s.cache[x].refs - 1) as nat)
        } else {
            handles(s).remove(x)
        },
        handles(r).contains_key(x) ==> handles(r)[x] >= 1,
    ensures
        handles(t) == handles(r),
        s.cache[x].refs > 1 <==> r.cache.contains_key(x),
{
    assert(handles(s)[x] == s.cache[x].refs);
    assert(handles(r).contains_key(x) <==> r.cache.contains_key(x));
    assert(handles(t) =~= handles(r));
}

/// Whether a name is that of a directory in itself.
fn is_dot(name: &str) -> (r: bool)
    ensures
        r == (name.spec_bytes() == dot()),
{
    let b = name.as_bytes();
    if b.len() == 1 && b[0] == 46 {
        assert(name.spec_bytes() =~= dot());
        true
    } else {
        false
    }
}

/// Whether a name is that of the parent in a directory.
fn is_dotdot(name: &str) -> (r: bool)
    ensures
        r == (name.spec_bytes() == dotdot()),
{
    let b = name.as_bytes();
    if b.len() == 2 && b[0] == 46 && b[1] == 46 {
        assert(name.spec_bytes() =~= dotdot());
        true
    } else {
        false
    }
}

impl INodeImpl {
    /// Finds a file by its name.
    pub fn find<D: Device>(&self, fs: &mut SimpleFileSystem<D>, name: &str) -> (r: Result<
        INodeImpl,
        FsError,
    >)
        requires
            old(fs).wf(),
            old(fs).holds(self.id() as int),
            ({
                let f = old(fs).tree()[self.id() as int];
                let x = entry_id(f, find_entry(f, name.spec_bytes()));
                f.kind == FileType::Dir && has_entry(f, name.spec_bytes()) ==> {
                    &&& name.spec_bytes() == dotdot() ==> old(fs).tree().contains_key(x)
                    &&& spare(old(fs).raw(), x)
                }
            }),
        ensures
            final(fs).reliable() == old(fs).reliable(),
            ({
                let f = old(fs).tree()[self.id() as int];
                let r0 = old(fs).raw();
                let r1 = final(fs).raw();
                match r {
                    Ok(h) => {
                        let x = entry_id(f, find_entry(f, name.spec_bytes()));
                        &&& f.kind == FileType::Dir
                        &&& has_entry(f, name.spec_bytes())
                        &&& h.id() == x
                        &&& final(fs).device() == old(fs).device()
                        &&& final(fs).wf()
                        &&& final(fs).tree() == old(fs).tree()
                        &&& r1 == with_handle(r0, x)
                        &&& final(fs).handles() == one_more(old(fs).handles(), x)
                    },
                    Err(FsError::NotDir) => {
                        &&& f.kind != FileType::Dir
                        &&& same_fs(*old(fs), *final(fs))
                    },
                    Err(FsError::EntryNotFound) => {
                        &&& f.kind == FileType::Dir
                        &&& !has_entry(f, name.spec_bytes())
                        &&& same_fs(*old(fs), *final(fs))
                    },
                    Err(e) => {
                        &&& e == FsError::DeviceError
                        &&& !final(fs).reliable()
                        &&& f.kind == FileType::Dir
                        &&& same_fs(*old(fs), *final(fs))
                    },
                }
            }),
    {
        let ghost r0 = fs.raw();
        let ghost t0 = fs.tree();
        let ghost d = self.id() as int;
        proof {
            lemma_held(r0, d);
            lemma_tree_node(t0, d);
        }
        if fs.disk_inode(self.number()).type_ != FileType::Dir {
            return Err(FsError::NotDir);
        }
        let (inode_id, entry) = match self.get_file_inode_and_entry_id(fs, name) {
            Ok(Some(p)) => p,
            Ok(None) => {
                return Err(FsError::EntryNotFound);
            },
            Err(e) => {
                return Err(e);
            },
        };
        proof {
            let x = inode_id as int;
            assert(t0.contains_key(x)) by {
                if entry >= 2 {
                    lemma_closed(t0, d, entry as int);
                }
            }
            lemma_contained(r0, x);
        }
        self.open_entry(fs, inode_id)
    }

    /// The name of the entry with the given number.
    pub fn get_entry<D: Device>(&self, fs: &SimpleFileSystem<D>, id: usize) -> (r: Result<
        String,
        FsError,
    >)
        requires
            fs.wf(),
            fs.holds(self.id() as int),
        ensures
            ({
                let f = fs.tree()[self.id() as int];
                match r {
                    Ok(s) => {
                        &&& f.kind == FileType::Dir
                        &&& id < f.map.len()
                        &&& encode_utf8(s@) == entry_name(f, id as int)
                    },
                    Err(FsError::NotDir) => f.kind != FileType::Dir,
                    Err(FsError::EntryNotFound) => f.kind == FileType::Dir && id >= f.map.len(),
                    Err(e) => {
                        &&& e == FsError::DeviceError
                        &&& !fs.reliable()
                        &&& f.kind == FileType::Dir
                        &&& id < f.map.len()
                    },
                }
            }),
    {
        let ghost f = fs.tree()[self.id() as int];
        proof {
            lemma_held(fs.raw(), self.id() as int);
            lemma_tree_node(fs.tree(), self.id() as int);
        }
        let disk_inode = fs.disk_inode(self.number());
        if disk_inode.type_ != FileType::Dir {
            return Err(FsError::NotDir);
        }
        if id >= disk_inode.blocks as usize {
            return Err(FsError::EntryNotFound);
        }
        match self.load_entry(fs, id) {
            Ok(entry) => {
                assert(name_ok(entry_field(f, id as int)));
                Ok(entry.name.name())
            },
            Err(e) => Err(e),
        }
    }

    /// Creates a file in the directory.
    pub fn create<D: Device>(
        &self,
        fs: &mut SimpleFileSystem<D>,
        name: &str,
        type_: vfs::FileType,
        _mode: u32,
    ) -> (r: Result<INodeImpl, FsError>)
        requires
            old(fs).wf(),
            old(fs).holds(self.id() as int),
            may_create(old(fs).raw(), self.id() as int, name.spec_bytes(), type_),
        ensures
            final(fs).reliable() == old(fs).reliable(),
            r != Err::<INodeImpl, FsError>(FsError::DeviceError) ==> final(fs).wf(),
            ({
                let f = old(fs).tree()[self.id() as int];
                let r0 = old(fs).raw();
                let r1 = final(fs).raw();
                if r == Err::<INodeImpl, FsError>(FsError::DeviceError) {
                    !final(fs).reliable() && f.kind == FileType::Dir && f.nlinks > 0
                } else if f.kind != FileType::Dir {
                    r == Err::<INodeImpl, FsError>(FsError::NotDir) && same_fs(*old(fs), *final(fs))
                } else if f.nlinks == 0 {
                    &&& r == Err::<INodeImpl, FsError>(FsError::DirRemoved)
                    &&& same_fs(*old(fs), *final(fs))
                } else if has_entry(f, name.spec_bytes()) {
                    &&& r == Err::<INodeImpl, FsError>(FsError::EntryExist)
                    &&& same_fs(*old(fs), *final(fs))
                } else {
                    match inner_type(type_) {
                        None => {
                            &&& r == Err::<INodeImpl, FsError>(FsError::InvalidParam)
                            &&& same_fs(*old(fs), *final(fs))
                        },
                        Some(kind) => if r0.sup.unused == 0 {
                            &&& r == Err::<INodeImpl, FsError>(FsError::NoDeviceSpace)
                            &&& unchanged(r0, r1)
                            &&& r1 == (Raw { free_dirty: true, ..r0 })
                            &&& final(fs).device() == old(fs).device()
                        } else {
                            &&& r matches Ok(h)
                            &&& h.id() == lowest(r0.free)
                            &&& marks(r0, r1, true)
                            &&& others_same(r0, r1, self.id() as int, h.id() as int)
                            &&& r1.cache[self.id() as int].dirty
                            &&& r1.cache[h.id() as int].dirty
                            &&& created(r0, r1, self.id() as int, name.spec_bytes(), kind)
                            &&& keeps(
                                r0,
                                r1,
                                body(final(fs).tree()[self.id() as int]).union(
                                    body(final(fs).tree()[h.id() as int]),
                                ),
                            )
                            &&& spared(r0, r1)
                        },
                    }
                }
            }),
    {
        let ghost r0 = fs.raw();
        let ghost t0 = fs.tree();
        let ghost d = self.id() as int;
        let ghost f = t0[d];
        proof {
            lemma_held(r0, d);
            lemma_tree_node(t0, d);
        }
        let info = fs.disk_inode(self.number());
        if info.type_ != FileType::Dir {
            return Err(FsError::NotDir);
        }
        if info.nlinks == 0 {
            return Err(FsError::DirRemoved);
        }
        // Ensure the name is not exist
        match self.get_file_inode_id(fs, name) {
            Ok(None) => {},
            Ok(Some(_)) => {
                return Err(FsError::EntryExist);
            },
            Err(e) => {
                return Err(e);
            },
        }
        // Create new INode
        match type_ {
            vfs::FileType::File => self.create_inode(fs, name, FileType::File),
            vfs::FileType::SymLink => self.create_inode(fs, name, FileType::SymLink),
            vfs::FileType::Dir => self.create_inode(fs, name, FileType::Dir),
            _ => Err(FsError::InvalidParam),
        }
    }

    /// Makes an inode of the given kind, for a directory with the entries for itself and its parent.
    fn new_inode<D: Device>(&self, fs: &mut SimpleFileSystem<D>, kind: FileType) -> (r: Result<
        INodeImpl,
        FsError,
    >)
        requires
            core_ok(old(fs).raw()),
            old(fs).holds(self.id() as int),
            kind != FileType::Invalid,
            old(fs).raw().sup.unused == 0 || old(fs).raw().sup.unused >= body_need(kind),
        ensures
            final(fs).reliable() == old(fs).reliable(),
            match r {
                Ok(h) => {
                    let r0 = old(fs).raw();
                    let r1 = final(fs).raw();
                    let x = lowest(r0.free);
                    let need = body_need(kind);
                    &&& core_ok(r1)
                    &&& r0.sup.unused > 0
                    &&& h.id() == x
                    &&& 3 <= x < r0.sup.blocks
                    &&& !old(fs).tree().contains_key(x)
                    &&& !old(fs).holds(x)
                    &&& final(fs).tree() == old(fs).tree().insert(x, final(fs).tree()[x])
                    &&& new_node(final(fs).tree()[x], x, self.id() as int, kind, r0.free)
                    &&& keeps(r0, r1, body(final(fs).tree()[x]))
                    &&& marks(r0, r1, true)
                    &&& others_same(r0, r1, x, x)
                    &&& r1.cache[x].dirty
                    &&& r1.free == after(r0.free, need as nat)
                    &&& r1.sup == (Super { unused: r0.sup.unused - need, ..r0.sup })
                    &&& final(fs).handles() == old(fs).handles().insert(x, 1)
                },
                Err(FsError::NoDeviceSpace) => {
                    &&& core_ok(final(fs).raw())
                    &&& old(fs).raw().sup.unused == 0
                    &&& unchanged(old(fs).raw(), final(fs).raw())
                    &&& final(fs).raw() == (Raw { free_dirty: true, ..old(fs).raw() })
                    &&& final(fs).device() == old(fs).device()
                },
                Err(e) => e == FsError::DeviceError && !final(fs).reliable(),
            },
    {
        let ghost r0 = fs.raw();
        proof {
            lemma_held(r0, self.id() as int);
        }
        let made = match kind {
            FileType::Dir => fs.new_inode_dir(self.number()),
            FileType::SymLink => fs.new_inode_symlink(),
            _ => fs.new_inode_file(),
        };
        match made {
            Ok(inode) => Ok(inode),
            Err(e) => {
                assert(e == FsError::NoDeviceSpace ==> handles(fs.raw()) =~= handles(r0));
                Err(e)
            },
        }
    }

    /// Gives a file that nothing names yet an entry and its links.
    fn enter<D: Device>(
        &self,
        fs: &mut SimpleFileSystem<D>,
        inode: &INodeImpl,
        name: &str,
        kind: FileType,
    ) -> (r: Result<(), FsError>)
        requires
            old(fs).wf(),
            old(fs).holds(self.id() as int),
            old(fs).holds(inode.id() as int),
            inode.id() != self.id(),
            inode.id() <= u32::MAX,
            old(fs).tree()[self.id() as int].kind == FileType::Dir,
            old(fs).tree()[self.id() as int].nlinks > 0,
            old(fs).tree()[inode.id() as int].kind == kind,
            old(fs).tree()[inode.id() as int].nlinks == 0,
            name.spec_bytes().len() <= MAX_FNAME_LEN,
            entry_fits(old(fs).tree()[self.id() as int], old(fs).raw().sup.unused),
        ensures
            final(fs).reliable() == old(fs).reliable(),
            match r {
                Ok(_) => {
                    let r0 = old(fs).raw();
                    let r1 = final(fs).raw();
                    let d = self.id() as int;
                    let x = inode.id() as int;
                    let f = old(fs).tree()[d];
                    let g = final(fs).tree()[d];
                    &&& final(fs).wf()
                    &&& final(fs).tree() == old(fs).tree().insert(
                        x,
                        Node {
                            nlinks: if kind == FileType::Dir {
                                2
                            } else {
                                1
                            },
                            ..old(fs).tree()[x]
                        },
                    ).insert(d, g)
                    &&& entry_put(
                        f,
                        Node { nlinks: f.nlinks, ..g },
                        x,
                        name.spec_bytes(),
                        entry_block(f, r0.free),
                        entry_index(f, r0.free),
                    )
                    &&& g.nlinks == if kind == FileType::Dir {
                        f.nlinks + 1
                    } else {
                        f.nlinks
                    }
                    &&& final(fs).handles() == old(fs).handles()
                    &&& r1.free == after(r0.free, entry_need(f) as nat)
                    &&& r1.sup == (Super { unused: r0.sup.unused - entry_need(f), ..r0.sup })
                    &&& keeps(r0, r1, body(g))
                    &&& marks(r0, r1, true)
                    &&& others_same(r0, r1, d, x)
                    &&& r1.cache[d].dirty
                    &&& r1.cache[x].dirty
                },
                Err(e) => e == FsError::DeviceError && !final(fs).reliable(),
            },
    {
        let ghost r1 = fs.raw();
        let ghost t1 = fs.tree();
        let ghost d = self.id() as int;
        let ghost x = inode.id() as int;
        let ghost f = t1[d];
        proof {
            lemma_held(r1, d);
            lemma_held(r1, x);
            lemma_dir_links(t1, d);
        }
        // Write new entry
        match self.append_entry(fs, inode.number(), name) {
            Ok(_) => {},
            Err(e) => {
                return Err(e);
            },
        }
        let ghost r2 = fs.raw();
        let ghost t2 = fs.tree();
        assert(t2[x] == t1[x]);
        inode.nlinks_inc(fs);
        if kind == FileType::Dir {
            inode.nlinks_inc(fs);  //for .
            self.nlinks_inc(fs);  //for ..
        }
        proof {
            assert(handles(fs.raw()) =~= handles(r1));
            if kind == FileType::Dir {
                assert(fs.tree() =~= t2.insert(x, Node { nlinks: 2, ..t1[x] }).insert(
                    d,
                    Node { nlinks: f.nlinks + 1, ..t2[d] },
                ));
            }
            lemma_entered(t1, t2, fs.tree(), d, x, f, name, kind, r1.free);
        }
        Ok(())
    }

    /// Makes an inode of the given kind and an entry for it.
    fn create_inode<D: Device>(&self, fs: &mut SimpleFileSystem<D>, name: &str, kind: FileType)
        -> (r: Result<INodeImpl, FsError>)
        requires
            old(fs).wf(),
            old(fs).holds(self.id() as int),
            kind != FileType::Invalid,
            is_dir(old(fs).tree(), self.id() as int),
            old(fs).tree()[self.id() as int].nlinks > 0,
            old(fs).raw().sup.unused > 0 ==> create_fits(
                old(fs).tree()[self.id() as int],
                old(fs).raw().sup.unused,
                kind,
                name.spec_bytes(),
            ),
        ensures
            final(fs).reliable() == old(fs).reliable(),
            match r {
                Ok(h) => {
                    &&& final(fs).wf()
                    &&& old(fs).raw().sup.unused > 0
                    &&& h.id() == lowest(old(fs).raw().free)
                    &&& created(
                        old(fs).raw(),
                        final(fs).raw(),
                        self.id() as int,
                        name.spec_bytes(),
                        kind,
                    )
                    &&& keeps(
                        old(fs).raw(),
                        final(fs).raw(),
                        body(final(fs).tree()[self.id() as int]).union(
                            body(final(fs).tree()[h.id() as int]),
                        ),
                    )
                    &&& spared(old(fs).raw(), final(fs).raw())
                    &&& marks(old(fs).raw(), final(fs).raw(), true)
                    &&& others_same(
                        old(fs).raw(),
                        final(fs).raw(),
                        self.id() as int,
                        h.id() as int,
                    )
                    &&& final(fs).raw().cache[self.id() as int].dirty
                    &&& final(fs).raw().cache[h.id() as int].dirty
                },
                Err(FsError::NoDeviceSpace) => {
                    &&& final(fs).wf()
                    &&& old(fs).raw().sup.unused == 0
                    &&& unchanged(old(fs).raw(), final(fs).raw())
                    &&& final(fs).raw() == (Raw { free_dirty: true, ..old(fs).raw() })
                    &&& final(fs).device() == old(fs).device()
                },
                Err(e) => e == FsError::DeviceError && !final(fs).reliable(),
            },
    {
        let ghost r0 = fs.raw();
        let ghost t0 = fs.tree();
        let ghost d = self.id() as int;
        let ghost f = t0[d];
        proof {
            lemma_held(r0, d);
        }
        let inode = match self.new_inode(fs, kind) {
            Ok(inode) => inode,
            Err(e) => {
                return Err(e);
            },
        };
        let ghost x = inode.id() as int;
        let ghost r1 = fs.raw();
        let ghost t1 = fs.tree();
        let ghost h1 = t1[x];
        let ghost free = after(r0.free, body_need(kind) as nat);
        assert(t1[d] == f);
        assert(t1 == t0.insert(x, h1));
        assert(r1.free == free);
        assert(r1.sup.unused == r0.sup.unused - body_need(kind));
        assert(handles(r1) == handles(r0).insert(x, 1));
        proof {
            assert(tree_ok(t1)) by {
                lemma_new_node(h1, x, d, kind, r0.free);
                lemma_fresh_ok(t0, x, h1);
            }
            assert(h1.kind == kind && h1.nlinks == 0);
            lemma_dir_links(t1, d);
            assert(handles(r1).contains_key(d));
            assert(handles(r1).contains_key(x));
        }
        match self.enter(fs, &inode, name, kind) {
            Ok(_) => {},
            Err(e) => {
                return Err(e);
            },
        }
        proof {
            lemma_after_sum(r0.free, body_need(kind) as nat, entry_need(f) as nat);
            let t3 = fs.tree();
            assert(t3 =~= t0.insert(x, t3[x]).insert(d, t3[d]));
            assert(body(t3[x]) =~= body(h1));
            lemma_spared(r0, fs.raw(), d, x, d);
        }
        Ok(inode)
    }

    /// Gives a file of this file system another name. `other` is `None` for an inode that belongs to
    /// another file system.
    pub fn link<D: Device>(
        &self,
        fs: &mut SimpleFileSystem<D>,
        name: &str,
        other: Option<&INodeImpl>,
    ) -> (r: Result<(), FsError>)
        requires
            old(fs).wf(),
            old(fs).holds(self.id() as int),
            other matches Some(c) ==> old(fs).holds(c.id() as int),
            other matches Some(c) ==> may_link(
                old(fs).raw(),
                self.id() as int,
                name.spec_bytes(),
                c.id() as int,
            ),
        ensures
            final(fs).reliable() == old(fs).reliable(),
            r != Err::<(), FsError>(FsError::DeviceError) ==> final(fs).wf(),
            ({
                let t = old(fs).tree();
                let f = t[self.id() as int];
                let r0 = old(fs).raw();
                let r1 = final(fs).raw();
                if r == Err::<(), FsError>(FsError::DeviceError) {
                    !final(fs).reliable() && f.kind == FileType::Dir && f.nlinks > 0
                } else if f.kind != FileType::Dir {
                    r == Err::<(), FsError>(FsError::NotDir) && same_fs(*old(fs), *final(fs))
                } else if f.nlinks == 0 {
                    r == Err::<(), FsError>(FsError::DirRemoved) && same_fs(*old(fs), *final(fs))
                } else if has_entry(f, name.spec_bytes()) {
                    r == Err::<(), FsError>(FsError::EntryExist) && same_fs(*old(fs), *final(fs))
                } else {
                    match other {
                        None => {
                            &&& r == Err::<(), FsError>(FsError::NotSameFs)
                            &&& same_fs(*old(fs), *final(fs))
                        },
                        Some(c) => if t[c.id() as int].kind == FileType::Dir {
                            r == Err::<(), FsError>(FsError::IsDir) && same_fs(*old(fs), *final(fs))
                        } else {
                            &&& r == Ok::<(), FsError>(())
                            &&& linked(
                                r0,
                                r1,
                                self.id() as int,
                                c.id() as int,
                                name.spec_bytes(),
                            )
                            &&& keeps(r0, r1, body(final(fs).tree()[self.id() as int]))
                            &&& spared(r0, r1)
                            &&& marks(r0, r1, true)
                            &&& others_same(r0, r1, self.id() as int, c.id() as int)
                            &&& r1.cache[self.id() as int].dirty
                            &&& r1.cache[c.id() as int].dirty
                        },
                    }
                }
            }),
    {
        let ghost r0 = fs.raw();
        let ghost t0 = fs.tree();
        let ghost d = self.id() as int;
        let ghost f = t0[d];
        proof {
            lemma_held(r0, d);
            lemma_tree_node(t0, d);
        }
        let info = fs.disk_inode(self.number());
        if info.type_ != FileType::Dir {
            return Err(FsError::NotDir);
        }
        if info.nlinks == 0 {
            return Err(FsError::DirRemoved);
        }
        match self.get_file_inode_id(fs, name) {
            Ok(None) => {},
            Ok(Some(_)) => {
                return Err(FsError::EntryExist);
            },
            Err(e) => {
                return Err(e);
            },
        }
        let child = match other {
            Some(child) => child,
            None => {
                return Err(FsError::NotSameFs);
            },
        };
        let ghost x = child.id() as int;
        proof {
            lemma_held(r0, x);
        }
        if fs.disk_inode(child.number()).type_ == FileType::Dir {
            return Err(FsError::IsDir);
        }
        match self.append_entry(fs, child.number(), name) {
            Ok(_) => {},
            Err(e) => {
                return Err(e);
            },
        }
        let ghost t2 = fs.tree();
        let ghost g = t2[d];
        assert(t2[x] == t0[x]);
        child.nlinks_inc(fs);
        proof {
            assert(handles(fs.raw()) =~= handles(r0));
            assert(fs.tree()[d] == g);
            lemma_entry_added(t0, d, f, g, x, name, r0.free);
            lemma_link_ok(t0, d, g, x);
            lemma_spared(r0, fs.raw(), d, d, d);
        }
        Ok(())
    }

    /// Takes entry `entry` out of the directory and the links that it is worth from the file that it
    /// names.
    fn take_out<D: Device>(
        &self,
        fs: &mut SimpleFileSystem<D>,
        inode: &INodeImpl,
        entry: usize,
        kind: FileType,
    ) -> (r: Result<(), FsError>)
        requires
            old(fs).wf(),
            old(fs).holds(self.id() as int),
            old(fs).holds(inode.id() as int),
            named(old(fs).tree(), self.id() as int, entry as int),
            inode.id() == entry_id(old(fs).tree()[self.id() as int], entry as int),
            old(fs).tree()[inode.id() as int].kind == kind,
            kind == FileType::Dir ==> old(fs).tree()[inode.id() as int].map.len() == 2,
        ensures
            final(fs).reliable() == old(fs).reliable(),
            entry < NDIRECT ==> final(fs).device() == old(fs).device(),
            match r {
                Ok(_) => {
                    let d = self.id() as int;
                    let i = entry as int;
                    let r0 = old(fs).raw();
                    let r1 = final(fs).raw();
                    let f = old(fs).tree()[d];
                    &&& final(fs).wf()
                    &&& final(fs).tree() == unnamed(old(fs).tree(), d, i)
                    &&& final(fs).handles() == old(fs).handles()
                    &&& r1.free == r0.free.update(f.map[i], true)
                    &&& r1.sup == (Super { unused: r0.sup.unused + 1, ..r0.sup })
                    &&& keeps(r0, r1, index_written(f, i))
                    &&& marks(r0, r1, true)
                    &&& others_same(r0, r1, d, inode.id() as int)
                    &&& r1.cache[d].dirty
                    &&& r1.cache[inode.id() as int] == (Slot {
                        inode: Inode {
                            nlinks: final(fs).tree()[inode.id() as int].nlinks,
                            ..r0.cache[inode.id() as int].inode
                        },
                        dirty: true,
                        ..r0.cache[inode.id() as int]
                    })
                },
                Err(e) => e == FsError::DeviceError && !final(fs).reliable(),
            },
    {
        let ghost r0 = fs.raw();
        let ghost t0 = fs.tree();
        let ghost d = self.id() as int;
        let ghost x = inode.id() as int;
        let ghost f = t0[d];
        proof {
            lemma_held(r0, d);
            lemma_held(r0, x);
            lemma_named_links(t0, d, entry as int);
        }
        inode.nlinks_dec(fs);
        if kind == FileType::Dir {
            inode.nlinks_dec(fs);  //for .
            self.nlinks_dec(fs);  //for ..
        }
        let ghost r1 = fs.raw();
        let ghost t1 = fs.tree();
        let ghost f1 = t1[d];
        assert(handles(r1) =~= handles(r0));
        assert(f1 == (Node { nlinks: f1.nlinks, ..f }));
        match self.remove_dirent_page(fs, entry) {
            Ok(_) => {},
            Err(e) => {
                return Err(e);
            },
        }
        proof {
            let g = Node { nlinks: f1.nlinks, ..entry_out(f, entry as int) };
            assert(handles(fs.raw()) =~= handles(r1));
            assert(fs.tree() =~= unnamed(t0, d, entry as int));
            lemma_entry_removed(t0, d, entry as int, g);
            if kind == FileType::Dir {
                lemma_rmdir_ok(t0, d, g, entry as int);
            } else {
                lemma_unlink_ok(t0, d, g, entry as int);
            }
        }
        Ok(())
    }

    /// Removes an entry. A directory that is removed has to be empty. The blocks of the file are freed
    /// if this was its last name and it has no handle.
    #[verifier::rlimit(40)]
    pub fn unlink<D: Device>(&self, fs: &mut SimpleFileSystem<D>, name: &str) -> (r: Result<
        (),
        FsError,
    >)
        requires
            old(fs).wf(),
            old(fs).holds(self.id() as int),
            may_unlink(old(fs).raw(), self.id() as int, name.spec_bytes()),
        ensures
            final(fs).reliable() == old(fs).reliable(),
            r != Err::<(), FsError>(FsError::DeviceError) ==> final(fs).wf(),
            ({
                let t = old(fs).tree();
                let f = t[self.id() as int];
                let r0 = old(fs).raw();
                let r1 = final(fs).raw();
                if r == Err::<(), FsError>(FsError::DeviceError) {
                    &&& !final(fs).reliable()
                    &&& f.kind == FileType::Dir
                    &&& f.nlinks > 0
                    &&& name.spec_bytes() != dot()
                    &&& name.spec_bytes() != dotdot()
                } else if f.kind != FileType::Dir {
                    r == Err::<(), FsError>(FsError::NotDir) && same_fs(*old(fs), *final(fs))
                } else if f.nlinks == 0 {
                    r == Err::<(), FsError>(FsError::DirRemoved) && same_fs(*old(fs), *final(fs))
                } else if name.spec_bytes() == dot() || name.spec_bytes() == dotdot() {
                    r == Err::<(), FsError>(FsError::IsDir) && same_fs(*old(fs), *final(fs))
                } else if !has_entry(f, name.spec_bytes()) {
                    r == Err::<(), FsError>(FsError::EntryNotFound) && same_fs(*old(fs), *final(fs))
                } else {
                    let i = find_entry(f, name.spec_bytes());
                    let x = entry_id(f, i);
                    if t[x].kind == FileType::Dir && t[x].map.len() > 2 {
                        &&& r == Err::<(), FsError>(FsError::DirNotEmpty)
                        &&& same_fs(*old(fs), *final(fs))
                    } else {
                        &&& r == Ok::<(), FsError>(())
                        &&& unlinked(r0, r1, self.id() as int, i)
                        &&& keeps(r0, r1, index_written(f, i).insert(x))
                        &&& left_behind(r0, r1, x, unnamed(t, self.id() as int, i)[x].nlinks)
                        &&& spared(r0, r1)
                        &&& marks(r0, r1, true)
                        &&& others_same(r0, r1, self.id() as int, x)
                        &&& r1.cache[self.id() as int].dirty
                        &&& old(fs).holds(x) ==> r1.cache[x].dirty
                        &&& old(fs).holds(x) && i < NDIRECT ==> final(fs).device() == old(
                            fs,
                        ).device()
                    }
                }
            }),
    {
        let ghost r0 = fs.raw();
        let ghost t0 = fs.tree();
        let ghost d = self.id() as int;
        let ghost f = t0[d];
        proof {
            lemma_held(r0, d);
        }
        let info = fs.disk_inode(self.number());
        if info.type_ != FileType::Dir {
            return Err(FsError::NotDir);
        }
        if info.nlinks == 0 {
            return Err(FsError::DirRemoved);
        }
        if is_dot(name) || is_dotdot(name) {
            return Err(FsError::IsDir);
        }
        let (inode_id, entry_id_) = match self.get_file_inode_and_entry_id(fs, name) {
            Ok(Some(p)) => p,
            Ok(None) => {
                return Err(FsError::EntryNotFound);
            },
            Err(e) => {
                return Err(e);
            },
        };
        let ghost x = inode_id as int;
        let ghost i = entry_id_ as int;
        proof {
            assert(named(t0, d, i)) by {
                lemma_tree_node(t0, d);
            }
            lemma_named_links(t0, d, i);
            assert(t0[x].kind == FileType::Dir ==> t0[x].map.len() >= 2) by {
                lemma_tree_node(t0, x);
            }
            lemma_contained(r0, x);
        }
        let inode = match self.open_entry(fs, inode_id) {
            Ok(inode) => inode,
            Err(e) => {
                return Err(e);
            },
        };
        let ghost r1 = fs.raw();
        proof {
            if r0.cache.contains_key(x) {
                lemma_held(r0, x);
            }
            assert(handles(r1).contains_key(x) && handles(r1).contains_key(d));
            lemma_held(r1, x);
        }
        let disk_inode = fs.disk_inode(inode_id);
        let type_ = disk_inode.type_;
        if type_ == FileType::Dir {
            // only . and ..
            if disk_inode.blocks > 2 {
                match inode.drop(fs) {
                    Ok(_) => {
                        proof {
                            lemma_given_back(r0, r1, fs.raw(), x);
                            assert(fs.raw().cache =~= r0.cache);
                            assert(fs.raw().disk =~= r0.disk);
                        }
                        return Err(FsError::DirNotEmpty);
                    },
                    Err(e) => {
                        return Err(e);
                    },
                }
            }
        }
        match self.take_out(fs, &inode, entry_id_, type_) {
            Ok(_) => {},
            Err(e) => {
                return Err(e);
            },
        }
        let ghost r2 = fs.raw();
        assert(handles(r2).contains_key(x));
        match inode.drop(fs) {
            Ok(_) => {},
            Err(e) => {
                return Err(e);
            },
        }
        proof {
            assert(handles(r2).contains_key(x));
            lemma_given_back(r0, r2, fs.raw(), x);
            lemma_owned(r0, x, x, as_inode());
            lemma_index_written(r0, d, i, x);
            assert(r2.disk[x] == r0.disk[x]);
        }
        Ok(())
    }

    /// A handle of the file that an entry names.
    fn open_entry<D: Device>(&self, fs: &mut SimpleFileSystem<D>, id: INodeId) -> (r: Result<
        INodeImpl,
        FsError,
    >)
        requires
            old(fs).wf(),
            live(old(fs).raw(), id as int),
            spare(old(fs).raw(), id as int),
        ensures
            final(fs).reliable() == old(fs).reliable(),
            match r {
                Ok(h) => {
                    &&& h.id() == id
                    &&& final(fs).device() == old(fs).device()
                    &&& !old(fs).holds(id as int) ==> !final(fs).raw().cache[id as int].dirty
                    &&& final(fs).raw().cache[id as int].inode == rec(old(fs).raw(), id as int)
                    &&& final(fs).wf()
                    &&& final(fs).tree() == old(fs).tree()
                    &&& final(fs).raw() == with_handle(old(fs).raw(), id as int)
                    &&& final(fs).handles() == one_more(old(fs).handles(), id as int)
                },
                Err(e) => {
                    &&& e == FsError::DeviceError
                    &&& !final(fs).reliable()
                    &&& same_fs(*old(fs), *final(fs))
                },
            },
    {
        let ghost r0 = fs.raw();
        proof {
            let x = id as int;
            lemma_load(
                r0,
                x,
                if r0.cache.contains_key(x) {
                    r0.cache[x].refs + 1
                } else {
                    1
                },
            );
        }
        match fs.get_inode(id) {
            Ok(h) => {
                assert(fs.handles() =~= one_more(handles(r0), id as int));
                Ok(h)
            },
            Err(e) => Err(e),
        }
    }

    /// Moves entry `entry` to another directory, with the links that it is worth.
    fn shift<D: Device>(
        &self,
        fs: &mut SimpleFileSystem<D>,
        dest: &INodeImpl,
        inode: &INodeImpl,
        entry: usize,
        name: &str,
    ) -> (r: Result<(), FsError>)
        requires
            old(fs).wf(),
            old(fs).holds(self.id() as int),
            old(fs).holds(dest.id() as int),
            old(fs).holds(inode.id() as int),
            self.id() != dest.id(),
            named(old(fs).tree(), self.id() as int, entry as int),
            inode.id() == entry_id(old(fs).tree()[self.id() as int], entry as int),
            old(fs).tree()[dest.id() as int].kind == FileType::Dir,
            old(fs).tree()[dest.id() as int].nlinks > 0,
            name.spec_bytes().len() <= MAX_FNAME_LEN,
            entry_fits(old(fs).tree()[dest.id() as int], old(fs).raw().sup.unused),
        ensures
            final(fs).reliable() == old(fs).reliable(),
            match r {
                Ok(_) => {
                    &&& final(fs).wf()
                    &&& moved(
                        old(fs).raw(),
                        final(fs).raw(),
                        self.id() as int,
                        entry as int,
                        dest.id() as int,
                        name.spec_bytes(),
                    )
                    &&& keeps(
                        old(fs).raw(),
                        final(fs).raw(),
                        body(final(fs).tree()[self.id() as int]).union(
                            body(final(fs).tree()[dest.id() as int]),
                        ),
                    )
                    &&& marks(old(fs).raw(), final(fs).raw(), true)
                    &&& others_same(
                        old(fs).raw(),
                        final(fs).raw(),
                        self.id() as int,
                        dest.id() as int,
                    )
                    &&& final(fs).raw().cache[self.id() as int].dirty
                    &&& final(fs).raw().cache[dest.id() as int].dirty
                },
                Err(e) => e == FsError::DeviceError && !final(fs).reliable(),
            },
    {
        let ghost r0 = fs.raw();
        let ghost t0 = fs.tree();
        let ghost d = self.id() as int;
        let ghost e = dest.id() as int;
        let ghost x = inode.id() as int;
        let ghost i = entry as int;
        let ghost f = t0[d];
        proof {
            lemma_held(r0, d);
            lemma_held(r0, e);
            lemma_held(r0, x);
            lemma_named_links(t0, d, i);
            lemma_dir_links(t0, e);
        }
        match dest.append_entry(fs, inode.number(), name) {
            Ok(_) => {},
            Err(e) => {
                return Err(e);
            },
        }
        let ghost r1 = fs.raw();
        let ghost t1 = fs.tree();
        assert(handles(r1) =~= handles(r0));
        assert(t1[d] == f);
        match self.remove_dirent_page(fs, entry) {
            Ok(_) => {},
            Err(e) => {
                return Err(e);
            },
        }
        let ghost r2 = fs.raw();
        let ghost t2 = fs.tree();
        assert(handles(r2) =~= handles(r0));
        proof {
            lemma_held(r2, x);
        }
        assert(t2[x].kind == t0[x].kind);
        if fs.disk_inode(inode.number()).type_ == FileType::Dir {
            self.nlinks_dec(fs);
            dest.nlinks_inc(fs);
        }
        proof {
            let t3 = fs.tree();
            let ge = t3[e];
            let gd = t3[d];
            assert(handles(fs.raw()) =~= handles(r0));
            assert(t3 =~= t0.insert(e, ge).insert(d, gd));
            lemma_entry_added(t0, e, t0[e], ge, x, name, r0.free);
            lemma_entry_removed(t0, d, i, gd);
            lemma_move_ok(t0, d, i, gd, e, ge);
            assert(body(gd) =~= body(t2[d]));
            assert(body(ge) =~= body(t1[e]));
        }
        Ok(())
    }

    /// Moves entry `entry` to another directory while a handle of what it names is held.
    #[verifier::rlimit(40)]
    fn relocate<D: Device>(
        &self,
        fs: &mut SimpleFileSystem<D>,
        dest: &INodeImpl,
        inode_id: INodeId,
        entry: usize,
        name: &str,
    ) -> (r: Result<(), FsError>)
        requires
            old(fs).wf(),
            old(fs).holds(self.id() as int),
            old(fs).holds(dest.id() as int),
            self.id() != dest.id(),
            named(old(fs).tree(), self.id() as int, entry as int),
            inode_id == entry_id(old(fs).tree()[self.id() as int], entry as int),
            spare(old(fs).raw(), inode_id as int),
            old(fs).tree()[dest.id() as int].kind == FileType::Dir,
            old(fs).tree()[dest.id() as int].nlinks > 0,
            name.spec_bytes().len() <= MAX_FNAME_LEN,
            entry_fits(old(fs).tree()[dest.id() as int], old(fs).raw().sup.unused),
        ensures
            final(fs).reliable() == old(fs).reliable(),
            match r {
                Ok(_) => {
                    let d = self.id() as int;
                    let e = dest.id() as int;
                    let r0 = old(fs).raw();
                    let r1 = final(fs).raw();
                    &&& final(fs).wf()
                    &&& moved(r0, r1, d, entry as int, e, name.spec_bytes())
                    &&& keeps(
                        r0,
                        r1,
                        body(final(fs).tree()[d]).union(body(final(fs).tree()[e])),
                    )
                    &&& spared(r0, r1)
                    &&& marks(r0, r1, true)
                    &&& others_same(r0, r1, d, e)
                    &&& r1.cache[d].dirty
                    &&& r1.cache[e].dirty
                },
                Err(e) => e == FsError::DeviceError && !final(fs).reliable(),
            },
    {
        let ghost r0 = fs.raw();
        let ghost t0 = fs.tree();
        let ghost d = self.id() as int;
        let ghost e = dest.id() as int;
        let ghost x = inode_id as int;
        proof {
            lemma_held(r0, d);
            lemma_named_links(t0, d, entry as int);
            lemma_contained(r0, x);
        }
        let inode = match self.open_entry(fs, inode_id) {
            Ok(inode) => inode,
            Err(e) => {
                return Err(e);
            },
        };
        let ghost r1 = fs.raw();
        proof {
            if r0.cache.contains_key(x) {
                lemma_held(r0, x);
            }
            assert(handles(r1).contains_key(x));
            assert(handles(r1).contains_key(d));
            assert(handles(r1).contains_key(e));
        }
        match self.shift(fs, dest, &inode, entry, name) {
            Ok(_) => {},
            Err(e) => {
                return Err(e);
            },
        }
        let ghost r2 = fs.raw();
        assert(handles(r2).contains_key(x));
        assert(tree(r2)[x].nlinks > 0);
        match inode.drop(fs) {
            Ok(_) => {},
            Err(e) => {
                return Err(e);
            },
        }
        proof {
            lemma_given_back(r0, r2, fs.raw(), x);
            assert(fs.raw().disk[x] == r2.disk[x]);
            assert(fs.raw().disk =~= r2.disk);
            lemma_spared(r0, fs.raw(), d, e, d);
            let r3 = fs.raw();
            assert forall|z: int| z != d && z != e implies (#[trigger] r3.cache.contains_key(z)
                <==> r0.cache.contains_key(z)) && (r0.cache.contains_key(z) ==> r3.cache[z]
                == r0.cache[z]) by {
                assert(r2.cache.contains_key(z) <==> r1.cache.contains_key(z));
            }
        }
        Ok(())
    }

    /// Gives entry `entry` a new name.
    fn rename<D: Device>(&self, fs: &mut SimpleFileSystem<D>, entry: usize, name: &str) -> (r:
        Result<(), FsError>)
        requires
            old(fs).wf(),
            old(fs).holds(self.id() as int),
            named(old(fs).tree(), self.id() as int, entry as int),
            name.spec_bytes().len() <= MAX_FNAME_LEN,
        ensures
            final(fs).reliable() == old(fs).reliable(),
            match r {
                Ok(_) => {
                    let d = self.id() as int;
                    let r0 = old(fs).raw();
                    let r1 = final(fs).raw();
                    &&& final(fs).wf()
                    &&& renamed(r0, r1, d, entry as int, name.spec_bytes())
                    &&& r1 == (Raw { disk: r1.disk, ..r0 })
                    &&& keeps(r0, r1, body(final(fs).tree()[d]))
                    &&& spared(r0, r1)
                },
                Err(e) => e == FsError::DeviceError && !final(fs).reliable(),
            },
    {
        let ghost r0 = fs.raw();
        let ghost t0 = fs.tree();
        let ghost d = self.id() as int;
        proof {
            lemma_held(r0, d);
        }
        match self.rename_entry(fs, entry, name) {
            Ok(_) => {
                proof {
                    lemma_renamed(t0, d, entry as int, name);
                    assert(handles(fs.raw()) =~= handles(r0));
                    assert(body(fs.tree()[d]) =~= body(t0[d]));
                    lemma_spared(r0, fs.raw(), d, d, d);
                }
                Ok(())
            },
            Err(e) => Err(e),
        }
    }

    /// Moves an entry to a directory of this file system under a new name. `target` is `None` for an
    /// inode that belongs to another file system.
    #[verifier::rlimit(40)]
    pub fn move_<D: Device>(
        &self,
        fs: &mut SimpleFileSystem<D>,
        old_name: &str,
        target: Option<&INodeImpl>,
        new_name: &str,
    ) -> (r: Result<(), FsError>)
        requires
            old(fs).wf(),
            old(fs).holds(self.id() as int),
            target matches Some(c) ==> old(fs).holds(c.id() as int),
            target matches Some(c) ==> may_move(
                old(fs).raw(),
                self.id() as int,
                old_name.spec_bytes(),
                c.id() as int,
                new_name.spec_bytes(),
            ),
        ensures
            final(fs).reliable() == old(fs).reliable(),
            r != Err::<(), FsError>(FsError::DeviceError) ==> final(fs).wf(),
            ({
                let t = old(fs).tree();
                let d = self.id() as int;
                let f = t[d];
                let r0 = old(fs).raw();
                let r1 = final(fs).raw();
                if r == Err::<(), FsError>(FsError::DeviceError) {
                    &&& !final(fs).reliable()
                    &&& f.kind == FileType::Dir
                    &&& f.nlinks > 0
                    &&& old_name.spec_bytes() != dot()
                    &&& old_name.spec_bytes() != dotdot()
                    &&& target matches Some(c)
                    &&& t[c.id() as int].kind == FileType::Dir
                    &&& t[c.id() as int].nlinks > 0
                } else if f.kind != FileType::Dir {
                    r == Err::<(), FsError>(FsError::NotDir) && same_fs(*old(fs), *final(fs))
                } else if f.nlinks == 0 {
                    r == Err::<(), FsError>(FsError::DirRemoved) && same_fs(*old(fs), *final(fs))
                } else if old_name.spec_bytes() == dot() || old_name.spec_bytes() == dotdot() {
                    r == Err::<(), FsError>(FsError::IsDir) && same_fs(*old(fs), *final(fs))
                } else {
                    match target {
                        None => {
                            &&& r == Err::<(), FsError>(FsError::NotSameFs)
                            &&& same_fs(*old(fs), *final(fs))
                        },
                        Some(c) => {
                            let e = c.id() as int;
                            let i = find_entry(f, old_name.spec_bytes());
                            if t[e].kind != FileType::Dir {
                                &&& r == Err::<(), FsError>(FsError::NotDir)
                                &&& same_fs(*old(fs), *final(fs))
                            } else if t[e].nlinks == 0 {
                                &&& r == Err::<(), FsError>(FsError::DirRemoved)
                                &&& same_fs(*old(fs), *final(fs))
                            } else if has_entry(t[e], new_name.spec_bytes()) {
                                &&& r == Err::<(), FsError>(FsError::EntryExist)
                                &&& same_fs(*old(fs), *final(fs))
                            } else if !has_entry(f, old_name.spec_bytes()) {
                                &&& r == Err::<(), FsError>(FsError::EntryNotFound)
                                &&& same_fs(*old(fs), *final(fs))
                            } else if e == d {
                                &&& r == Ok::<(), FsError>(())
                                &&& renamed(r0, r1, d, i, new_name.spec_bytes())
                                &&& r1 == (Raw { disk: r1.disk, ..r0 })
                                &&& keeps(r0, r1, body(final(fs).tree()[d]))
                                &&& spared(r0, r1)
                            } else {
                                &&& r == Ok::<(), FsError>(())
                                &&& moved(r0, r1, d, i, e, new_name.spec_bytes())
                                &&& keeps(
                                    r0,
                                    r1,
                                    body(final(fs).tree()[d]).union(body(final(fs).tree()[e])),
                                )
                                &&& spared(r0, r1)
                                &&& marks(r0, r1, true)
                                &&& others_same(r0, r1, d, e)
                                &&& r1.cache[d].dirty
                                &&& r1.cache[e].dirty
                            }
                        },
                    }
                }
            }),
    {
        let ghost r0 = fs.raw();
        let ghost t0 = fs.tree();
        let ghost d = self.id() as int;
        let ghost f = t0[d];
        proof {
            lemma_held(r0, d);
        }
        let info = fs.disk_inode(self.number());
        if info.type_ != FileType::Dir {
            return Err(FsError::NotDir);
        }
        if info.nlinks == 0 {
            return Err(FsError::DirRemoved);
        }
        if is_dot(old_name) || is_dotdot(old_name) {
            return Err(FsError::IsDir);
        }
        let dest = match target {
            Some(dest) => dest,
            None => {
                return Err(FsError::NotSameFs);
            },
        };
        proof {
            lemma_held(r0, dest.id() as int);
        }
        let dest_info = fs.disk_inode(dest.number());
        if dest_info.type_ != FileType::Dir {
            return Err(FsError::NotDir);
        }
        if dest_info.nlinks == 0 {
            return Err(FsError::DirRemoved);
        }
        match dest.get_file_inode_id(fs, new_name) {
            Ok(None) => {},
            Ok(Some(_)) => {
                return Err(FsError::EntryExist);
            },
            Err(e) => {
                return Err(e);
            },
        }
        let (inode_id, entry) = match self.get_file_inode_and_entry_id(fs, old_name) {
            Ok(Some(p)) => p,
            Ok(None) => {
                return Err(FsError::EntryNotFound);
            },
            Err(e) => {
                return Err(e);
            },
        };
        let ghost x = inode_id as int;
        let ghost i = entry as int;
        proof {
            assert(named(t0, d, i)) by {
                lemma_tree_node(t0, d);
            }
            lemma_named_links(t0, d, i);
            lemma_contained(r0, x);
        }
        if self.number() == dest.number() {
            // rename: in place modify name
            match self.rename(fs, entry, new_name) {
                Ok(_) => Ok(()),
                Err(e) => Err(e),
            }
        } else {
            // move
            match self.relocate(fs, dest, inode_id, entry, new_name) {
                Ok(_) => Ok(()),
                Err(e) => Err(e),
            }
        }
    }

    /// Whether `create` may be called.
    pub fn can_create<D: Device>(
        &self,
        fs: &SimpleFileSystem<D>,
        name: &str,
        type_: vfs::FileType,
    ) -> (r: Result<bool, FsError>)
        requires
            fs.wf(),
            fs.holds(self.id() as int),
        ensures
            match r {
                Ok(b) => b == may_create(fs.raw(), self.id() as int, name.spec_bytes(), type_),
                Err(e) => {
                    &&& e == FsError::DeviceError
                    &&& !fs.reliable()
                    &&& fs.tree()[self.id() as int].kind == FileType::Dir
                    &&& fs.tree()[self.id() as int].nlinks > 0
                },
            },
    {
        proof {
            lemma_held(fs.raw(), self.id() as int);
        }
        if !self.in_order(fs) {
            return Ok(true);
        }
        match self.get_file_inode_id(fs, name) {
            Ok(None) => {},
            Ok(Some(_)) => {
                return Ok(true);
            },
            Err(e) => {
                return Err(e);
            },
        }
        if fs.unused_blocks() == 0 {
            return Ok(true);
        }
        let body: usize = match type_ {
            vfs::FileType::File => 1,
            vfs::FileType::SymLink => 1,
            vfs::FileType::Dir => 3,
            _ => {
                return Ok(true);
            },
        };
        Ok(name.as_bytes().len() <= MAX_FNAME_LEN && self.fits_entry(fs, body))
    }

    /// Whether `link` may be called.
    pub fn can_link<D: Device>(
        &self,
        fs: &SimpleFileSystem<D>,
        name: &str,
        other: &INodeImpl,
    ) -> (r: Result<bool, FsError>)
        requires
            fs.wf(),
            fs.holds(self.id() as int),
            fs.holds(other.id() as int),
        ensures
            match r {
                Ok(b) => b == may_link(
                    fs.raw(),
                    self.id() as int,
                    name.spec_bytes(),
                    other.id() as int,
                ),
                Err(e) => {
                    &&& e == FsError::DeviceError
                    &&& !fs.reliable()
                    &&& fs.tree()[self.id() as int].kind == FileType::Dir
                    &&& fs.tree()[self.id() as int].nlinks > 0
                    &&& fs.tree()[other.id() as int].kind != FileType::Dir
                },
            },
    {
        proof {
            lemma_held(fs.raw(), self.id() as int);
            lemma_held(fs.raw(), other.id() as int);
        }
        let info = fs.disk_inode(other.number());
        if !self.in_order(fs) || info.type_ == FileType::Dir {
            return Ok(true);
        }
        match self.get_file_inode_id(fs, name) {
            Ok(None) => {},
            Ok(Some(_)) => {
                return Ok(true);
            },
            Err(e) => {
                return Err(e);
            },
        }
        Ok(
            name.as_bytes().len() <= MAX_FNAME_LEN && self.fits_entry(fs, 0) && info.nlinks
                < u16::MAX,
        )
    }

    /// Whether `unlink` may be called.
    pub fn can_unlink<D: Device>(&self, fs: &SimpleFileSystem<D>, name: &str) -> (r: Result<
        bool,
        FsError,
    >)
        requires
            fs.wf(),
            fs.holds(self.id() as int),
        ensures
            match r {
                Ok(b) => b == may_unlink(fs.raw(), self.id() as int, name.spec_bytes()),
                Err(e) => {
                    &&& e == FsError::DeviceError
                    &&& !fs.reliable()
                    &&& fs.tree()[self.id() as int].kind == FileType::Dir
                    &&& fs.tree()[self.id() as int].nlinks > 0
                    &&& name.spec_bytes() != dot()
                    &&& name.spec_bytes() != dotdot()
                },
            },
    {
        proof {
            lemma_held(fs.raw(), self.id() as int);
        }
        if !self.in_order(fs) || is_dot(name) || is_dotdot(name) {
            return Ok(true);
        }
        match self.get_file_inode_id(fs, name) {
            Ok(None) => Ok(true),
            Ok(Some(id)) => Ok(fs.has_spare(id)),
            Err(e) => Err(e),
        }
    }

    /// Whether `move_` may be called.
    pub fn can_move<D: Device>(
        &self,
        fs: &SimpleFileSystem<D>,
        old_name: &str,
        target: &INodeImpl,
        new_name: &str,
    ) -> (r: Result<bool, FsError>)
        requires
            fs.wf(),
            fs.holds(self.id() as int),
            fs.holds(target.id() as int),
        ensures
            match r {
                Ok(b) => b == may_move(
                    fs.raw(),
                    self.id() as int,
                    old_name.spec_bytes(),
                    target.id() as int,
                    new_name.spec_bytes(),
                ),
                Err(e) => {
                    &&& e == FsError::DeviceError
                    &&& !fs.reliable()
                    &&& fs.tree()[self.id() as int].kind == FileType::Dir
                    &&& fs.tree()[self.id() as int].nlinks > 0
                    &&& old_name.spec_bytes() != dot()
                    &&& old_name.spec_bytes() != dotdot()
                    &&& fs.tree()[target.id() as int].kind == FileType::Dir
                    &&& fs.tree()[target.id() as int].nlinks > 0
                },
            },
    {
        proof {
            lemma_held(fs.raw(), self.id() as int);
            lemma_held(fs.raw(), target.id() as int);
        }
        if !self.in_order(fs) || is_dot(old_name) || is_dotdot(old_name) || !target.in_order(fs) {
            return Ok(true);
        }
        match target.get_file_inode_id(fs, new_name) {
            Ok(None) => {},
            Ok(Some(_)) => {
                return Ok(true);
            },
            Err(e) => {
                return Err(e);
            },
        }
        let id = match self.get_file_inode_id(fs, old_name) {
            Ok(Some(id)) => id,
            Ok(None) => {
                return Ok(true);
            },
            Err(e) => {
                return Err(e);
            },
        };
        if new_name.as_bytes().len() > MAX_FNAME_LEN {
            return Ok(false);
        }
        Ok(
            self.number() == target.number() || (target.fits_entry(fs, 0) && fs.has_spare(id)),
        )
    }

    /// Whether this is a directory that has not been removed.
    fn in_order<D: Device>(&self, fs: &SimpleFileSystem<D>) -> (r: bool)
        requires
            core_ok(fs.raw()),
            fs.holds(self.id() as int),
        ensures
            ({
                let f = fs.tree()[self.id() as int];
                r == (f.kind == FileType::Dir && f.nlinks > 0)
            }),
    {
        proof {
            lemma_held(fs.raw(), self.id() as int);
        }
        let info = fs.disk_inode(self.number());
        info.type_ == FileType::Dir && info.nlinks > 0
    }
}

} // verus!

//! What calls on directories have to do with each other.

use vstd::prelude::*;
use vstd::string::StringSliceAdditionalSpecFns;
use vstd::utf8::{encode_utf8, encode_utf8_valid_utf8};

use crate::calls::{lemma_after_less, lemma_told};
use crate::device::Device;
use crate::dir::{entry_need, lemma_new_dir};
use crate::entries::{body_need, created, inner_type};
use crate::freemap::{
    after, count, lemma_after_count, lemma_count_len, lemma_count_lowest, lemma_count_update, taken,
};
use crate::fs::{INodeImpl, SimpleFileSystem};
use crate::inode::dropped;
use crate::laws::{
    law_blocks, law_create_find, law_dots, law_link_find, law_move_find, law_rename_find, law_unlink_find,
    law_unused, lemma_some_entry, lookup, names_unique, plain,
};
use crate::model::{
    as_inode, core_ok, handles, lemma_bounds, lemma_held, lemma_owned, live, tree, Node, Raw, Tree,
};
use crate::structs::{BlockId, FileType, INodeId, MAX_BLOCKS};
use crate::tree::{
    dot, dotdot, entry_id, entry_name, find_entry, first_entry, has_entry, is_dir, lemma_closed,
    lemma_tree_node, named, node_ok, tree_ok,
};
use crate::vfs::{self, FsError, FsInfo, Metadata};

verus! {

/// A name whose bytes can be stored in full.
pub open spec fn fit_name(name: &str) -> bool {
    plain(name.spec_bytes()) && name.spec_bytes().len() <= 255
}

/// Looking a name up gives a handle of the inode that the name stands for; it is refused in files, and
/// where the name stands for nothing. Else it fails only with the device, which a reliable one does not.
/// No file is changed, and one handle is counted.
pub proof fn law_find<D: Device>(
    d: INodeImpl,
    fs: &mut SimpleFileSystem<D>,
    name: &str,
    r: Result<INodeImpl, FsError>,
    m: Metadata,
    q: Result<Option<INodeId>, FsError>,
    g: INodeImpl,
    m1: Metadata,
    m2: Metadata,
    i: FsInfo,
    i2: FsInfo,
)
    requires
        fs.wf(),
        q is Ok,
        fs.holds(d.id() as int),
        fs.holds(g.id() as int),
        call_ensures(INodeImpl::find::<D>, (&d, fs, name), r),
        call_ensures(INodeImpl::metadata::<D>, (&d, &*fs), Ok::<Metadata, FsError>(m)),
        call_ensures(INodeImpl::get_file_inode_id::<D>, (&d, &*fs, name), q),
        call_ensures(INodeImpl::metadata::<D>, (&g, &*fs), Ok::<Metadata, FsError>(m1)),
        call_ensures(INodeImpl::metadata::<D>, (&g, &*final(fs)), Ok::<Metadata, FsError>(m2)),
        call_ensures(SimpleFileSystem::<D>::info, (&*fs,), i),
        call_ensures(SimpleFileSystem::<D>::info, (&*final(fs),), i2),
    ensures
        m.type_ != vfs::FileType::Dir <==> r == Err::<INodeImpl, FsError>(FsError::NotDir),
        r == Err::<INodeImpl, FsError>(FsError::DeviceError) ==> !old(fs).reliable(),
        m.type_ == vfs::FileType::Dir ==> match q->Ok_0 {
            None => r == Err::<INodeImpl, FsError>(FsError::EntryNotFound) || r == Err::<
                INodeImpl,
                FsError,
            >(FsError::DeviceError),
            Some(x) => (r is Ok && r->Ok_0.id() == x) || r == Err::<INodeImpl, FsError>(
                FsError::DeviceError,
            ),
        },
        m2 == m1,
        i2 == i,
        final(fs).device() == old(fs).device(),
        final(fs).tree() == old(fs).tree(),
        r matches Ok(h) ==> {
            &&& final(fs).holds(h.id() as int)
            &&& final(fs).handles()[h.id() as int] == 1 + if old(fs).holds(h.id() as int) {
                old(fs).handles()[h.id() as int]
            } else {
                0
            }
            &&& g.id() != h.id() ==> {
                let y = g.id() as int;
                final(fs).handles()[y] == old(fs).handles()[y]
            }
        },
        r is Err ==> final(fs).handles() == old(fs).handles(),
{
    lemma_told(d, &*fs, m);
    lemma_got(d, &*fs, name, q);
    lemma_tree_node(fs.tree(), d.id() as int);
}

/// What a created directory says of where it was created: its parent is the directory in which it was
/// created, and it is itself under the name for itself.
pub proof fn law_create_parent<D: Device>(
    d: INodeImpl,
    fs: &mut SimpleFileSystem<D>,
    name: &str,
    mode: u32,
    x: INodeImpl,
    fs2: &mut SimpleFileSystem<D>,
    up: &str,
    r: Result<INodeImpl, FsError>,
    fs3: &mut SimpleFileSystem<D>,
    here: &str,
    r3: Result<INodeImpl, FsError>,
)
    requires
        fs.wf(),
        fs.reliable(),
        fs.holds(d.id() as int),
        call_ensures(
            INodeImpl::create::<D>,
            (&d, fs, name, vfs::FileType::Dir, mode),
            Ok::<INodeImpl, FsError>(x),
        ),
        *fs2 == *final(fs),
        *fs3 == *final(fs),
        up.spec_bytes() == seq![46u8, 46u8],
        here.spec_bytes() == seq![46u8],
        call_ensures(INodeImpl::find::<D>, (&x, fs2, up), r),
        call_ensures(INodeImpl::find::<D>, (&x, fs3, here), r3),
    ensures
        r is Ok && r->Ok_0.id() == d.id(),
        r3 is Ok && r3->Ok_0.id() == x.id(),
{
    let t = final(fs).tree();
    let y = x.id() as int;
    let dd = d.id() as int;
    lemma_held(fs.raw(), dd);
    assert(handles(final(fs).raw()).contains_key(y));
    lemma_held(final(fs).raw(), y);
    lemma_tree_node(t, y);
    law_dots(t, y);
    lemma_new_dir(t[y], y, dd, taken(after(fs.raw().free, 1), 2), 2, 0);
    lemma_second(t[y], y, dd);
}

/// The entry for the parent is the first of its name.
pub proof fn lemma_second(f: Node, x: int, parent: int)
    requires
        node_ok(x, f),
        f.kind == FileType::Dir,
        entry_id(f, 1) == parent,
    ensures
        lookup(f, dotdot()) == Some(parent),
{
    assert(dot().len() != dotdot().len());
    assert(first_entry(f, dotdot(), 1));
    let k = find_entry(f, dotdot());
    assert(first_entry(f, dotdot(), k));
    if k == 0 {
        assert(entry_name(f, 0) == dot());
    } else if k > 1 {
        assert(entry_name(f, 1) != dotdot());
    }
}

/// What a lookup without a handle says.
pub proof fn lemma_got<D: Device>(
    d: INodeImpl,
    fs: &SimpleFileSystem<D>,
    name: &str,
    q: Result<Option<INodeId>, FsError>,
)
    requires
        fs.reliable() || q is Ok,
        call_ensures(INodeImpl::get_file_inode_id::<D>, (&d, fs, name), q),
    ensures
        q is Ok,
        match q->Ok_0 {
            Some(x) => lookup(fs.tree()[d.id() as int], name.spec_bytes()) == Some(x as int),
            None => lookup(fs.tree()[d.id() as int], name.spec_bytes()) is None,
        },
{
}

/// A file that has been created is found under its name and no other name stands for anything else
/// than before.
pub proof fn law_create_found<D: Device>(
    d: INodeImpl,
    fs: &mut SimpleFileSystem<D>,
    name: &str,
    type_: vfs::FileType,
    mode: u32,
    x: INodeImpl,
    q: Result<Option<INodeId>, FsError>,
    other: &str,
    q1: Result<Option<INodeId>, FsError>,
    q2: Result<Option<INodeId>, FsError>,
)
    requires
        fs.wf(),
        fs.reliable(),
        fs.holds(d.id() as int),
        fit_name(name),
        call_ensures(
            INodeImpl::create::<D>,
            (&d, fs, name, type_, mode),
            Ok::<INodeImpl, FsError>(x),
        ),
        call_ensures(INodeImpl::get_file_inode_id::<D>, (&d, &*final(fs), name), q),
        other.spec_bytes() != name.spec_bytes(),
        call_ensures(INodeImpl::get_file_inode_id::<D>, (&d, &*fs, other), q1),
        call_ensures(INodeImpl::get_file_inode_id::<D>, (&d, &*final(fs), other), q2),
    ensures
        q == Ok::<Option<INodeId>, FsError>(Some(x.id())),
        q1 is Ok,
        q2 == q1,
{
    let r = fs.raw();
    let u = final(fs).raw();
    let dd = d.id() as int;
    let kind = inner_type(type_)->0;
    lemma_held(r, dd);
    lemma_listed_room(r, u, dd, name, kind);
    encode_utf8_valid_utf8(name@);
    law_create_find(r, u, dd, name.spec_bytes(), kind);
    lemma_got(d, &*final(fs), name, q);
    lemma_got(d, &*fs, other, q1);
    lemma_got(d, &*final(fs), other, q2);
    assert(lookup(tree(u)[dd], other.spec_bytes()) == lookup(tree(r)[dd], other.spec_bytes()));
}

/// A directory that has taken an entry had room for it.
proof fn lemma_listed_room(r: Raw, s: Raw, d: int, name: &str, kind: FileType)
    requires
        tree_ok(tree(s)),
        created(r, s, d, name.spec_bytes(), kind),
    ensures
        tree(r)[d].map.len() < MAX_BLOCKS,
{
    assert(tree(s).contains_key(d));
    lemma_tree_node(tree(s), d);
}

/// What is told of a file that has been created, and of the directory in which it was created: a new
/// file is empty and has one link; a new directory has two entries and two links, and its parent one
/// link more; the directory has one entry more. One handle of the file is counted.
pub proof fn law_create_told<D: Device>(
    d: INodeImpl,
    fs: &mut SimpleFileSystem<D>,
    name: &str,
    type_: vfs::FileType,
    mode: u32,
    x: INodeImpl,
    m: Metadata,
    m2: Metadata,
    n: Metadata,
)
    requires
        fs.wf(),
        fs.reliable(),
        fs.holds(d.id() as int),
        call_ensures(
            INodeImpl::create::<D>,
            (&d, fs, name, type_, mode),
            Ok::<INodeImpl, FsError>(x),
        ),
        call_ensures(INodeImpl::metadata::<D>, (&d, &*fs), Ok::<Metadata, FsError>(m)),
        call_ensures(INodeImpl::metadata::<D>, (&d, &*final(fs)), Ok::<Metadata, FsError>(m2)),
        call_ensures(INodeImpl::metadata::<D>, (&x, &*final(fs)), Ok::<Metadata, FsError>(n)),
    ensures
        x.id() != d.id(),
        n.inode == x.id(),
        n.type_ == type_,
        type_ == vfs::FileType::Dir ==> n.size == 2 && n.blocks == 2 && n.nlinks == 2,
        type_ != vfs::FileType::Dir ==> n.size == 0 && n.blocks == 0 && n.nlinks == 1,
        m2.size == m.size + 1,
        m2.nlinks == m.nlinks + if type_ == vfs::FileType::Dir {
            1int
        } else {
            0int
        },
        m2 == (Metadata { size: m2.size, blocks: m2.size, nlinks: m2.nlinks, ..m }),
        final(fs).handles() == old(fs).handles().insert(x.id() as int, 1),
        !old(fs).holds(x.id() as int),
{
    let dd = d.id() as int;
    lemma_told(d, &*fs, m);
    lemma_tree_node(fs.tree(), dd);
    if fs.holds(x.id() as int) {
        lemma_held(fs.raw(), x.id() as int);
    }
    assert(handles(final(fs).raw()).contains_key(x.id() as int));
    assert(handles(final(fs).raw()).contains_key(dd));
    lemma_told(d, &*final(fs), m2);
    lemma_told(x, &*final(fs), n);
    lemma_tree_node(final(fs).tree(), dd);
    lemma_tree_node(final(fs).tree(), x.id() as int);
}

/// A file that is created takes the lowest free block for its inode, and as many further blocks as it
/// and its entry need: a directory two, an entry one, and one for the numbers of blocks with the
/// twelfth entry.
pub proof fn law_create_space<D: Device>(
    d: INodeImpl,
    fs: &mut SimpleFileSystem<D>,
    name: &str,
    type_: vfs::FileType,
    mode: u32,
    x: INodeImpl,
    m: Metadata,
    i: FsInfo,
    i2: FsInfo,
    b: usize,
    used: bool,
)
    requires
        fs.wf(),
        fs.reliable(),
        fs.holds(d.id() as int),
        call_ensures(
            INodeImpl::create::<D>,
            (&d, fs, name, type_, mode),
            Ok::<INodeImpl, FsError>(x),
        ),
        call_ensures(INodeImpl::metadata::<D>, (&d, &*fs), Ok::<Metadata, FsError>(m)),
        call_ensures(SimpleFileSystem::<D>::info, (&*fs,), i),
        call_ensures(SimpleFileSystem::<D>::info, (&*final(fs),), i2),
        call_ensures(SimpleFileSystem::<D>::in_use, (&*fs, b), used),
    ensures
        b < x.id() ==> used,
        b == x.id() ==> !used,
        i2.bfree == i.bfree - (if type_ == vfs::FileType::Dir {
            4int
        } else {
            2int
        }) - (if m.size == 11 {
            1int
        } else {
            0int
        }),
        i2 == (FsInfo { bfree: i2.bfree, bavail: i2.bfree, ffree: i2.bfree, ..i }),
{
    let r = fs.raw();
    lemma_told(d, &*fs, m);
    lemma_tree_node(fs.tree(), d.id() as int);
    lemma_bounds(r);
    law_unused(r);
    lemma_count_lowest(r.free);
    lemma_count_len(r.free);
    lemma_bounds(final(fs).raw());
    law_unused(final(fs).raw());
    lemma_count_len(final(fs).raw().free);
}

/// Two states in which a file is the same show the same of it.
pub proof fn law_same_file<D: Device>(
    g: INodeImpl,
    a: &SimpleFileSystem<D>,
    b: &SimpleFileSystem<D>,
    m: Metadata,
    m2: Metadata,
    offset: usize,
    buf: &mut [u8],
    n: Result<usize, FsError>,
    buf2: &mut [u8],
    n2: Result<usize, FsError>,
    name: &str,
    q: Result<Option<INodeId>, FsError>,
    q2: Result<Option<INodeId>, FsError>,
    k: usize,
    s: Result<String, FsError>,
    s2: Result<String, FsError>,
)
    requires
        a.reliable(),
        b.reliable(),
        a.tree()[g.id() as int] == b.tree()[g.id() as int],
        call_ensures(INodeImpl::metadata::<D>, (&g, a), Ok::<Metadata, FsError>(m)),
        call_ensures(INodeImpl::metadata::<D>, (&g, b), Ok::<Metadata, FsError>(m2)),
        buf@ == buf2@,
        call_ensures(INodeImpl::read_at::<D>, (&g, a, offset, buf), n),
        call_ensures(INodeImpl::read_at::<D>, (&g, b, offset, buf2), n2),
        call_ensures(INodeImpl::get_file_inode_id::<D>, (&g, a, name), q),
        call_ensures(INodeImpl::get_file_inode_id::<D>, (&g, b, name), q2),
        call_ensures(INodeImpl::get_entry::<D>, (&g, a, k), s),
        call_ensures(INodeImpl::get_entry::<D>, (&g, b, k), s2),
    ensures
        m2 == m,
        n is Ok <==> n2 is Ok,
        n is Ok ==> n2 == n,
        final(buf2)@ == final(buf)@,
        q is Ok && q2 == q,
        s is Ok <==> s2 is Ok,
        s is Ok ==> encode_utf8(s2->Ok_0@) == encode_utf8(s->Ok_0@),
        s is Err ==> s2->Err_0 == s->Err_0,
{
    lemma_got(g, a, name, q);
    lemma_got(g, b, name, q2);
    assert(final(buf2)@ =~= final(buf)@);
}

/// A call for one file leaves all others as they are.
pub proof fn law_create_others<D: Device>(
    d: INodeImpl,
    fs: &mut SimpleFileSystem<D>,
    name: &str,
    type_: vfs::FileType,
    mode: u32,
    x: INodeImpl,
    y: int,
)
    requires
        fs.wf(),
        call_ensures(
            INodeImpl::create::<D>,
            (&d, fs, name, type_, mode),
            Ok::<INodeImpl, FsError>(x),
        ),
        fs.tree().contains_key(y),
        y != d.id(),
    ensures
        y != x.id(),
        final(fs).tree().contains_key(y),
        final(fs).tree()[y] == old(fs).tree()[y],
{
}

/// Creation is refused in files, in removed directories, for names that exist, for types that are not
/// stored, and without a free block. Else it fails only with the device, which a reliable one does not.
pub proof fn law_create_served<D: Device>(
    d: INodeImpl,
    fs: &mut SimpleFileSystem<D>,
    name: &str,
    type_: vfs::FileType,
    mode: u32,
    r: Result<INodeImpl, FsError>,
    m: Metadata,
    q: Result<Option<INodeId>, FsError>,
    i: FsInfo,
)
    requires
        fs.wf(),
        fs.holds(d.id() as int),
        call_ensures(INodeImpl::create::<D>, (&d, fs, name, type_, mode), r),
        call_ensures(INodeImpl::metadata::<D>, (&d, &*fs), Ok::<Metadata, FsError>(m)),
        call_ensures(INodeImpl::get_file_inode_id::<D>, (&d, &*fs, name), q),
        call_ensures(SimpleFileSystem::<D>::info, (&*fs,), i),
        q is Ok,
    ensures
        ({
            if r == Err::<INodeImpl, FsError>(FsError::DeviceError) {
                !old(fs).reliable() && m.type_ == vfs::FileType::Dir && m.nlinks > 0
            } else if m.type_ != vfs::FileType::Dir {
                r == Err::<INodeImpl, FsError>(FsError::NotDir)
            } else if m.nlinks == 0 {
                r == Err::<INodeImpl, FsError>(FsError::DirRemoved)
            } else if q != Ok::<Option<INodeId>, FsError>(None) {
                r == Err::<INodeImpl, FsError>(FsError::EntryExist)
            } else if type_ != vfs::FileType::File && type_ != vfs::FileType::Dir && type_
                != vfs::FileType::SymLink {
                r == Err::<INodeImpl, FsError>(FsError::InvalidParam)
            } else if i.bfree == 0 {
                r == Err::<INodeImpl, FsError>(FsError::NoDeviceSpace)
            } else {
                r is Ok
            }
        }),
        r is Err && r != Err::<INodeImpl, FsError>(FsError::DeviceError) ==> final(fs).tree() == old(fs).tree() && final(fs).handles() == old(fs).handles()
            && final(fs).device() == old(fs).device(),
{
    lemma_told(d, &*fs, m);
    lemma_tree_node(fs.tree(), d.id() as int);
    lemma_got(d, &*fs, name, q);
    law_unused(fs.raw());
    lemma_bounds(fs.raw());
    lemma_count_len(fs.raw().free);
}

/// A file that has been given another name is found under it and no other name stands for anything
/// else. The file has one link more and is the same otherwise, the directory one entry more.
pub proof fn law_link_found<D: Device>(
    d: INodeImpl,
    fs: &mut SimpleFileSystem<D>,
    name: &str,
    c: INodeImpl,
    q: Result<Option<INodeId>, FsError>,
    other: &str,
    q1: Result<Option<INodeId>, FsError>,
    q2: Result<Option<INodeId>, FsError>,
)
    requires
        fs.wf(),
        fs.reliable(),
        fs.holds(d.id() as int),
        fs.holds(c.id() as int),
        fit_name(name),
        call_ensures(INodeImpl::link::<D>, (&d, fs, name, Some(&c)), Ok::<(), FsError>(())),
        call_ensures(INodeImpl::get_file_inode_id::<D>, (&d, &*final(fs), name), q),
        other.spec_bytes() != name.spec_bytes(),
        call_ensures(INodeImpl::get_file_inode_id::<D>, (&d, &*fs, other), q1),
        call_ensures(INodeImpl::get_file_inode_id::<D>, (&d, &*final(fs), other), q2),
    ensures
        q == Ok::<Option<INodeId>, FsError>(Some(c.id())),
        q1 is Ok,
        q2 == q1,
{
    let r = fs.raw();
    let u = final(fs).raw();
    let dd = d.id() as int;
    let x = c.id() as int;
    lemma_held(r, dd);
    lemma_held(r, x);
    lemma_tree_node(tree(u), dd);
    encode_utf8_valid_utf8(name@);
    law_link_find(r, u, dd, x, name.spec_bytes());
    lemma_got(d, &*final(fs), name, q);
    lemma_got(d, &*fs, other, q1);
    lemma_got(d, &*final(fs), other, q2);
    assert(lookup(tree(u)[dd], other.spec_bytes()) == lookup(tree(r)[dd], other.spec_bytes()));
}

/// A file that has been given another name has one link more and is the same otherwise. The directory
/// has one entry more, which takes one block, and one more with the twelfth entry. No other file is
/// concerned.
pub proof fn law_link_told<D: Device>(
    d: INodeImpl,
    fs: &mut SimpleFileSystem<D>,
    name: &str,
    c: INodeImpl,
    m: Metadata,
    m2: Metadata,
    n: Metadata,
    n2: Metadata,
    i: FsInfo,
    i2: FsInfo,
    y: int,
)
    requires
        fs.wf(),
        fs.reliable(),
        fs.holds(d.id() as int),
        fs.holds(c.id() as int),
        call_ensures(INodeImpl::link::<D>, (&d, fs, name, Some(&c)), Ok::<(), FsError>(())),
        call_ensures(INodeImpl::metadata::<D>, (&d, &*fs), Ok::<Metadata, FsError>(m)),
        call_ensures(INodeImpl::metadata::<D>, (&d, &*final(fs)), Ok::<Metadata, FsError>(m2)),
        call_ensures(INodeImpl::metadata::<D>, (&c, &*fs), Ok::<Metadata, FsError>(n)),
        call_ensures(INodeImpl::metadata::<D>, (&c, &*final(fs)), Ok::<Metadata, FsError>(n2)),
        call_ensures(SimpleFileSystem::<D>::info, (&*fs,), i),
        call_ensures(SimpleFileSystem::<D>::info, (&*final(fs),), i2),
    ensures
        n.type_ != vfs::FileType::Dir,
        n2.nlinks == n.nlinks + 1,
        n2 == (Metadata { nlinks: n2.nlinks, ..n }),
        final(fs).tree()[c.id() as int].data == old(fs).tree()[c.id() as int].data,
        m2.size == m.size + 1,
        m2 == (Metadata { size: m2.size, blocks: m2.size, ..m }),
        i2.bfree == i.bfree - (if m.size == 11 {
            2int
        } else {
            1int
        }),
        i2 == (FsInfo { bfree: i2.bfree, bavail: i2.bfree, ffree: i2.bfree, ..i }),
        y != d.id() && y != c.id() && old(fs).tree().contains_key(y) ==> {
            &&& final(fs).tree().contains_key(y)
            &&& final(fs).tree()[y] == old(fs).tree()[y]
        },
        final(fs).handles() == old(fs).handles(),
{
    let dd = d.id() as int;
    let x = c.id() as int;
    lemma_told(d, &*fs, m);
    lemma_told(c, &*fs, n);
    assert(handles(final(fs).raw()).contains_key(x));
    assert(handles(final(fs).raw()).contains_key(dd));
    lemma_told(d, &*final(fs), m2);
    lemma_told(c, &*final(fs), n2);
    lemma_tree_node(fs.tree(), dd);
    lemma_tree_node(fs.tree(), x);
    lemma_tree_node(final(fs).tree(), dd);
    law_unused(fs.raw());
    lemma_bounds(fs.raw());
    lemma_count_len(fs.raw().free);
    law_unused(final(fs).raw());
    lemma_bounds(final(fs).raw());
    lemma_count_len(final(fs).raw().free);
}

/// A further name is refused in files, in removed directories, for names that exist, for files of
/// another file system, and for directories. Else it fails only with the device, which a reliable one
/// does not.
pub proof fn law_link_served<D: Device>(
    d: INodeImpl,
    fs: &mut SimpleFileSystem<D>,
    name: &str,
    c: Option<&INodeImpl>,
    r: Result<(), FsError>,
    m: Metadata,
    q: Result<Option<INodeId>, FsError>,
    n: Metadata,
)
    requires
        fs.wf(),
        fs.holds(d.id() as int),
        c matches Some(h) ==> fs.holds(h.id() as int),
        call_ensures(INodeImpl::link::<D>, (&d, fs, name, c), r),
        call_ensures(INodeImpl::metadata::<D>, (&d, &*fs), Ok::<Metadata, FsError>(m)),
        call_ensures(INodeImpl::get_file_inode_id::<D>, (&d, &*fs, name), q),
        c matches Some(h) ==> call_ensures(
            INodeImpl::metadata::<D>,
            (h, &*fs),
            Ok::<Metadata, FsError>(n),
        ),
        q is Ok,
    ensures
        ({
            if r == Err::<(), FsError>(FsError::DeviceError) {
                !old(fs).reliable() && m.type_ == vfs::FileType::Dir && m.nlinks > 0
            } else if m.type_ != vfs::FileType::Dir {
                r == Err::<(), FsError>(FsError::NotDir)
            } else if m.nlinks == 0 {
                r == Err::<(), FsError>(FsError::DirRemoved)
            } else if q != Ok::<Option<INodeId>, FsError>(None) {
                r == Err::<(), FsError>(FsError::EntryExist)
            } else if c is None {
                r == Err::<(), FsError>(FsError::NotSameFs)
            } else if n.type_ == vfs::FileType::Dir {
                r == Err::<(), FsError>(FsError::IsDir)
            } else {
                r is Ok
            }
        }),
        r is Err && r != Err::<(), FsError>(FsError::DeviceError) ==> final(fs).raw() == old(fs).raw() && final(fs).device() == old(fs).device(),
{
    lemma_told(d, &*fs, m);
    lemma_tree_node(fs.tree(), d.id() as int);
    lemma_got(d, &*fs, name, q);
    if c is Some {
        lemma_told(*c->0, &*fs, n);
        lemma_tree_node(fs.tree(), c->0.id() as int);
    }
}

/// Where the names of a directory are distinct, a name that has been removed stands for nothing, and
/// all others for what they stood for.
pub proof fn law_unlink_lost<D: Device>(
    d: INodeImpl,
    fs: &mut SimpleFileSystem<D>,
    name: &str,
    q0: Result<Option<INodeId>, FsError>,
    q: Result<Option<INodeId>, FsError>,
    other: &str,
    q1: Result<Option<INodeId>, FsError>,
    q2: Result<Option<INodeId>, FsError>,
)
    requires
        fs.wf(),
        fs.reliable(),
        fs.holds(d.id() as int),
        names_unique(fs.tree()[d.id() as int]),
        call_ensures(INodeImpl::unlink::<D>, (&d, fs, name), Ok::<(), FsError>(())),
        call_ensures(INodeImpl::get_file_inode_id::<D>, (&d, &*fs, name), q0),
        call_ensures(INodeImpl::get_file_inode_id::<D>, (&d, &*final(fs), name), q),
        other.spec_bytes() != name.spec_bytes(),
        call_ensures(INodeImpl::get_file_inode_id::<D>, (&d, &*fs, other), q1),
        call_ensures(INodeImpl::get_file_inode_id::<D>, (&d, &*final(fs), other), q2),
    ensures
        q0 is Ok && q0->Ok_0 is Some,
        q == Ok::<Option<INodeId>, FsError>(None),
        q1 is Ok,
        q2 == q1,
{
    let r = fs.raw();
    let u = final(fs).raw();
    let dd = d.id() as int;
    let f = tree(r)[dd];
    let k = find_entry(f, name.spec_bytes());
    lemma_held(r, dd);
    lemma_third(tree(r), dd, name.spec_bytes());
    lemma_removable(tree(r), dd, k);
    law_unlink_find(r, u, dd, name.spec_bytes());
    lemma_got(d, &*fs, name, q0);
    lemma_got(d, &*final(fs), name, q);
    lemma_got(d, &*fs, other, q1);
    lemma_got(d, &*final(fs), other, q2);
    assert(lookup(tree(u)[dd], other.spec_bytes()) == lookup(tree(r)[dd], other.spec_bytes()));
}

/// A name that is not one of the two that every directory holds belongs to a later entry.
pub proof fn lemma_third(t: Tree, d: int, name: Seq<u8>)
    requires
        tree_ok(t),
        is_dir(t, d),
        has_entry(t[d], name),
        name != dot(),
        name != dotdot(),
    ensures
        named(t, d, find_entry(t[d], name)),
        find_entry(t[d], name) >= 2,
        t.contains_key(entry_id(t[d], find_entry(t[d], name))),
{
    let k = find_entry(t[d], name);
    lemma_tree_node(t, d);
    assert(first_entry(t[d], name, k));
    lemma_closed(t, d, k);
}

/// A directory that an entry names has at least two entries.
proof fn lemma_removable(t: Tree, d: int, k: int)
    requires
        tree_ok(t),
        named(t, d, k),
    ensures
        is_dir(t, entry_id(t[d], k)) ==> t[entry_id(t[d], k)].map.len() >= 2,
{
    lemma_closed(t, d, k);
    lemma_tree_node(t, entry_id(t[d], k));
}

/// Removing a name takes one entry from the directory, and one link if it was that of a directory. Of
/// the file, it takes one link; a directory has none left. A file with a handle keeps all that it
/// holds, and the block of the entry is free again. No other file is concerned.
pub proof fn law_unlink_told<D: Device>(
    d: INodeImpl,
    fs: &mut SimpleFileSystem<D>,
    name: &str,
    c: INodeImpl,
    m: Metadata,
    m2: Metadata,
    n: Metadata,
    n2: Metadata,
    i: FsInfo,
    i2: FsInfo,
    y: int,
)
    requires
        fs.wf(),
        fs.reliable(),
        fs.holds(d.id() as int),
        fs.holds(c.id() as int),
        call_ensures(INodeImpl::unlink::<D>, (&d, fs, name), Ok::<(), FsError>(())),
        call_ensures(
            INodeImpl::get_file_inode_id::<D>,
            (&d, &*fs, name),
            Ok::<Option<INodeId>, FsError>(Some(c.id())),
        ),
        call_ensures(INodeImpl::metadata::<D>, (&d, &*fs), Ok::<Metadata, FsError>(m)),
        call_ensures(INodeImpl::metadata::<D>, (&d, &*final(fs)), Ok::<Metadata, FsError>(m2)),
        call_ensures(INodeImpl::metadata::<D>, (&c, &*fs), Ok::<Metadata, FsError>(n)),
        call_ensures(INodeImpl::metadata::<D>, (&c, &*final(fs)), Ok::<Metadata, FsError>(n2)),
        call_ensures(SimpleFileSystem::<D>::info, (&*fs,), i),
        call_ensures(SimpleFileSystem::<D>::info, (&*final(fs),), i2),
    ensures
        n.type_ == vfs::FileType::Dir ==> n.size == 2 && n2.nlinks == 0,
        n.type_ != vfs::FileType::Dir ==> n2.nlinks == n.nlinks - 1,
        n2 == (Metadata { nlinks: n2.nlinks, ..n }),
        final(fs).tree()[c.id() as int].data == old(fs).tree()[c.id() as int].data,
        m2.size == m.size - 1,
        m2.nlinks == m.nlinks - if n.type_ == vfs::FileType::Dir {
            1int
        } else {
            0int
        },
        m2 == (Metadata { size: m2.size, blocks: m2.size, nlinks: m2.nlinks, ..m }),
        i2.bfree == i.bfree + 1,
        i2 == (FsInfo { bfree: i2.bfree, bavail: i2.bfree, ffree: i2.bfree, ..i }),
        y != d.id() && y != c.id() && old(fs).tree().contains_key(y) ==> {
            &&& final(fs).tree().contains_key(y)
            &&& final(fs).tree()[y] == old(fs).tree()[y]
        },
        final(fs).handles() == old(fs).handles(),
{
    let dd = d.id() as int;
    let x = c.id() as int;
    let k = find_entry(fs.tree()[dd], name.spec_bytes());
    lemma_told(d, &*fs, m);
    lemma_told(c, &*fs, n);
    lemma_third(fs.tree(), dd, name.spec_bytes());
    lemma_removable(fs.tree(), dd, k);
    lemma_tree_node(fs.tree(), dd);
    lemma_tree_node(fs.tree(), x);
    assert(handles(final(fs).raw()).contains_key(x));
    assert(handles(final(fs).raw()).contains_key(dd));
    lemma_told(d, &*final(fs), m2);
    lemma_told(c, &*final(fs), n2);
    law_unused(fs.raw());
    lemma_bounds(fs.raw());
    lemma_count_len(fs.raw().free);
    law_unused(final(fs).raw());
    lemma_bounds(final(fs).raw());
    lemma_count_len(final(fs).raw().free);
}

/// A file whose last name is removed, and of which there is no handle, is gone, and all of its blocks
/// are free again.
pub proof fn law_unlink_last<D: Device>(
    d: INodeImpl,
    fs: &mut SimpleFileSystem<D>,
    name: &str,
    x: INodeId,
    i: FsInfo,
    i2: FsInfo,
    used: bool,
)
    requires
        fs.wf(),
        fs.reliable(),
        fs.holds(d.id() as int),
        !fs.holds(x as int),
        call_ensures(INodeImpl::unlink::<D>, (&d, fs, name), Ok::<(), FsError>(())),
        call_ensures(
            INodeImpl::get_file_inode_id::<D>,
            (&d, &*fs, name),
            Ok::<Option<INodeId>, FsError>(Some(x)),
        ),
        fs.tree()[x as int].kind == FileType::Dir || fs.tree()[x as int].nlinks == 1,
        call_ensures(SimpleFileSystem::<D>::info, (&*fs,), i),
        call_ensures(SimpleFileSystem::<D>::info, (&*final(fs),), i2),
        call_ensures(SimpleFileSystem::<D>::in_use, (&*final(fs), x), used),
    ensures
        !final(fs).tree().contains_key(x as int),
        !used,
        ({
            let f = old(fs).tree()[x as int];
            i2.bfree == i.bfree + 2 + f.map.len() + if f.map.len() >= 12 {
                1int
            } else {
                0int
            }
        }),
{
    let r = fs.raw();
    let dd = d.id() as int;
    let k = find_entry(fs.tree()[dd], name.spec_bytes());
    let f = fs.tree()[x as int];
    lemma_held(r, dd);
    lemma_third(fs.tree(), dd, name.spec_bytes());
    lemma_removable(fs.tree(), dd, k);
    lemma_live_owned(r, x as int);
    assert(dropped(f, 0).push(x as int).contains(x as int)) by {
        let s = dropped(f, 0).push(x as int);
        assert(s[s.len() - 1] == x as int);
    }
    law_unused(fs.raw());
    lemma_bounds(fs.raw());
    lemma_count_len(fs.raw().free);
    law_unused(final(fs).raw());
    lemma_bounds(final(fs).raw());
    lemma_count_len(final(fs).raw().free);
}

/// A file of the tree lies on a block that is in use.
pub proof fn lemma_live_owned(r: Raw, x: int)
    requires
        core_ok(r),
        tree(r).contains_key(x),
    ensures
        1 <= x < r.sup.blocks <= 32768,
        !r.free[x],
{
    assert(live(r, x));
    lemma_owned(r, x, x, as_inode());
    lemma_bounds(r);
}

/// Removal is refused in files, in removed directories, for the two names that every directory holds, for
/// names that stand for nothing, and for directories with further entries. Else it fails only with the
/// device, which a reliable one does not.
pub proof fn law_unlink_served<D: Device>(
    d: INodeImpl,
    fs: &mut SimpleFileSystem<D>,
    name: &str,
    r: Result<(), FsError>,
    m: Metadata,
    q: Result<Option<INodeId>, FsError>,
)
    requires
        fs.wf(),
        fs.holds(d.id() as int),
        call_ensures(INodeImpl::unlink::<D>, (&d, fs, name), r),
        call_ensures(INodeImpl::metadata::<D>, (&d, &*fs), Ok::<Metadata, FsError>(m)),
        call_ensures(INodeImpl::get_file_inode_id::<D>, (&d, &*fs, name), q),
        q is Ok,
    ensures
        ({
            if r == Err::<(), FsError>(FsError::DeviceError) {
                !old(fs).reliable() && m.type_ == vfs::FileType::Dir && m.nlinks > 0
            } else if m.type_ != vfs::FileType::Dir {
                r == Err::<(), FsError>(FsError::NotDir)
            } else if m.nlinks == 0 {
                r == Err::<(), FsError>(FsError::DirRemoved)
            } else if name.spec_bytes() == seq![46u8] || name.spec_bytes() == seq![46u8, 46u8] {
                r == Err::<(), FsError>(FsError::IsDir)
            } else if q == Ok::<Option<INodeId>, FsError>(None) {
                r == Err::<(), FsError>(FsError::EntryNotFound)
            } else {
                let f = old(fs).tree()[q->Ok_0->0 as int];
                if f.kind == FileType::Dir && f.map.len() > 2 {
                    r == Err::<(), FsError>(FsError::DirNotEmpty)
                } else {
                    r is Ok
                }
            }
        }),
        r is Err && r != Err::<(), FsError>(FsError::DeviceError) ==> final(fs).raw() == old(fs).raw() && final(fs).device() == old(fs).device(),
{
    lemma_told(d, &*fs, m);
    lemma_tree_node(fs.tree(), d.id() as int);
    lemma_got(d, &*fs, name, q);
}

/// Where the names of the two directories are distinct, an entry that has been moved stands under its
/// new name for the same file, its old name stands for nothing, and all others for what they stood
/// for.
pub proof fn law_move_found<D: Device>(
    d: INodeImpl,
    fs: &mut SimpleFileSystem<D>,
    old_name: &str,
    e: INodeImpl,
    name: &str,
    q0: Result<Option<INodeId>, FsError>,
    q: Result<Option<INodeId>, FsError>,
    q3: Result<Option<INodeId>, FsError>,
)
    requires
        fs.wf(),
        fs.reliable(),
        fs.holds(d.id() as int),
        fs.holds(e.id() as int),
        names_unique(fs.tree()[d.id() as int]),
        fit_name(name),
        call_ensures(
            INodeImpl::move_::<D>,
            (&d, fs, old_name, Some(&e), name),
            Ok::<(), FsError>(()),
        ),
        call_ensures(INodeImpl::get_file_inode_id::<D>, (&d, &*fs, old_name), q0),
        call_ensures(INodeImpl::get_file_inode_id::<D>, (&e, &*final(fs), name), q),
        call_ensures(INodeImpl::get_file_inode_id::<D>, (&d, &*final(fs), old_name), q3),
    ensures
        q0 is Ok && q0->Ok_0 is Some,
        q == q0,
        q3 == Ok::<Option<INodeId>, FsError>(None),
{
    let r = fs.raw();
    let u = final(fs).raw();
    let dd = d.id() as int;
    let ee = e.id() as int;
    lemma_held(r, dd);
    lemma_held(r, ee);
    lemma_third(tree(r), dd, old_name.spec_bytes());
    lemma_tree_node(tree(u), ee);
    encode_utf8_valid_utf8(name@);
    if dd == ee {
        law_rename_find(r, u, dd, old_name.spec_bytes(), name.spec_bytes());
    } else {
        law_move_find(r, u, dd, old_name.spec_bytes(), ee, name.spec_bytes());
    }
    lemma_got(d, &*fs, old_name, q0);
    lemma_got(e, &*final(fs), name, q);
    lemma_got(d, &*final(fs), old_name, q3);
}

/// Where the names of the two directories are distinct, moving an entry changes what no other name
/// stands for.
pub proof fn law_move_rest<D: Device>(
    d: INodeImpl,
    fs: &mut SimpleFileSystem<D>,
    old_name: &str,
    e: INodeImpl,
    name: &str,
    other: &str,
    q1: Result<Option<INodeId>, FsError>,
    q2: Result<Option<INodeId>, FsError>,
    q3: Result<Option<INodeId>, FsError>,
    q4: Result<Option<INodeId>, FsError>,
)
    requires
        fs.wf(),
        fs.reliable(),
        fs.holds(d.id() as int),
        fs.holds(e.id() as int),
        names_unique(fs.tree()[d.id() as int]),
        fit_name(name),
        call_ensures(
            INodeImpl::move_::<D>,
            (&d, fs, old_name, Some(&e), name),
            Ok::<(), FsError>(()),
        ),
        call_ensures(INodeImpl::get_file_inode_id::<D>, (&d, &*fs, other), q1),
        call_ensures(INodeImpl::get_file_inode_id::<D>, (&d, &*final(fs), other), q2),
        call_ensures(INodeImpl::get_file_inode_id::<D>, (&e, &*fs, other), q3),
        call_ensures(INodeImpl::get_file_inode_id::<D>, (&e, &*final(fs), other), q4),
    ensures
        q1 is Ok && q3 is Ok,
        other.spec_bytes() != old_name.spec_bytes() && (d.id() != e.id() || other.spec_bytes()
            != name.spec_bytes()) ==> q2 == q1,
        other.spec_bytes() != name.spec_bytes() && (d.id() != e.id() || other.spec_bytes()
            != old_name.spec_bytes()) ==> q4 == q3,
{
    let r = fs.raw();
    let u = final(fs).raw();
    let dd = d.id() as int;
    let ee = e.id() as int;
    let o = other.spec_bytes();
    lemma_held(r, dd);
    lemma_held(r, ee);
    lemma_third(tree(r), dd, old_name.spec_bytes());
    lemma_tree_node(tree(u), ee);
    encode_utf8_valid_utf8(name@);
    if dd == ee {
        law_rename_find(r, u, dd, old_name.spec_bytes(), name.spec_bytes());
    } else {
        law_move_find(r, u, dd, old_name.spec_bytes(), ee, name.spec_bytes());
    }
    lemma_got(d, &*fs, other, q1);
    lemma_got(d, &*final(fs), other, q2);
    lemma_got(e, &*fs, other, q3);
    lemma_got(e, &*final(fs), other, q4);
    assert(o != old_name.spec_bytes() && (dd != ee || o != name.spec_bytes()) ==> lookup(
        tree(u)[dd],
        o,
    ) == lookup(tree(r)[dd], o));
    assert(o != name.spec_bytes() && (dd != ee || o != old_name.spec_bytes()) ==> lookup(
        tree(u)[ee],
        o,
    ) == lookup(tree(r)[ee], o));
}

/// Moving an entry to another directory takes an entry from one and gives one to the other, and where
/// it names a directory, one link too. All other files, the one that is moved among them, are as they
/// were.
pub proof fn law_move_told<D: Device>(
    d: INodeImpl,
    fs: &mut SimpleFileSystem<D>,
    old_name: &str,
    e: INodeImpl,
    name: &str,
    x: INodeId,
    m: Metadata,
    m2: Metadata,
    n: Metadata,
    n2: Metadata,
    i: FsInfo,
    i2: FsInfo,
    y: int,
)
    requires
        fs.wf(),
        fs.reliable(),
        fs.holds(d.id() as int),
        fs.holds(e.id() as int),
        call_ensures(
            INodeImpl::move_::<D>,
            (&d, fs, old_name, Some(&e), name),
            Ok::<(), FsError>(()),
        ),
        call_ensures(
            INodeImpl::get_file_inode_id::<D>,
            (&d, &*fs, old_name),
            Ok::<Option<INodeId>, FsError>(Some(x)),
        ),
        call_ensures(INodeImpl::metadata::<D>, (&d, &*fs), Ok::<Metadata, FsError>(m)),
        call_ensures(INodeImpl::metadata::<D>, (&d, &*final(fs)), Ok::<Metadata, FsError>(m2)),
        call_ensures(INodeImpl::metadata::<D>, (&e, &*fs), Ok::<Metadata, FsError>(n)),
        call_ensures(INodeImpl::metadata::<D>, (&e, &*final(fs)), Ok::<Metadata, FsError>(n2)),
        call_ensures(SimpleFileSystem::<D>::info, (&*fs,), i),
        call_ensures(SimpleFileSystem::<D>::info, (&*final(fs),), i2),
    ensures
        ({
            let worth: int = if old(fs).tree()[x as int].kind == FileType::Dir {
                1
            } else {
                0
            };
            &&& d.id() == e.id() ==> m2 == m && i2 == i
            &&& d.id() != e.id() ==> {
                &&& m2.size == m.size - 1
                &&& m2.nlinks == m.nlinks - worth
                &&& m2 == (Metadata { size: m2.size, blocks: m2.size, nlinks: m2.nlinks, ..m })
                &&& n2.size == n.size + 1
                &&& n2.nlinks == n.nlinks + worth
                &&& n2 == (Metadata { size: n2.size, blocks: n2.size, nlinks: n2.nlinks, ..n })
                &&& i2.bfree == i.bfree - (if n.size == 11 {
                    1int
                } else {
                    0int
                })
                &&& i2 == (FsInfo { bfree: i2.bfree, bavail: i2.bfree, ffree: i2.bfree, ..i })
            }
        }),
        y != d.id() && y != e.id() && old(fs).tree().contains_key(y) ==> {
            &&& final(fs).tree().contains_key(y)
            &&& final(fs).tree()[y] == old(fs).tree()[y]
        },
        final(fs).handles() == old(fs).handles(),
{
    let dd = d.id() as int;
    let ee = e.id() as int;
    lemma_told(d, &*fs, m);
    lemma_told(e, &*fs, n);
    lemma_third(fs.tree(), dd, old_name.spec_bytes());
    lemma_tree_node(fs.tree(), dd);
    lemma_tree_node(fs.tree(), ee);
    assert(handles(final(fs).raw()).contains_key(ee));
    assert(handles(final(fs).raw()).contains_key(dd));
    lemma_told(d, &*final(fs), m2);
    lemma_told(e, &*final(fs), n2);
    lemma_tree_node(final(fs).tree(), dd);
    lemma_tree_node(final(fs).tree(), ee);
    law_unused(fs.raw());
    lemma_bounds(fs.raw());
    lemma_count_len(fs.raw().free);
    law_unused(final(fs).raw());
    lemma_bounds(final(fs).raw());
    lemma_count_len(final(fs).raw().free);
}

/// Moving is refused from or to what is no directory or a removed one, for the two names that every
/// directory holds, to another file system, to a name that exists, and for a name that stands for
/// nothing. Else it fails only with the device, which a reliable one does not.
pub proof fn law_move_served<D: Device>(
    d: INodeImpl,
    fs: &mut SimpleFileSystem<D>,
    old_name: &str,
    e: Option<&INodeImpl>,
    name: &str,
    r: Result<(), FsError>,
    m: Metadata,
    n: Metadata,
    q: Result<Option<INodeId>, FsError>,
    p: Result<Option<INodeId>, FsError>,
)
    requires
        fs.wf(),
        fs.holds(d.id() as int),
        e matches Some(h) ==> fs.holds(h.id() as int),
        call_ensures(INodeImpl::move_::<D>, (&d, fs, old_name, e, name), r),
        call_ensures(INodeImpl::metadata::<D>, (&d, &*fs), Ok::<Metadata, FsError>(m)),
        call_ensures(INodeImpl::get_file_inode_id::<D>, (&d, &*fs, old_name), q),
        e matches Some(h) ==> call_ensures(
            INodeImpl::metadata::<D>,
            (h, &*fs),
            Ok::<Metadata, FsError>(n),
        ),
        e matches Some(h) ==> call_ensures(
            INodeImpl::get_file_inode_id::<D>,
            (h, &*fs, name),
            p,
        ),
        q is Ok,
        e is Some ==> p is Ok,
    ensures
        ({
            if r == Err::<(), FsError>(FsError::DeviceError) {
                !old(fs).reliable() && m.type_ == vfs::FileType::Dir && m.nlinks > 0 && e is Some
                    && n.type_ == vfs::FileType::Dir && n.nlinks > 0
            } else if m.type_ != vfs::FileType::Dir {
                r == Err::<(), FsError>(FsError::NotDir)
            } else if m.nlinks == 0 {
                r == Err::<(), FsError>(FsError::DirRemoved)
            } else if old_name.spec_bytes() == seq![46u8] || old_name.spec_bytes() == seq![
                46u8,
                46u8,
            ] {
                r == Err::<(), FsError>(FsError::IsDir)
            } else if e is None {
                r == Err::<(), FsError>(FsError::NotSameFs)
            } else if n.type_ != vfs::FileType::Dir {
                r == Err::<(), FsError>(FsError::NotDir)
            } else if n.nlinks == 0 {
                r == Err::<(), FsError>(FsError::DirRemoved)
            } else if p != Ok::<Option<INodeId>, FsError>(None) {
                r == Err::<(), FsError>(FsError::EntryExist)
            } else if q == Ok::<Option<INodeId>, FsError>(None) {
                r == Err::<(), FsError>(FsError::EntryNotFound)
            } else {
                r is Ok
            }
        }),
        r is Err && r != Err::<(), FsError>(FsError::DeviceError) ==> final(fs).raw() == old(fs).raw() && final(fs).device() == old(fs).device(),
{
    lemma_told(d, &*fs, m);
    lemma_tree_node(fs.tree(), d.id() as int);
    lemma_got(d, &*fs, old_name, q);
    if e is Some {
        lemma_told(*e->0, &*fs, n);
        lemma_tree_node(fs.tree(), e->0.id() as int);
        lemma_got(*e->0, &*fs, name, p);
    }
}

/// A listing shows as many entries as the directory is told to have, unless the device fails, which a
/// reliable one does not; the first two are for itself and its parent, and every name that it shows is
/// found.
pub proof fn law_entries<D: Device>(
    d: INodeImpl,
    fs: &SimpleFileSystem<D>,
    k: usize,
    s: Result<String, FsError>,
    m: Metadata,
    name: &str,
    q: Result<Option<INodeId>, FsError>,
)
    requires
        fs.wf(),
        q is Ok,
        fs.holds(d.id() as int),
        call_ensures(INodeImpl::get_entry::<D>, (&d, fs, k), s),
        call_ensures(INodeImpl::metadata::<D>, (&d, fs), Ok::<Metadata, FsError>(m)),
        call_ensures(INodeImpl::get_file_inode_id::<D>, (&d, fs, name), q),
    ensures
        m.type_ != vfs::FileType::Dir <==> s == Err::<String, FsError>(FsError::NotDir),
        s == Err::<String, FsError>(FsError::DeviceError) ==> !fs.reliable(),
        m.type_ == vfs::FileType::Dir ==> (k < m.size <==> s is Ok || s == Err::<String, FsError>(
            FsError::DeviceError,
        )),
        m.type_ == vfs::FileType::Dir ==> (k >= m.size <==> s == Err::<String, FsError>(
            FsError::EntryNotFound,
        )),
        s is Ok && k == 0 ==> encode_utf8(s->Ok_0@) == seq![46u8],
        s is Ok && k == 1 ==> encode_utf8(s->Ok_0@) == seq![46u8, 46u8],
        s is Ok && name.spec_bytes() == encode_utf8(s->Ok_0@) ==> q is Ok && q->Ok_0 is Some,
        m.type_ == vfs::FileType::Dir && q is Ok && q->Ok_0 is Some ==> exists|j: int|
            0 <= j < m.size && #[trigger] entry_name(fs.tree()[d.id() as int], j)
                == name.spec_bytes() && entry_id(fs.tree()[d.id() as int], j) == q->Ok_0->0,
        m.type_ == vfs::FileType::Dir && name.spec_bytes() == seq![46u8] ==> q == Ok::<
            Option<INodeId>,
            FsError,
        >(Some(d.id())),
        m.type_ == vfs::FileType::Dir && name.spec_bytes() == seq![46u8, 46u8] ==> q is Ok
            && q->Ok_0 is Some,
{
    let dd = d.id() as int;
    let f = fs.tree()[dd];
    lemma_told(d, fs, m);
    lemma_tree_node(fs.tree(), dd);
    lemma_got(d, fs, name, q);
    if f.kind == FileType::Dir {
        law_dots(fs.tree(), dd);
        lemma_second(f, dd, entry_id(f, 1));
        if s is Ok && name.spec_bytes() == encode_utf8(s->Ok_0@) {
            lemma_some_entry(f, name.spec_bytes(), k as int);
        }
        if has_entry(f, name.spec_bytes()) {
            let j = find_entry(f, name.spec_bytes());
            assert(first_entry(f, name.spec_bytes(), j));
            assert(entry_name(f, j) == name.spec_bytes());
        }
    }
}

/// Where a free place is taken, no lower one stays free.
proof fn lemma_lower_gone(free: Seq<bool>, n: nat, a: int, b: int)
    requires
        n <= count(free),
        0 <= b < a < free.len(),
        free[a],
        !after(free, n)[a],
    ensures
        !after(free, n)[b],
    decreases n,
{
    if n > 0 {
        let m = (n - 1) as nat;
        lemma_after_count(free, m);
        if !after(free, m)[a] {
            lemma_lower_gone(free, m, a, b);
        }
    }
}

/// The blocks that a created file and its entry take are the lowest free ones, and no block becomes free.
pub proof fn law_create_blocks<D: Device>(
    d: INodeImpl,
    fs: &mut SimpleFileSystem<D>,
    name: &str,
    type_: vfs::FileType,
    mode: u32,
    x: INodeImpl,
    a: usize,
    a1: bool,
    a2: bool,
    b: usize,
    b1: bool,
    b2: bool,
)
    requires
        fs.wf(),
        fs.reliable(),
        fs.holds(d.id() as int),
        call_ensures(
            INodeImpl::create::<D>,
            (&d, fs, name, type_, mode),
            Ok::<INodeImpl, FsError>(x),
        ),
        call_ensures(SimpleFileSystem::<D>::in_use, (&*fs, a), a1),
        call_ensures(SimpleFileSystem::<D>::in_use, (&*final(fs), a), a2),
        call_ensures(SimpleFileSystem::<D>::in_use, (&*fs, b), b1),
        call_ensures(SimpleFileSystem::<D>::in_use, (&*final(fs), b), b2),
    ensures
        a1 ==> a2,
        !a1 && a2 && b < a ==> b2,
{
    let r = fs.raw();
    let s = final(fs).raw();
    let f = fs.tree()[d.id() as int];
    lemma_bounds(r);
    lemma_bounds(s);
    law_unused(r);
    law_unused(s);
    let n = (body_need(inner_type(type_)->0) + entry_need(f)) as nat;
    if a < r.free.len() && b < a && r.free[a as int] && !s.free[a as int] {
        lemma_lower_gone(r.free, n, a as int, b as int);
    }
    if a < r.free.len() {
        lemma_after_less(r.free, n, a as int);
    }
}

/// The blocks that a further name takes are the lowest free ones, and no block becomes free.
pub proof fn law_link_blocks<D: Device>(
    d: INodeImpl,
    fs: &mut SimpleFileSystem<D>,
    name: &str,
    c: INodeImpl,
    a: usize,
    a1: bool,
    a2: bool,
    b: usize,
    b1: bool,
    b2: bool,
)
    requires
        fs.wf(),
        fs.reliable(),
        fs.holds(d.id() as int),
        fs.holds(c.id() as int),
        call_ensures(INodeImpl::link::<D>, (&d, fs, name, Some(&c)), Ok::<(), FsError>(())),
        call_ensures(SimpleFileSystem::<D>::in_use, (&*fs, a), a1),
        call_ensures(SimpleFileSystem::<D>::in_use, (&*final(fs), a), a2),
        call_ensures(SimpleFileSystem::<D>::in_use, (&*fs, b), b1),
        call_ensures(SimpleFileSystem::<D>::in_use, (&*final(fs), b), b2),
    ensures
        a1 ==> a2,
        !a1 && a2 && b < a ==> b2,
{
    let r = fs.raw();
    let s = final(fs).raw();
    let f = fs.tree()[d.id() as int];
    lemma_bounds(r);
    lemma_bounds(s);
    law_unused(r);
    law_unused(s);
    let n = entry_need(f) as nat;
    if a < r.free.len() && b < a && r.free[a as int] && !s.free[a as int] {
        lemma_lower_gone(r.free, n, a as int, b as int);
    }
    if a < r.free.len() {
        lemma_after_less(r.free, n, a as int);
    }
}

/// Where a name has been removed and the file is left, only the block of the entry becomes free. The
/// last entry keeps its block in its new place, and so do all others.
pub proof fn law_unlink_blocks<D: Device>(
    d: INodeImpl,
    fs: &mut SimpleFileSystem<D>,
    name: &str,
    c: INodeImpl,
    m: Metadata,
    i: usize,
    b: BlockId,
    a: usize,
    a1: bool,
    a2: bool,
    k: usize,
    b1: BlockId,
    last: BlockId,
    b2: Result<BlockId, FsError>,
)
    requires
        fs.wf(),
        fs.reliable(),
        fs.holds(d.id() as int),
        fs.holds(c.id() as int),
        call_ensures(INodeImpl::unlink::<D>, (&d, fs, name), Ok::<(), FsError>(())),
        first_entry(fs.tree()[d.id() as int], name.spec_bytes(), i as int),
        call_ensures(
            INodeImpl::get_file_inode_id::<D>,
            (&d, &*fs, name),
            Ok::<Option<INodeId>, FsError>(Some(c.id())),
        ),
        call_ensures(INodeImpl::metadata::<D>, (&d, &*fs), Ok::<Metadata, FsError>(m)),
        call_ensures(INodeImpl::get_disk_block_id::<D>, (&d, &*fs, i), Ok::<BlockId, FsError>(b)),
        call_ensures(SimpleFileSystem::<D>::in_use, (&*fs, a), a1),
        call_ensures(SimpleFileSystem::<D>::in_use, (&*final(fs), a), a2),
        k < m.size - 1,
        call_ensures(INodeImpl::get_disk_block_id::<D>, (&d, &*fs, k), Ok::<BlockId, FsError>(b1)),
        call_ensures(
            INodeImpl::get_disk_block_id::<D>,
            (&d, &*fs, (m.size - 1) as usize),
            Ok::<BlockId, FsError>(last),
        ),
        call_ensures(INodeImpl::get_disk_block_id::<D>, (&d, &*final(fs), k), b2),
    ensures
        a2 == (a1 && a != b),
        k != i ==> b2 == Ok::<BlockId, FsError>(b1),
        k == i ==> b2 == Ok::<BlockId, FsError>(last),
{
    let r = fs.raw();
    let dd = d.id() as int;
    let f = fs.tree()[dd];
    let j = find_entry(f, name.spec_bytes());
    lemma_told(d, &*fs, m);
    lemma_held(r, dd);
    lemma_tree_node(fs.tree(), dd);
    lemma_third(fs.tree(), dd, name.spec_bytes());
    assert(first_entry(f, name.spec_bytes(), j));
    assert(i == j);
    lemma_removable(fs.tree(), dd, j);
    lemma_bounds(r);
    assert(handles(final(fs).raw()).contains_key(dd));
    lemma_held(final(fs).raw(), dd);
    law_blocks(r, dd, i as int, dd, i as int);
    let g = final(fs).tree()[dd];
    assert(g.map == f.map.update(j, f.map[f.map.len() - 1]).take(f.map.len() - 1));
    assert(g.map[k as int] == if k == i {
        last
    } else {
        b1
    });
}

/// The blocks that an entry takes in another directory are the lowest that were free, and the block that
/// it leaves becomes free.
pub proof fn law_move_blocks<D: Device>(
    d: INodeImpl,
    fs: &mut SimpleFileSystem<D>,
    old_name: &str,
    e: INodeImpl,
    name: &str,
    i: usize,
    left: BlockId,
    a: usize,
    a1: bool,
    a2: bool,
    b: usize,
    b1: bool,
    b2: bool,
)
    requires
        fs.wf(),
        fs.reliable(),
        fs.holds(d.id() as int),
        fs.holds(e.id() as int),
        d.id() != e.id(),
        call_ensures(
            INodeImpl::move_::<D>,
            (&d, fs, old_name, Some(&e), name),
            Ok::<(), FsError>(()),
        ),
        first_entry(fs.tree()[d.id() as int], old_name.spec_bytes(), i as int),
        call_ensures(
            INodeImpl::get_disk_block_id::<D>,
            (&d, &*fs, i),
            Ok::<BlockId, FsError>(left),
        ),
        call_ensures(SimpleFileSystem::<D>::in_use, (&*fs, a), a1),
        call_ensures(SimpleFileSystem::<D>::in_use, (&*final(fs), a), a2),
        call_ensures(SimpleFileSystem::<D>::in_use, (&*fs, b), b1),
        call_ensures(SimpleFileSystem::<D>::in_use, (&*final(fs), b), b2),
    ensures
        a == left ==> a1 && !a2,
        a1 && a != left ==> a2,
        !a1 && a2 && b < a && !b1 ==> b2,
{
    let r = fs.raw();
    let s = final(fs).raw();
    let dd = d.id() as int;
    let f = fs.tree()[dd];
    let n = entry_need(fs.tree()[e.id() as int]) as nat;
    let free = after(r.free, n);
    lemma_held(r, dd);
    lemma_held(r, e.id() as int);
    lemma_tree_node(fs.tree(), dd);
    lemma_third(fs.tree(), dd, old_name.spec_bytes());
    assert(first_entry(f, old_name.spec_bytes(), find_entry(f, old_name.spec_bytes())));
    assert(f.map[i as int] == left);
    law_blocks(r, dd, i as int, dd, i as int);
    lemma_bounds(r);
    lemma_bounds(s);
    law_unused(r);
    law_unused(s);
    lemma_after_less(r.free, n, left as int);
    if a < r.free.len() {
        lemma_after_less(r.free, n, a as int);
        if b < a && r.free[a as int] && !free[a as int] {
            assert(n <= count(r.free)) by {
                lemma_count_update(free, left as int, true);
            }
            lemma_lower_gone(r.free, n, a as int, b as int);
        }
    }
}

} // verus!

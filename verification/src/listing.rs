//! The order in which a directory shows its entries, and what can be asked beforehand.

use vstd::prelude::*;
use vstd::string::StringSliceAdditionalSpecFns;
use vstd::utf8::{encode_utf8, encode_utf8_valid_utf8};

use crate::calls::lemma_told;
use crate::device::Device;
use crate::dir::{
    entry_at, entry_block, entry_bytes, entry_index, entry_put, lemma_entry_at, lemma_entry_out,
    lemma_entry_put,
};
use crate::entries::{body_need, entry_out, inner_type};
use crate::freemap::{after, lemma_count_len, lemma_count_lowest, lowest};
use crate::fs::{INodeImpl, SimpleFileSystem};
use crate::inode::written;
use crate::laws::{law_unused, plain};
use crate::model::{lemma_bounds, lemma_held, Node};
use crate::names::{cut, lemma_cut_whole, lemma_nul_at, lemma_padded};
use crate::naming::{fit_name, lemma_got, lemma_live_owned, lemma_third};
use crate::structs::{FileType, INodeId, MAX_BLOCKS};
use crate::tree::{
    entry_field, entry_id, entry_name, find_entry, first_entry, lemma_tree_node, node_ok,
};
use crate::vfs::{self, FsError, FsInfo, Metadata};

verus! {

/// What is shown of a name that has been stored: all that stands before its first zero byte.
pub open spec fn shown(name: Seq<u8>, s: Seq<u8>) -> bool {
    &&& s.len() <= name.len()
    &&& forall|j: int| 0 <= j < s.len() ==> #[trigger] s[j] == name[j] && s[j] != 0
    &&& s.len() < name.len() ==> name[s.len() as int] == 0
}

proof fn lemma_shown(name: Seq<u8>)
    ensures
        shown(name, cut(name)),
        plain(name) ==> cut(name) == name,
{
    lemma_nul_at(name);
    if plain(name) {
        lemma_cut_whole(name);
    }
}

/// The names of a directory after an entry has been put.
proof fn lemma_put_names(
    d: int,
    f: Node,
    g: Node,
    x: int,
    name: &str,
    b: int,
    indirect: int,
)
    requires
        node_ok(d, f),
        f.kind == FileType::Dir,
        entry_put(f, Node { nlinks: f.nlinks, ..g }, x, name.spec_bytes(), b, indirect),
        f.map.len() < MAX_BLOCKS,
        0 <= x <= u32::MAX,
        name.spec_bytes().len() <= 255,
    ensures
        g.map.len() == f.map.len() + 1,
        shown(name.spec_bytes(), entry_name(g, f.map.len() as int)),
        fit_name(name) ==> entry_name(g, f.map.len() as int) == name.spec_bytes(),
        forall|i: int| 0 <= i < f.map.len() ==> #[trigger] entry_name(g, i) == entry_name(f, i),
{
    let h = Node { nlinks: f.nlinks, ..g };
    encode_utf8_valid_utf8(name@);
    lemma_entry_put(d, f, h, x, name.spec_bytes(), b, indirect);
    lemma_shown(name.spec_bytes());
    assert(entry_name(g, f.map.len() as int) == entry_name(h, f.map.len() as int));
    assert forall|i: int| 0 <= i < f.map.len() implies #[trigger] entry_name(g, i) == entry_name(
        f,
        i,
    ) by {
        assert(entry_field(h, i) == entry_field(f, i));
    }
}

/// The names of a directory after an entry has been taken out.
proof fn lemma_out_names(d: int, f: Node, g: Node, i: int)
    requires
        node_ok(d, f),
        f.kind == FileType::Dir,
        2 <= i < f.map.len(),
        g == (Node { nlinks: g.nlinks, ..entry_out(f, i) }),
    ensures
        g.map.len() == f.map.len() - 1,
        forall|j: int|
            0 <= j < g.map.len() ==> #[trigger] entry_name(g, j) == entry_name(
                f,
                if j == i {
                    f.map.len() - 1
                } else {
                    j
                },
            ),
{
    lemma_entry_out(d, f, g, i);
    assert forall|j: int| 0 <= j < g.map.len() implies #[trigger] entry_name(g, j) == entry_name(
        f,
        if j == i {
            f.map.len() - 1
        } else {
            j
        },
    ) by {
        assert(entry_field(g, j) == entry_field(
            f,
            if j == i {
                f.map.len() - 1
            } else {
                j
            },
        ));
    }
}

/// A file that has been created is shown last, up to the first zero byte of its name; the entries
/// before it are as they were.
pub proof fn law_create_order<D: Device>(
    d: INodeImpl,
    fs: &mut SimpleFileSystem<D>,
    name: &str,
    type_: vfs::FileType,
    mode: u32,
    x: INodeImpl,
    m: Metadata,
    s: Result<String, FsError>,
    k: usize,
    s1: Result<String, FsError>,
    s2: Result<String, FsError>,
)
    requires
        fs.wf(),
        fs.reliable(),
        fs.holds(d.id() as int),
        name.spec_bytes().len() <= 255,
        call_ensures(
            INodeImpl::create::<D>,
            (&d, fs, name, type_, mode),
            Ok::<INodeImpl, FsError>(x),
        ),
        call_ensures(INodeImpl::metadata::<D>, (&d, &*fs), Ok::<Metadata, FsError>(m)),
        call_ensures(INodeImpl::get_entry::<D>, (&d, &*final(fs), m.size), s),
        k < m.size,
        call_ensures(INodeImpl::get_entry::<D>, (&d, &*fs, k), s1),
        call_ensures(INodeImpl::get_entry::<D>, (&d, &*final(fs), k), s2),
    ensures
        s is Ok && shown(name.spec_bytes(), encode_utf8(s->Ok_0@)),
        fit_name(name) ==> encode_utf8(s->Ok_0@) == name.spec_bytes(),
        s1 is Ok && s2 is Ok,
        encode_utf8(s2->Ok_0@) == encode_utf8(s1->Ok_0@),
{
    let r = fs.raw();
    let dd = d.id() as int;
    let f = fs.tree()[dd];
    let kind = inner_type(type_)->0;
    let free = after(r.free, body_need(kind) as nat);
    lemma_told(d, &*fs, m);
    lemma_held(r, dd);
    lemma_tree_node(fs.tree(), dd);
    lemma_tree_node(final(fs).tree(), dd);
    assert(0 <= lowest(r.free) <= u32::MAX) by {
        lemma_bounds(r);
        law_unused(r);
        lemma_count_lowest(r.free);
    }
    lemma_put_names(
        dd,
        f,
        final(fs).tree()[dd],
        lowest(r.free),
        name,
        entry_block(f, free),
        entry_index(f, free),
    );
}

/// A further name of a file is shown last; the entries before it are as they were.
pub proof fn law_link_order<D: Device>(
    d: INodeImpl,
    fs: &mut SimpleFileSystem<D>,
    name: &str,
    c: INodeImpl,
    m: Metadata,
    s: Result<String, FsError>,
    k: usize,
    s1: Result<String, FsError>,
    s2: Result<String, FsError>,
)
    requires
        fs.wf(),
        fs.reliable(),
        fs.holds(d.id() as int),
        fs.holds(c.id() as int),
        name.spec_bytes().len() <= 255,
        call_ensures(INodeImpl::link::<D>, (&d, fs, name, Some(&c)), Ok::<(), FsError>(())),
        call_ensures(INodeImpl::metadata::<D>, (&d, &*fs), Ok::<Metadata, FsError>(m)),
        call_ensures(INodeImpl::get_entry::<D>, (&d, &*final(fs), m.size), s),
        k < m.size,
        call_ensures(INodeImpl::get_entry::<D>, (&d, &*fs, k), s1),
        call_ensures(INodeImpl::get_entry::<D>, (&d, &*final(fs), k), s2),
    ensures
        s is Ok && shown(name.spec_bytes(), encode_utf8(s->Ok_0@)),
        fit_name(name) ==> encode_utf8(s->Ok_0@) == name.spec_bytes(),
        s1 is Ok && s2 is Ok,
        encode_utf8(s2->Ok_0@) == encode_utf8(s1->Ok_0@),
{
    let r = fs.raw();
    let dd = d.id() as int;
    let x = c.id() as int;
    let f = fs.tree()[dd];
    lemma_told(d, &*fs, m);
    lemma_held(r, dd);
    lemma_held(r, x);
    lemma_live_owned(r, x);
    lemma_tree_node(fs.tree(), dd);
    lemma_tree_node(final(fs).tree(), dd);
    let g = final(fs).tree()[dd];
    assert(g == (Node { nlinks: f.nlinks, ..g }));
    lemma_put_names(dd, f, g, x, name, entry_block(f, r.free), entry_index(f, r.free));
}

/// Where the first entry of a name has been removed, the last one is shown in its place; the others are
/// as they were.
pub proof fn law_unlink_order<D: Device>(
    d: INodeImpl,
    fs: &mut SimpleFileSystem<D>,
    name: &str,
    m: Metadata,
    i: usize,
    s: Result<String, FsError>,
    k: usize,
    s1: Result<String, FsError>,
    last: Result<String, FsError>,
    s2: Result<String, FsError>,
)
    requires
        fs.wf(),
        fs.reliable(),
        fs.holds(d.id() as int),
        call_ensures(INodeImpl::unlink::<D>, (&d, fs, name), Ok::<(), FsError>(())),
        call_ensures(INodeImpl::metadata::<D>, (&d, &*fs), Ok::<Metadata, FsError>(m)),
        call_ensures(INodeImpl::get_entry::<D>, (&d, &*fs, i), s),
        s is Ok && encode_utf8(s->Ok_0@) == name.spec_bytes(),
        forall|j: int|
            0 <= j < i ==> #[trigger] entry_name(fs.tree()[d.id() as int], j) != name.spec_bytes(),
        k < m.size - 1,
        call_ensures(INodeImpl::get_entry::<D>, (&d, &*fs, k), s1),
        call_ensures(INodeImpl::get_entry::<D>, (&d, &*fs, (m.size - 1) as usize), last),
        call_ensures(INodeImpl::get_entry::<D>, (&d, &*final(fs), k), s2),
    ensures
        s1 is Ok && s2 is Ok && last is Ok,
        k != i ==> encode_utf8(s2->Ok_0@) == encode_utf8(s1->Ok_0@),
        k == i ==> encode_utf8(s2->Ok_0@) == encode_utf8(last->Ok_0@),
{
    let r = fs.raw();
    let dd = d.id() as int;
    let f = fs.tree()[dd];
    let j = find_entry(f, name.spec_bytes());
    lemma_told(d, &*fs, m);
    lemma_held(r, dd);
    lemma_tree_node(fs.tree(), dd);
    lemma_third(fs.tree(), dd, name.spec_bytes());
    assert(first_entry(f, name.spec_bytes(), j));
    assert(i == j);
    lemma_out_names(dd, f, final(fs).tree()[dd], j);
}

/// The first entry of a name keeps its place when it is given another name; the others are as they were.
pub proof fn law_rename_order<D: Device>(
    d: INodeImpl,
    fs: &mut SimpleFileSystem<D>,
    old_name: &str,
    name: &str,
    m: Metadata,
    i: usize,
    s: Result<String, FsError>,
    k: usize,
    s1: Result<String, FsError>,
    s2: Result<String, FsError>,
)
    requires
        fs.wf(),
        fs.reliable(),
        fs.holds(d.id() as int),
        name.spec_bytes().len() <= 255,
        call_ensures(
            INodeImpl::move_::<D>,
            (&d, fs, old_name, Some(&d), name),
            Ok::<(), FsError>(()),
        ),
        call_ensures(INodeImpl::metadata::<D>, (&d, &*fs), Ok::<Metadata, FsError>(m)),
        call_ensures(INodeImpl::get_entry::<D>, (&d, &*fs, i), s),
        s is Ok && encode_utf8(s->Ok_0@) == old_name.spec_bytes(),
        forall|j: int|
            0 <= j < i ==> #[trigger] entry_name(fs.tree()[d.id() as int], j) != old_name.spec_bytes(),
        k < m.size,
        call_ensures(INodeImpl::get_entry::<D>, (&d, &*fs, k), s1),
        call_ensures(INodeImpl::get_entry::<D>, (&d, &*final(fs), k), s2),
    ensures
        s1 is Ok && s2 is Ok,
        k != i ==> encode_utf8(s2->Ok_0@) == encode_utf8(s1->Ok_0@),
        k == i ==> shown(name.spec_bytes(), encode_utf8(s2->Ok_0@)),
        k == i && fit_name(name) ==> encode_utf8(s2->Ok_0@) == name.spec_bytes(),
{
    let r = fs.raw();
    let dd = d.id() as int;
    let f = fs.tree()[dd];
    let g = final(fs).tree()[dd];
    let j = find_entry(f, old_name.spec_bytes());
    lemma_told(d, &*fs, m);
    lemma_held(r, dd);
    lemma_tree_node(fs.tree(), dd);
    lemma_third(fs.tree(), dd, old_name.spec_bytes());
    assert(first_entry(f, old_name.spec_bytes(), j));
    assert(i == j);
    lemma_renamed_names(dd, f, g, j, entry_id(f, j), name);
}

/// The names of a directory after an entry has been written over.
proof fn lemma_renamed_names(d: int, f: Node, g: Node, i: int, x: int, name: &str)
    requires
        node_ok(d, f),
        f.kind == FileType::Dir,
        0 <= i < f.map.len(),
        0 <= x <= u32::MAX,
        name.spec_bytes().len() <= 255,
        g == written(f, i * 4096, entry_bytes(x, name.spec_bytes())),
    ensures
        g.map == f.map,
        shown(name.spec_bytes(), entry_name(g, i)),
        fit_name(name) ==> entry_name(g, i) == name.spec_bytes(),
        forall|j: int|
            0 <= j < f.map.len() && j != i ==> #[trigger] entry_name(g, j) == entry_name(f, j),
{
    let bytes = entry_bytes(x, name.spec_bytes());
    encode_utf8_valid_utf8(name@);
    lemma_padded(name.spec_bytes(), 256);
    lemma_shown(name.spec_bytes());
    assert(entry_at(g, i) =~= bytes);
    lemma_entry_at(g, i, x, name.spec_bytes());
    assert forall|j: int| 0 <= j < f.map.len() && j != i implies #[trigger] entry_name(g, j)
        == entry_name(f, j) by {
        assert(entry_field(g, j) =~= entry_field(f, j));
    }
}

/// An entry that is moved to another directory is shown last there. Where it was taken from, the last
/// one is shown in its place. The others are as they were.
pub proof fn law_move_order<D: Device>(
    d: INodeImpl,
    fs: &mut SimpleFileSystem<D>,
    old_name: &str,
    e: INodeImpl,
    name: &str,
    n: Metadata,
    s: Result<String, FsError>,
    k: usize,
    s1: Result<String, FsError>,
    s2: Result<String, FsError>,
)
    requires
        fs.wf(),
        fs.reliable(),
        fs.holds(d.id() as int),
        fs.holds(e.id() as int),
        d.id() != e.id(),
        name.spec_bytes().len() <= 255,
        call_ensures(
            INodeImpl::move_::<D>,
            (&d, fs, old_name, Some(&e), name),
            Ok::<(), FsError>(()),
        ),
        call_ensures(INodeImpl::metadata::<D>, (&e, &*fs), Ok::<Metadata, FsError>(n)),
        call_ensures(INodeImpl::get_entry::<D>, (&e, &*final(fs), n.size), s),
        k < n.size,
        call_ensures(INodeImpl::get_entry::<D>, (&e, &*fs, k), s1),
        call_ensures(INodeImpl::get_entry::<D>, (&e, &*final(fs), k), s2),
    ensures
        s is Ok && shown(name.spec_bytes(), encode_utf8(s->Ok_0@)),
        fit_name(name) ==> encode_utf8(s->Ok_0@) == name.spec_bytes(),
        s1 is Ok && s2 is Ok,
        encode_utf8(s2->Ok_0@) == encode_utf8(s1->Ok_0@),
{
    let r = fs.raw();
    let dd = d.id() as int;
    let ee = e.id() as int;
    let f = fs.tree()[dd];
    let x = entry_id(f, find_entry(f, old_name.spec_bytes()));
    lemma_told(e, &*fs, n);
    lemma_held(r, dd);
    lemma_held(r, ee);
    lemma_third(fs.tree(), dd, old_name.spec_bytes());
    lemma_live_owned(r, x);
    lemma_tree_node(fs.tree(), ee);
    lemma_tree_node(final(fs).tree(), ee);
    let h = fs.tree()[ee];
    lemma_put_names(
        ee,
        h,
        final(fs).tree()[ee],
        x,
        name,
        entry_block(h, r.free),
        entry_index(h, r.free),
    );
}

/// Where the first entry of a name has been moved away, the last one is shown in its place; the others
/// are as they were.
pub proof fn law_move_away<D: Device>(
    d: INodeImpl,
    fs: &mut SimpleFileSystem<D>,
    old_name: &str,
    e: INodeImpl,
    name: &str,
    m: Metadata,
    i: usize,
    s: Result<String, FsError>,
    k: usize,
    s1: Result<String, FsError>,
    last: Result<String, FsError>,
    s2: Result<String, FsError>,
)
    requires
        fs.wf(),
        fs.reliable(),
        fs.holds(d.id() as int),
        fs.holds(e.id() as int),
        d.id() != e.id(),
        call_ensures(
            INodeImpl::move_::<D>,
            (&d, fs, old_name, Some(&e), name),
            Ok::<(), FsError>(()),
        ),
        call_ensures(INodeImpl::metadata::<D>, (&d, &*fs), Ok::<Metadata, FsError>(m)),
        call_ensures(INodeImpl::get_entry::<D>, (&d, &*fs, i), s),
        s is Ok && encode_utf8(s->Ok_0@) == old_name.spec_bytes(),
        forall|j: int|
            0 <= j < i ==> #[trigger] entry_name(fs.tree()[d.id() as int], j) != old_name.spec_bytes(),
        k < m.size - 1,
        call_ensures(INodeImpl::get_entry::<D>, (&d, &*fs, k), s1),
        call_ensures(INodeImpl::get_entry::<D>, (&d, &*fs, (m.size - 1) as usize), last),
        call_ensures(INodeImpl::get_entry::<D>, (&d, &*final(fs), k), s2),
    ensures
        s1 is Ok && s2 is Ok && last is Ok,
        k != i ==> encode_utf8(s2->Ok_0@) == encode_utf8(s1->Ok_0@),
        k == i ==> encode_utf8(s2->Ok_0@) == encode_utf8(last->Ok_0@),
{
    let r = fs.raw();
    let dd = d.id() as int;
    let f = fs.tree()[dd];
    let j = find_entry(f, old_name.spec_bytes());
    lemma_told(d, &*fs, m);
    lemma_held(r, dd);
    lemma_tree_node(fs.tree(), dd);
    lemma_third(fs.tree(), dd, old_name.spec_bytes());
    assert(first_entry(f, old_name.spec_bytes(), j));
    assert(i == j);
    lemma_out_names(dd, f, final(fs).tree()[dd], j);
}

/// How many blocks a directory takes for one entry more: one, and one for the numbers of blocks with
/// the twelfth entry.
pub open spec fn room(m: Metadata) -> int {
    if m.size == 11 {
        2
    } else {
        1
    }
}

/// A directory can take one entry more, with some blocks spared, if it has fewer than 1036 and the
/// blocks for it are free.
pub proof fn law_fits_entry<D: Device>(
    d: INodeImpl,
    fs: &SimpleFileSystem<D>,
    spared: usize,
    r: bool,
    m: Metadata,
    i: FsInfo,
)
    requires
        fs.wf(),
        fs.holds(d.id() as int),
        call_ensures(INodeImpl::fits_entry::<D>, (&d, fs, spared), r),
        call_ensures(INodeImpl::metadata::<D>, (&d, fs), Ok::<Metadata, FsError>(m)),
        m.type_ == vfs::FileType::Dir,
        call_ensures(SimpleFileSystem::<D>::info, (fs,), i),
    ensures
        r <==> m.size < 1036 && spared + room(m) <= i.bfree,
{
    lemma_told(d, fs, m);
    lemma_tree_node(fs.tree(), d.id() as int);
    lemma_bounds(fs.raw());
    law_unused(fs.raw());
    lemma_count_len(fs.raw().free);
}

/// Creation may be asked for unless it would be served and finds no room: a name is stored up to 255
/// bytes, a file takes one block, a directory three, and the entry its own.
pub proof fn law_can_create<D: Device>(
    d: INodeImpl,
    fs: &SimpleFileSystem<D>,
    name: &str,
    type_: vfs::FileType,
    r: Result<bool, FsError>,
    m: Metadata,
    q: Result<Option<INodeId>, FsError>,
    i: FsInfo,
)
    requires
        fs.wf(),
        fs.reliable(),
        fs.holds(d.id() as int),
        call_ensures(INodeImpl::can_create::<D>, (&d, fs, name, type_), r),
        call_ensures(INodeImpl::metadata::<D>, (&d, fs), Ok::<Metadata, FsError>(m)),
        call_ensures(INodeImpl::get_file_inode_id::<D>, (&d, fs, name), q),
        call_ensures(SimpleFileSystem::<D>::info, (fs,), i),
    ensures
        r is Ok,
        ({
            let stored = type_ == vfs::FileType::File || type_ == vfs::FileType::Dir || type_
                == vfs::FileType::SymLink;
            let need = room(m) + if type_ == vfs::FileType::Dir {
                3int
            } else {
                1int
            };
            if m.type_ != vfs::FileType::Dir || m.nlinks == 0 || q != Ok::<
                Option<INodeId>,
                FsError,
            >(None) || !stored || i.bfree == 0 {
                r->Ok_0
            } else {
                r->Ok_0 <==> name.spec_bytes().len() <= 255 && m.size < 1036 && need <= i.bfree
            }
        }),
{
    lemma_told(d, fs, m);
    lemma_tree_node(fs.tree(), d.id() as int);
    lemma_got(d, fs, name, q);
    lemma_bounds(fs.raw());
    law_unused(fs.raw());
    lemma_count_len(fs.raw().free);
}

/// A further name may be asked for unless it would be served and finds no room for its entry, or the
/// file has as many links as can be counted.
pub proof fn law_can_link<D: Device>(
    d: INodeImpl,
    fs: &SimpleFileSystem<D>,
    name: &str,
    c: INodeImpl,
    r: Result<bool, FsError>,
    m: Metadata,
    n: Metadata,
    q: Result<Option<INodeId>, FsError>,
    i: FsInfo,
)
    requires
        fs.wf(),
        fs.reliable(),
        fs.holds(d.id() as int),
        fs.holds(c.id() as int),
        call_ensures(INodeImpl::can_link::<D>, (&d, fs, name, &c), r),
        call_ensures(INodeImpl::metadata::<D>, (&d, fs), Ok::<Metadata, FsError>(m)),
        call_ensures(INodeImpl::metadata::<D>, (&c, fs), Ok::<Metadata, FsError>(n)),
        call_ensures(INodeImpl::get_file_inode_id::<D>, (&d, fs, name), q),
        call_ensures(SimpleFileSystem::<D>::info, (fs,), i),
    ensures
        r is Ok,
        if m.type_ != vfs::FileType::Dir || m.nlinks == 0 || q != Ok::<Option<INodeId>, FsError>(
            None,
        ) || n.type_ == vfs::FileType::Dir {
            r->Ok_0
        } else {
            r->Ok_0 <==> name.spec_bytes().len() <= 255 && m.size < 1036 && room(m) <= i.bfree
                && n.nlinks < 65535
        },
{
    lemma_told(d, fs, m);
    lemma_told(c, fs, n);
    lemma_tree_node(fs.tree(), d.id() as int);
    lemma_tree_node(fs.tree(), c.id() as int);
    lemma_got(d, fs, name, q);
    lemma_bounds(fs.raw());
    law_unused(fs.raw());
    lemma_count_len(fs.raw().free);
}

/// Removal may be asked for unless it would be served and the file has as many handles as can be
/// counted.
pub proof fn law_can_unlink<D: Device>(
    d: INodeImpl,
    fs: &SimpleFileSystem<D>,
    name: &str,
    r: Result<bool, FsError>,
    m: Metadata,
    q: Result<Option<INodeId>, FsError>,
    more: bool,
)
    requires
        fs.wf(),
        fs.reliable(),
        fs.holds(d.id() as int),
        call_ensures(INodeImpl::can_unlink::<D>, (&d, fs, name), r),
        call_ensures(INodeImpl::metadata::<D>, (&d, fs), Ok::<Metadata, FsError>(m)),
        call_ensures(INodeImpl::get_file_inode_id::<D>, (&d, fs, name), q),
        q matches Ok(Some(x)) ==> call_ensures(SimpleFileSystem::<D>::has_spare, (fs, x), more),
    ensures
        r is Ok,
        if m.type_ != vfs::FileType::Dir || m.nlinks == 0 || name.spec_bytes() == seq![46u8]
            || name.spec_bytes() == seq![46u8, 46u8] || q == Ok::<Option<INodeId>, FsError>(None) {
            r->Ok_0
        } else {
            r->Ok_0 == more
        },
{
    lemma_told(d, fs, m);
    lemma_tree_node(fs.tree(), d.id() as int);
    lemma_got(d, fs, name, q);
}

/// Moving may be asked for unless it would be served and the name is too long, or, to another
/// directory, finds no room for the entry, or the file has as many handles as can be counted.
pub proof fn law_can_move<D: Device>(
    d: INodeImpl,
    fs: &SimpleFileSystem<D>,
    old_name: &str,
    e: INodeImpl,
    name: &str,
    r: Result<bool, FsError>,
    m: Metadata,
    n: Metadata,
    q: Result<Option<INodeId>, FsError>,
    p: Result<Option<INodeId>, FsError>,
    more: bool,
    i: FsInfo,
)
    requires
        fs.wf(),
        fs.reliable(),
        fs.holds(d.id() as int),
        fs.holds(e.id() as int),
        call_ensures(INodeImpl::can_move::<D>, (&d, fs, old_name, &e, name), r),
        call_ensures(INodeImpl::metadata::<D>, (&d, fs), Ok::<Metadata, FsError>(m)),
        call_ensures(INodeImpl::metadata::<D>, (&e, fs), Ok::<Metadata, FsError>(n)),
        call_ensures(INodeImpl::get_file_inode_id::<D>, (&d, fs, old_name), q),
        call_ensures(INodeImpl::get_file_inode_id::<D>, (&e, fs, name), p),
        q matches Ok(Some(x)) ==> call_ensures(SimpleFileSystem::<D>::has_spare, (fs, x), more),
        call_ensures(SimpleFileSystem::<D>::info, (fs,), i),
    ensures
        r is Ok,
        if m.type_ != vfs::FileType::Dir || m.nlinks == 0 || old_name.spec_bytes() == seq![46u8]
            || old_name.spec_bytes() == seq![46u8, 46u8] || n.type_ != vfs::FileType::Dir
            || n.nlinks == 0 || p != Ok::<Option<INodeId>, FsError>(None) || q == Ok::<
            Option<INodeId>,
            FsError,
        >(None) {
            r->Ok_0
        } else {
            r->Ok_0 <==> name.spec_bytes().len() <= 255 && (d.id() != e.id() ==> n.size < 1036
                && room(n) <= i.bfree && more)
        },
{
    lemma_told(d, fs, m);
    lemma_told(e, fs, n);
    lemma_tree_node(fs.tree(), d.id() as int);
    lemma_tree_node(fs.tree(), e.id() as int);
    lemma_got(d, fs, old_name, q);
    lemma_got(e, fs, name, p);
    lemma_bounds(fs.raw());
    law_unused(fs.raw());
    lemma_count_len(fs.raw().free);
}

} // verus!

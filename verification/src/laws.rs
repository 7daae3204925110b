//! What holds of the file system as a whole.

use vstd::prelude::*;
use vstd::utf8::valid_utf8;

use crate::codec::{le32, lemma_le32_same, lemma_le32_splice};
use crate::dir::{
    entry_at, entry_block, entry_bytes, entry_fits, entry_index, entry_put, lemma_entry_at,
    lemma_entry_out, lemma_entry_put, lemma_new_dir, new_dir,
};
use crate::entries::{
    body_need, create_fits, created, entry_out, linked, may_move, moved, renamed, takes_out,
    unlinked,
};
use crate::freemap::{
    after, cleared, count, freed, is_lowest, lemma_after_count, lemma_after_sum, lemma_count_len,
    lemma_count_lowest, lemma_taken, lowest, taken,
};
use crate::fs::{
    inodes_put, lemma_rest_kept, map_put, mounted_ok, rest_kept, stored_as, super_put, synced,
    written_back,
};
use crate::inode::{
    addressed, block_set, blocks_for, dropped, fits, free_resized, grow_need, grown, index_need,
    resized, shrunk, unused_resized, within, written,
};
use crate::model::{
    blk, clean, core_ok, disk_ok, give_block, handles, image, inode_ok, inode_synced, keeps,
    lemma_bounds, lemma_held, lemma_load, lemma_store_inode, live, node, one_more, owns, put_block,
    rec, spare, stored_ok, take_block, tree, with_handle, Node, Raw, Slot, Tree,
};
use crate::names::{lemma_cut_whole, lemma_nul_at, lemma_padded, name_ok};
use crate::ops::extended;
use crate::structs::{
    fields_fit, inode_at, inode_bytes, lemma_inode_bytes, lemma_super_bytes, lemma_super_same,
    super_bytes, FileType, Super, BLKSIZE, INODE_LEN, MAGIC, MAX_BLOCKS, MAX_FNAME_LEN, SUPER_LEN,
};
use crate::tree::{
    dot, dotdot, entry_field, entry_id, entry_name, find_entry, first_entry, has_entry, is_dir,
    kidset, lemma_closed, lemma_named_links, lemma_tree_node, named, node_ok, refset, tree_ok,
};

verus! {

/// The inode that a name stands for in a directory.
pub open spec fn lookup(f: Node, name: Seq<u8>) -> Option<int> {
    if has_entry(f, name) {
        Some(entry_id(f, find_entry(f, name)))
    } else {
        None
    }
}

/// No two entries of the directory have the same name.
pub open spec fn names_unique(f: Node) -> bool {
    forall|i: int, j: int|
        0 <= i < j < f.map.len() ==> #[trigger] entry_name(f, i) != #[trigger] entry_name(f, j)
}

/// A name without zero bytes.
pub open spec fn plain(name: Seq<u8>) -> bool {
    forall|i: int| 0 <= i < name.len() ==> name[i] != 0
}

/// What has been written is read back, and every other byte of the file is as it was.
pub proof fn law_read_back(r: Raw, id: int, offset: int, bytes: Seq<u8>)
    requires
        core_ok(r),
        tree_ok(tree(r)),
        tree(r).contains_key(id),
        tree(r)[id].kind != FileType::Dir,
        0 <= offset,
        blocks_for(offset + bytes.len()) <= MAX_BLOCKS,
    ensures
        ({
            let f = tree(r)[id];
            let end = offset + bytes.len();
            let g = written(extended(f, r.disk, r.free, end), offset, bytes);
            &&& within(g.size, offset, bytes.len() as int) == bytes.len()
            &&& forall|i: int| 0 <= i < bytes.len() ==> #[trigger] g.data[offset + i] == bytes[i]
            &&& forall|p: int|
                0 <= p < f.size && !(offset <= p < end) ==> #[trigger] g.data[p] == f.data[p]
            &&& g.size == if f.size < end {
                end
            } else {
                f.size
            }
        }),
{
    let f = tree(r)[id];
    let end = offset + bytes.len();
    let e = extended(f, r.disk, r.free, end);
    let g = written(e, offset, bytes);
    lemma_tree_node(tree(r), id);
    assert(f == node(r, id));
    assert forall|p: int| 0 <= p < f.size implies #[trigger] e.data[p] == f.data[p] by {
        assert(p / 4096 < f.map.len());
    }
    assert(e.data.len() >= end);
}

/// Cutting a file keeps what stands before the cut; where it gains blocks, what it gains is zero.
pub proof fn law_resize(r: Raw, id: int, len: int)
    requires
        core_ok(r),
        tree_ok(tree(r)),
        tree(r).contains_key(id),
        tree(r)[id].kind != FileType::Dir,
        0 <= len,
        blocks_for(len) <= MAX_BLOCKS,
    ensures
        ({
            let f = tree(r)[id];
            let g = resized(f, r.disk, r.free, len);
            &&& g.size == len
            &&& g.map.len() == blocks_for(len)
            &&& forall|p: int| 0 <= p < f.size && p < len ==> #[trigger] g.data[p] == f.data[p]
            &&& blocks_for(len) > f.map.len() ==> forall|p: int|
                f.size <= p < len ==> #[trigger] g.data[p] == 0
        }),
{
    let f = tree(r)[id];
    let g = resized(f, r.disk, r.free, len);
    lemma_tree_node(tree(r), id);
    assert(f == node(r, id));
    assert forall|p: int| 0 <= p < f.size && p < len implies #[trigger] g.data[p] == f.data[p] by {
        assert(p / 4096 < f.map.len());
    }
}

/// Blocks in use have one use each and are not free: no block serves two files, or one file twice,
/// or holds an inode besides.
pub proof fn law_blocks(r: Raw, x: int, k: int, y: int, j: int)
    requires
        core_ok(r),
        tree(r).contains_key(x),
        tree(r).contains_key(y),
        0 <= k < tree(r)[x].map.len(),
        0 <= j < tree(r)[y].map.len(),
    ensures
        !r.free[tree(r)[x].map[k]],
        !r.free[x],
        3 <= tree(r)[x].map[k] < r.sup.blocks,
        !tree(r).contains_key(tree(r)[x].map[k]),
        tree(r)[x].map[k] == tree(r)[y].map[j] ==> x == y && k == j,
        tree(r)[x].map.len() >= 12 ==> !r.free[tree(r)[x].indirect] && tree(r)[x].indirect
            != tree(r)[y].map[j] && !tree(r).contains_key(tree(r)[x].indirect),
{
    reveal(core_ok);
    assert(live(r, 1));
    assert(inode_ok(r, x, rec(r, x).blocks));
    assert(inode_ok(r, y, rec(r, y).blocks));
    assert(owns(r, blk(r.disk, rec(r, x), k), x, k));
    assert(owns(r, blk(r.disk, rec(r, y), j), y, j));
}

/// The number of a block that has been set is read back, those of all other blocks are as before, and
/// nothing else of the inode changes. All that is asked is that the inode is in memory and has room
/// for the numbers of its blocks.
pub proof fn law_block_set(r: Raw, id: int, i: int, b: int)
    requires
        disk_ok(r),
        handles(r).contains_key(id),
        addressed(r, id),
        rec(r, id).direct.len() == 12,
        0 <= i < rec(r, id).blocks,
        0 <= b <= u32::MAX,
    ensures
        block_set(r, put_block(r, id, i, b), id, i, b),
{
    let s = put_block(r, id, i, b);
    let v = rec(r, id);
    let w = rec(s, id);
    assert(handles(s) =~= handles(r));
    if i >= 12 {
        lemma_le32_splice(r.disk[v.indirect], i - 12, b);
        assert forall|j: int| 0 <= j < v.blocks && j != i implies #[trigger] blk(s.disk, w, j)
            == blk(r.disk, v, j) by {
            if j >= 12 {
                assert(le32(s.disk[v.indirect], 4 * (j - 12)) == le32(
                    r.disk[v.indirect],
                    4 * (j - 12),
                ));
            }
        }
    }
}

/// The superblock counts the free blocks.
pub proof fn law_unused(r: Raw)
    requires
        core_ok(r),
    ensures
        r.sup.unused == count(r.free),
        forall|b: int| 0 <= b < r.free.len() && #[trigger] r.free[b] ==> 3 <= b < r.sup.blocks,
{
    reveal(core_ok);
}

/// A file has as many links as entries name it. A directory that is in use has two, and one more
/// for each directory in it.
pub proof fn law_links(t: Tree, x: int)
    requires
        tree_ok(t),
        t.contains_key(x),
    ensures
        !is_dir(t, x) ==> t[x].nlinks == refset(t, x).len(),
        is_dir(t, x) && t[x].nlinks > 0 ==> t[x].nlinks == 2 + kidset(t, x).len(),
        is_dir(t, x) && x != 1 ==> refset(t, x).len() <= 1,
{
    lemma_tree_node(t, x);
}

/// Giving back a block that has just been taken leaves all as it was, but for what is to be stored.
pub proof fn law_alloc_free(r: Raw, b: int)
    requires
        is_lowest(r.free, b),
    ensures
        give_block(take_block(r, b), b) == (Raw { free_dirty: true, sup_dirty: true, ..r }),
{
    assert(r.free.update(b, false).update(b, true) =~= r.free);
}

/// Every directory starts with an entry for itself and one for its parent.
pub proof fn law_dots(t: Tree, d: int)
    requires
        tree_ok(t),
        is_dir(t, d),
    ensures
        lookup(t[d], dot()) == Some(d),
        entry_name(t[d], 0) == dot(),
        entry_name(t[d], 1) == dotdot(),
{
    lemma_tree_node(t, d);
    assert(first_entry(t[d], dot(), 0));
    let k = find_entry(t[d], dot());
    assert(first_entry(t[d], dot(), k));
    assert(k == 0);
}

/// The first entry of a name is the only one to be first.
proof fn lemma_first(f: Node, name: Seq<u8>, i: int)
    requires
        first_entry(f, name, i),
    ensures
        has_entry(f, name),
        find_entry(f, name) == i,
        lookup(f, name) == Some(entry_id(f, i)),
{
    let k = find_entry(f, name);
    assert(first_entry(f, name, k));
    if k < i {
        assert(entry_name(f, k) != name);
    } else if i < k {
        assert(entry_name(f, i) != name);
    }
}

/// A name that some entry has is found.
pub proof fn lemma_some_entry(f: Node, name: Seq<u8>, i: int)
    requires
        0 <= i < f.map.len(),
        entry_name(f, i) == name,
    ensures
        has_entry(f, name),
    decreases i,
{
    if exists|j: int| 0 <= j < i && #[trigger] entry_name(f, j) == name {
        let j = choose|j: int| 0 <= j < i && #[trigger] entry_name(f, j) == name;
        lemma_some_entry(f, name, j);
    } else {
        assert(first_entry(f, name, i));
    }
}

/// Two directories with the same names for the same files, but perhaps for `name`.
pub open spec fn same_lookups_but(f: Node, g: Node, name: Seq<u8>) -> bool {
    forall|m: Seq<u8>| m != name ==> #[trigger] lookup(g, m) == lookup(f, m)
}

/// After an entry has been put its name stands for the file, and all other names for what they stood
/// for.
proof fn lemma_put_lookup(
    d: int,
    f: Node,
    g: Node,
    x: int,
    name: Seq<u8>,
    b: int,
    indirect: int,
)
    requires
        node_ok(d, f),
        f.kind == FileType::Dir,
        entry_put(f, Node { nlinks: f.nlinks, ..g }, x, name, b, indirect),
        f.map.len() < MAX_BLOCKS,
        0 <= x <= u32::MAX,
        name.len() < 256,
        valid_utf8(name),
        plain(name),
        !has_entry(f, name),
    ensures
        lookup(g, name) == Some(x),
        same_lookups_but(f, g, name),
        names_unique(f) ==> names_unique(g),
        find_entry(g, name) == f.map.len(),
{
    let n = f.map.len() as int;
    let h = Node { nlinks: f.nlinks, ..g };
    lemma_entry_put(d, f, h, x, name, b, indirect);
    lemma_cut_whole(name);
    assert forall|i: int| 0 <= i < n implies #[trigger] entry_name(g, i) == entry_name(f, i)
        && entry_id(g, i) == entry_id(f, i) by {
        assert(entry_field(h, i) == entry_field(f, i));
        assert(entry_id(h, i) == entry_id(f, i));
        assert(entry_field(g, i) == entry_field(h, i));
    }
    assert(entry_name(h, n) == name);
    assert(entry_field(g, n) == entry_field(h, n));
    assert(entry_name(g, n) == name);
    assert(entry_id(g, n) == entry_id(h, n));
    assert forall|i: int| 0 <= i < n implies #[trigger] entry_name(f, i) != name by {
        if entry_name(f, i) == name {
            lemma_some_entry(f, name, i);
        }
    }
    assert(first_entry(g, name, n));
    lemma_first(g, name, n);
    assert forall|m: Seq<u8>| m != name implies #[trigger] lookup(g, m) == lookup(f, m) by {
        if has_entry(f, m) {
            let k = find_entry(f, m);
            assert(first_entry(f, m, k));
            assert(first_entry(g, m, k)) by {
                assert forall|j: int| 0 <= j < k implies #[trigger] entry_name(g, j) != m by {
                    assert(entry_name(f, j) != m);
                }
            }
            lemma_first(g, m, k);
            lemma_first(f, m, k);
        } else if has_entry(g, m) {
            let k = find_entry(g, m);
            assert(first_entry(g, m, k));
            assert(k != n);
            lemma_some_entry(f, m, k);
        }
    }
    if names_unique(f) {
        assert forall|i: int, j: int| 0 <= i < j < g.map.len() implies #[trigger] entry_name(g, i)
            != #[trigger] entry_name(g, j) by {
            assert(entry_name(g, i) == entry_name(f, i));
            if j < n {
                assert(entry_name(g, j) == entry_name(f, j));
            }
        }
    }
}

/// After an entry has been taken out its name stands for nothing, and all other names for what they
/// stood for.
proof fn lemma_out_lookup(d: int, f: Node, g: Node, i: int)
    requires
        node_ok(d, f),
        f.kind == FileType::Dir,
        2 <= i < f.map.len(),
        g == (Node { nlinks: g.nlinks, ..entry_out(f, i) }),
        names_unique(f),
    ensures
        lookup(g, entry_name(f, i)) is None,
        same_lookups_but(f, g, entry_name(f, i)),
        names_unique(g),
{
    let last = f.map.len() - 1;
    let name = entry_name(f, i);
    lemma_entry_out(d, f, g, i);
    assert forall|j: int| 0 <= j < last implies #[trigger] entry_name(g, j) == entry_name(
        f,
        if j == i {
            last
        } else {
            j
        },
    ) by {
        assert(entry_field(g, j) == entry_field(
            f,
            if j == i {
                last
            } else {
                j
            },
        ));
    }
    assert forall|j: int| 0 <= j < last implies #[trigger] entry_name(g, j) != name by {
        if j == i {
            assert(entry_name(f, last) != entry_name(f, i));
        } else {
            assert(entry_name(f, j) != entry_name(f, i));
        }
    }
    if has_entry(g, name) {
        let k = find_entry(g, name);
        assert(first_entry(g, name, k));
    }
    assert(names_unique(g)) by {
        assert forall|a: int, b: int| 0 <= a < b < last implies #[trigger] entry_name(g, a)
            != #[trigger] entry_name(g, b) by {
            let a2 = if a == i {
                last
            } else {
                a
            };
            let b2 = if b == i {
                last
            } else {
                b
            };
            assert(entry_name(f, a2) != entry_name(f, b2));
        }
    }
    assert forall|m: Seq<u8>| m != name implies #[trigger] lookup(g, m) == lookup(f, m) by {
        if has_entry(f, m) {
            let k = find_entry(f, m);
            assert(first_entry(f, m, k));
            let k2 = if k == last {
                i
            } else {
                k
            };
            assert(k != i);
            assert(entry_name(g, k2) == m);
            assert(entry_id(g, k2) == entry_id(f, k));
            assert(first_entry(g, m, k2)) by {
                assert forall|j: int| 0 <= j < k2 implies #[trigger] entry_name(g, j) != m by {
                    assert(entry_name(g, j) != entry_name(g, k2));
                }
            }
            lemma_first(g, m, k2);
            lemma_first(f, m, k);
        } else if has_entry(g, m) {
            let k = find_entry(g, m);
            assert(first_entry(g, m, k));
            let k2 = if k == i {
                last
            } else {
                k
            };
            assert(entry_name(f, k2) == m);
            lemma_some_entry(f, m, k2);
        }
    }
}

/// A file that has been created is found under its name, and all other names stand for what they
/// stood for.
pub proof fn law_create_find(r: Raw, s: Raw, d: int, name: Seq<u8>, kind: FileType)
    requires
        core_ok(r),
        tree_ok(tree(r)),
        is_dir(tree(r), d),
        !has_entry(tree(r)[d], name),
        tree(r)[d].map.len() < MAX_BLOCKS,
        r.sup.unused > 0,
        created(r, s, d, name, kind),
        name.len() < 256,
        valid_utf8(name),
        plain(name),
    ensures
        lookup(tree(s)[d], name) == Some(lowest(r.free)),
        same_lookups_but(tree(r)[d], tree(s)[d], name),
        names_unique(tree(r)[d]) ==> names_unique(tree(s)[d]),
        forall|x: int| tree(r).contains_key(x) && x != d ==> #[trigger] tree(s)[x] == tree(r)[x],
{
    reveal(core_ok);
    let f = tree(r)[d];
    let x = lowest(r.free);
    let free = after(r.free, body_need(kind) as nat);
    lemma_count_lowest(r.free);
    lemma_tree_node(tree(r), d);
    lemma_put_lookup(
        d,
        f,
        tree(s)[d],
        x,
        name,
        entry_block(f, free),
        entry_index(f, free),
    );
}

/// A file that has been given another name is found under it.
pub proof fn law_link_find(r: Raw, s: Raw, d: int, x: int, name: Seq<u8>)
    requires
        core_ok(r),
        tree_ok(tree(r)),
        is_dir(tree(r), d),
        tree(r).contains_key(x),
        !is_dir(tree(r), x),
        !has_entry(tree(r)[d], name),
        tree(r)[d].map.len() < MAX_BLOCKS,
        linked(r, s, d, x, name),
        name.len() < 256,
        valid_utf8(name),
        plain(name),
    ensures
        lookup(tree(s)[d], name) == Some(x),
        same_lookups_but(tree(r)[d], tree(s)[d], name),
        names_unique(tree(r)[d]) ==> names_unique(tree(s)[d]),
        tree(s)[x].data == tree(r)[x].data,
        tree(s)[x].size == tree(r)[x].size,
        tree(s)[x].nlinks == tree(r)[x].nlinks + 1,
{
    reveal(core_ok);
    let f = tree(r)[d];
    lemma_tree_node(tree(r), d);
    lemma_put_lookup(
        d,
        f,
        tree(s)[d],
        x,
        name,
        entry_block(f, r.free),
        entry_index(f, r.free),
    );
}

/// A name that has been removed is no longer found, and all other names stand for what they stood
/// for.
pub proof fn law_unlink_find(r: Raw, s: Raw, d: int, name: Seq<u8>)
    requires
        tree_ok(tree(r)),
        is_dir(tree(r), d),
        names_unique(tree(r)[d]),
        has_entry(tree(r)[d], name),
        find_entry(tree(r)[d], name) >= 2,
        ({
            let x = entry_id(tree(r)[d], find_entry(tree(r)[d], name));
            tree(r)[x].kind == FileType::Dir ==> tree(r)[x].map.len() == 2
        }),
        unlinked(r, s, d, find_entry(tree(r)[d], name)),
    ensures
        tree(s).contains_key(d),
        lookup(tree(s)[d], name) is None,
        same_lookups_but(tree(r)[d], tree(s)[d], name),
        names_unique(tree(s)[d]),
        forall|y: int|
            tree(r).contains_key(y) && y != d && y != entry_id(
                tree(r)[d],
                find_entry(tree(r)[d], name),
            ) ==> #[trigger] tree(s)[y] == tree(r)[y],
{
    let t = tree(r);
    let f = t[d];
    let i = find_entry(f, name);
    assert(first_entry(f, name, i));
    lemma_tree_node(t, d);
    assert(entry_id(f, i) != d);
    lemma_out_lookup(d, f, tree(s)[d], i);
}

/// A name that has been moved to another directory is found there and no longer where it was.
pub proof fn law_move_find(r: Raw, s: Raw, d: int, old_name: Seq<u8>, e: int, name: Seq<u8>)
    requires
        core_ok(r),
        tree_ok(tree(r)),
        is_dir(tree(r), d),
        is_dir(tree(r), e),
        d != e,
        names_unique(tree(r)[d]),
        has_entry(tree(r)[d], old_name),
        find_entry(tree(r)[d], old_name) >= 2,
        !has_entry(tree(r)[e], name),
        tree(r)[e].map.len() < MAX_BLOCKS,
        moved(r, s, d, find_entry(tree(r)[d], old_name), e, name),
        name.len() < 256,
        valid_utf8(name),
        plain(name),
    ensures
        lookup(tree(s)[d], old_name) is None,
        lookup(tree(s)[e], name) == lookup(tree(r)[d], old_name),
        same_lookups_but(tree(r)[d], tree(s)[d], old_name),
        same_lookups_but(tree(r)[e], tree(s)[e], name),
        names_unique(tree(s)[d]),
        names_unique(tree(r)[e]) ==> names_unique(tree(s)[e]),
        forall|y: int|
            tree(r).contains_key(y) && y != d && y != e ==> #[trigger] tree(s)[y] == tree(r)[y],
{
    reveal(core_ok);
    let t = tree(r);
    let f = t[d];
    let i = find_entry(f, old_name);
    assert(first_entry(f, old_name, i));
    lemma_tree_node(t, d);
    lemma_tree_node(t, e);
    lemma_closed(t, d, i);
    assert(live(r, entry_id(f, i)));
    lemma_out_lookup(d, f, tree(s)[d], i);
    lemma_put_lookup(
        e,
        t[e],
        tree(s)[e],
        entry_id(f, i),
        name,
        entry_block(t[e], r.free),
        entry_index(t[e], r.free),
    );
}

/// A file whose entry has been given a new name is found under that and no longer under the old one.
pub proof fn law_rename_find(r: Raw, s: Raw, d: int, old_name: Seq<u8>, name: Seq<u8>)
    requires
        tree_ok(tree(r)),
        is_dir(tree(r), d),
        names_unique(tree(r)[d]),
        has_entry(tree(r)[d], old_name),
        !has_entry(tree(r)[d], name),
        renamed(r, s, d, find_entry(tree(r)[d], old_name), name),
        name.len() < 256,
        valid_utf8(name),
        plain(name),
    ensures
        lookup(tree(s)[d], name) == lookup(tree(r)[d], old_name),
        lookup(tree(s)[d], old_name) is None,
        forall|m: Seq<u8>|
            m != name && m != old_name ==> #[trigger] lookup(tree(s)[d], m) == lookup(
                tree(r)[d],
                m,
            ),
        names_unique(tree(s)[d]),
{
    let f = tree(r)[d];
    let g = tree(s)[d];
    let i = find_entry(f, old_name);
    let x = entry_id(f, i);
    let bytes = entry_bytes(x, name);
    assert(first_entry(f, old_name, i));
    lemma_first(f, old_name, i);
    lemma_tree_node(tree(r), d);
    lemma_padded(name, 256);
    lemma_cut_whole(name);
    assert(entry_at(g, i) =~= bytes);
    lemma_entry_at(g, i, x, name);
    assert forall|j: int| 0 <= j < f.map.len() && j != i implies #[trigger] entry_name(g, j)
        == entry_name(f, j) && entry_id(g, j) == entry_id(f, j) by {
        assert(entry_field(g, j) =~= entry_field(f, j));
        lemma_le32_same(g.data, j * 4096, f.data, j * 4096);
    }
    assert(entry_name(g, i) == name);
    assert forall|j: int| 0 <= j < f.map.len() implies #[trigger] entry_name(f, j) != name by {
        if entry_name(f, j) == name {
            lemma_some_entry(f, name, j);
        }
    }
    assert(first_entry(g, name, i)) by {
        assert forall|j: int| 0 <= j < i implies #[trigger] entry_name(g, j) != name by {
            assert(entry_name(f, j) != name);
        }
    }
    lemma_first(g, name, i);
    if has_entry(g, old_name) {
        let k = find_entry(g, old_name);
        assert(first_entry(g, old_name, k));
        assert(k != i);
        assert(entry_name(f, k) == old_name);
        if k < i {
            assert(entry_name(f, k) != entry_name(f, i));
        } else {
            assert(entry_name(f, i) != entry_name(f, k));
        }
    }
    assert forall|m: Seq<u8>| m != name && m != old_name implies #[trigger] lookup(g, m)
        == lookup(f, m) by {
        if has_entry(f, m) {
            let k = find_entry(f, m);
            assert(first_entry(f, m, k));
            assert(first_entry(g, m, k)) by {
                assert forall|j: int| 0 <= j < k implies #[trigger] entry_name(g, j) != m by {
                    assert(entry_name(f, j) != m);
                }
            }
            lemma_first(g, m, k);
            lemma_first(f, m, k);
        } else if has_entry(g, m) {
            let k = find_entry(g, m);
            assert(first_entry(g, m, k));
            assert(k != i);
            lemma_some_entry(f, m, k);
        }
    }
    assert forall|a: int, b: int| 0 <= a < b < g.map.len() implies #[trigger] entry_name(g, a)
        != #[trigger] entry_name(g, b) by {
        assert(entry_name(f, a) != entry_name(f, b));
    }
}

/// File `f` has become `g`, and the blocks that it has taken or given back are those that are free no
/// longer or again.
pub open spec fn accounted(
    free: Seq<bool>,
    unused: int,
    f: Node,
    free2: Seq<bool>,
    unused2: int,
    g: Node,
) -> bool {
    &&& free2.len() == free.len()
    &&& freed(free2, dropped(g, 0)) == freed(free, dropped(f, 0))
    &&& unused2 + dropped(g, 0).len() == unused + dropped(f, 0).len()
}

/// The blocks that a file takes when it grows are accounted for.
proof fn lemma_grow_account(f: Node, disk: Seq<Seq<u8>>, free: Seq<bool>, unused: int, blocks: int)
    requires
        unused == count(free),
        f.map.len() < blocks,
        grow_need(f.map.len() as int, blocks) <= unused,
    ensures
        accounted(
            free,
            unused,
            f,
            after(free, grow_need(f.map.len() as int, blocks) as nat),
            unused - grow_need(f.map.len() as int, blocks),
            grown(f, disk, free, blocks),
        ),
{
    let n = f.map.len() as int;
    let extra = index_need(n, blocks) as nat;
    let need = grow_need(n, blocks) as nat;
    let more = (blocks - n) as nat;
    let g = grown(f, disk, free, blocks);
    let all = taken(free, need);
    let tail = taken(after(free, extra), more);
    lemma_taken(free, need);
    assert(after(free, 0) == free);
    assert forall|j: int| 0 <= j < more implies #[trigger] tail[j] == all[extra + j] by {
        lemma_after_sum(free, extra, j as nat);
    }
    if extra == 1 {
        assert(all[0] == lowest(free));
    }
    let a = dropped(f, 0);
    let c = dropped(g, 0);
    assert forall|b: int| #[trigger] c.contains(b) <==> a.contains(b) || all.contains(b) by {
        if c.contains(b) {
            let k = choose|k: int| 0 <= k < c.len() && c[k] == b;
            if k < n {
                assert(a[k] == b);
            } else if k < blocks {
                assert(c[k] == tail[k - n]);
                assert(all[extra + (k - n)] == b);
            } else if extra == 1 {
                assert(all[0] == b);
            } else {
                assert(a[n] == b);
            }
        }
        if a.contains(b) {
            let k = choose|k: int| 0 <= k < a.len() && a[k] == b;
            if k < n {
                assert(c[k] == b);
            } else {
                assert(c[blocks] == b);
            }
        }
        if all.contains(b) {
            let k = choose|k: int| 0 <= k < all.len() && all[k] == b;
            if extra == 1 && k == 0 {
                assert(c[blocks] == b);
            } else {
                assert(tail[k - extra] == b);
                assert(c[n + (k - extra)] == b);
            }
        }
    }
    let free2 = after(free, need);
    assert forall|b: int| 0 <= b < free.len() implies freed(free2, c)[b] == freed(free, a)[b] by {
        if all.contains(b) {
            let k = choose|k: int| 0 <= k < all.len() && all[k] == b;
            assert(free[all[k]]);
        }
        assert(free2[b] <==> free[b] && !all.contains(b));
    }
    assert(freed(free2, c) =~= freed(free, a));
}

/// The blocks that a file gives back when it is cut are accounted for.
proof fn lemma_shrink_account(f: Node, free: Seq<bool>, unused: int, blocks: int)
    requires
        0 <= blocks < f.map.len(),
    ensures
        accounted(
            free,
            unused,
            f,
            freed(free, dropped(f, blocks)),
            unused + dropped(f, blocks).len(),
            shrunk(f, blocks),
        ),
{
    let n = f.map.len() as int;
    let g = shrunk(f, blocks);
    let a = dropped(f, 0);
    let c = dropped(g, 0);
    let e = dropped(f, blocks);
    assert forall|b: int| #[trigger] a.contains(b) <==> c.contains(b) || e.contains(b) by {
        if a.contains(b) {
            let k = choose|k: int| 0 <= k < a.len() && a[k] == b;
            if k < blocks {
                assert(c[k] == b);
            } else if k < n {
                assert(e[k - blocks] == b);
            } else if blocks >= 12 {
                assert(c[blocks] == b);
            } else {
                assert(e[n - blocks] == b);
            }
        }
        if c.contains(b) {
            let k = choose|k: int| 0 <= k < c.len() && c[k] == b;
            if k < blocks {
                assert(a[k] == b);
            } else {
                assert(a[n] == b);
            }
        }
        if e.contains(b) {
            let k = choose|k: int| 0 <= k < e.len() && e[k] == b;
            if k < n - blocks {
                assert(a[blocks + k] == b);
            } else {
                assert(a[n] == b);
            }
        }
    }
    assert(freed(freed(free, e), c) =~= freed(free, a));
}

/// Setting the size of a file moves blocks between the file and the free map and loses none. A write
/// does no more to them.
pub proof fn law_account(r: Raw, id: int, len: int)
    requires
        core_ok(r),
        tree(r).contains_key(id),
        0 <= len,
        fits(tree(r)[id], r.sup.unused, len),
    ensures
        ({
            let f = tree(r)[id];
            let g = resized(f, r.disk, r.free, len);
            &&& accounted(
                r.free,
                r.sup.unused,
                f,
                free_resized(f, r.free, len),
                unused_resized(f, r.sup.unused, len),
                g,
            )
            &&& g.kind == f.kind
            &&& g.nlinks == f.nlinks
            &&& forall|offset: int, bytes: Seq<u8>|
                dropped(#[trigger] written(g, offset, bytes), 0) == dropped(g, 0)
        }),
{
    reveal(core_ok);
    let f = tree(r)[id];
    let g = resized(f, r.disk, r.free, len);
    let blocks = blocks_for(len);
    if blocks > f.map.len() {
        lemma_grow_account(f, r.disk, r.free, r.sup.unused, blocks);
        assert(dropped(g, 0) == dropped(grown(f, r.disk, r.free, blocks), 0));
    } else if blocks < f.map.len() {
        lemma_shrink_account(f, r.free, r.sup.unused, blocks);
        assert(dropped(g, 0) == dropped(shrunk(f, blocks), 0));
    } else {
        assert(dropped(g, 0) == dropped(f, 0));
    }
}

/// Removing a file that has been created, and of which no handle is left, undoes all of it, whatever
/// has been written to it in between: the files and the free blocks are as they were. The directory
/// must not have been at the point where it takes a block for the numbers of its further blocks,
/// which it keeps.
pub proof fn law_create_unlink(
    r: Raw,
    s: Raw,
    u: Raw,
    v: Raw,
    d: int,
    name: Seq<u8>,
    kind: FileType,
)
    requires
        core_ok(r),
        tree_ok(tree(r)),
        is_dir(tree(r), d),
        !has_entry(tree(r)[d], name),
        tree(r)[d].map.len() < MAX_BLOCKS,
        tree(r)[d].map.len() != 11,
        r.sup.unused > body_need(kind),
        created(r, s, d, name, kind),
        storable(name),
        ({
            let x = lowest(r.free);
            let h = tree(u)[x];
            &&& tree(u) == tree(s).insert(x, h)
            &&& h.kind == tree(s)[x].kind
            &&& h.nlinks == tree(s)[x].nlinks
            &&& accounted(s.free, s.sup.unused, tree(s)[x], u.free, u.sup.unused, h)
            &&& u.sup == (Super { unused: u.sup.unused, ..s.sup })
            &&& handles(u) == handles(s).remove(x)
        }),
        unlinked(u, v, d, find_entry(tree(u)[d], name)),
    ensures
        tree(v) == tree(r),
        v.free == r.free,
        v.sup == r.sup,
        handles(v) == handles(r),
{
    reveal(core_ok);
    let t = tree(r);
    let f = t[d];
    let n = f.map.len() as int;
    let x = lowest(r.free);
    let g = tree(s)[d];
    let h = tree(s)[x];
    let free = after(r.free, body_need(kind) as nat);
    let b = entry_block(f, free);
    lemma_tree_node(t, d);
    lemma_count_lowest(r.free);
    lemma_put_lookup(d, f, g, x, name, b, entry_index(f, free));
    lemma_entry_put(
        d,
        f,
        Node { nlinks: f.nlinks, ..g },
        x,
        name,
        b,
        entry_index(f, free),
    );
    assert(find_entry(g, name) == n);
    assert(entry_id(g, n) == x) by {
        lemma_some_entry(g, name, find_entry(g, name));
        assert(first_entry(g, name, n));
    }
    // the handle is gone
    assert(!handles(u).contains_key(x));
    assert(!u.cache.contains_key(x));
    // the directory is as it was
    let out = entry_out(g, n);
    assert(out.map =~= f.map);
    assert(f == node(r, d));
    assert(out.data =~= f.data);
    assert(out.size == f.size);
    assert(tree(v) =~= t);
    // so are the free blocks
    let body = body_need(kind) as nat;
    assert(after(r.free, 0) == r.free);
    lemma_after_count(r.free, body);
    let held = dropped(h, 0);
    if kind == FileType::Dir {
        lemma_after_count(r.free, 1);
        lemma_after_count(r.free, 2);
        let p = lowest(after(r.free, 1));
        let q = lowest(after(r.free, 2));
        lemma_after_sum(r.free, 1, 1);
        lemma_after_sum(r.free, 1, 0);
        assert(h.map[0] == p && h.map[1] == q);
        assert(held =~= seq![p, q]);
        assert forall|y: int| #[trigger] held.contains(y) <==> y == p || y == q by {
            if y == p {
                assert(held[0] == y);
            }
            if y == q {
                assert(held[1] == y);
            }
        }
        assert(after(r.free, 4) == cleared(after(r.free, 3), b));
        assert(after(r.free, 3) == cleared(after(r.free, 2), q));
        assert(after(r.free, 2) == cleared(after(r.free, 1), p));
        assert(after(r.free, 1) == cleared(r.free, x));
    } else {
        assert(held =~= Seq::<int>::empty());
        assert(after(r.free, 2) == cleared(after(r.free, 1), b));
        assert(after(r.free, 1) == cleared(r.free, x));
    }
    let now = dropped(tree(u)[x], 0);
    let gone = now.push(x);
    assert forall|y: int| #[trigger] gone.contains(y) <==> now.contains(y) || y == x by {
        if gone.contains(y) {
            let k = choose|k: int| 0 <= k < gone.len() && gone[k] == y;
            if k < now.len() {
                assert(now[k] == y);
            }
        }
        if now.contains(y) {
            let k = choose|k: int| 0 <= k < now.len() && now[k] == y;
            assert(gone[k] == y);
        }
        if y == x {
            assert(gone[now.len() as int] == y);
        }
    }
    assert forall|y: int| 0 <= y < r.free.len() implies v.free[y] == r.free[y] by {
        assert(freed(u.free, now)[y] == freed(s.free, held)[y]);
    }
    assert(v.free =~= r.free);
    assert(!r.cache.contains_key(x)) by {
        if r.cache.contains_key(x) {
            assert(live(r, x));
        }
    }
    assert(!handles(r).contains_key(x));
    assert(handles(v) =~= handles(r));
}

/// A file that still has a handle when its name is removed keeps its contents.
pub proof fn law_unlink_open(r: Raw, s: Raw, d: int, i: int)
    requires
        tree_ok(tree(r)),
        named(tree(r), d, i),
        !is_dir(tree(r), entry_id(tree(r)[d], i)),
        r.cache.contains_key(entry_id(tree(r)[d], i)),
        unlinked(r, s, d, i),
    ensures
        ({
            let x = entry_id(tree(r)[d], i);
            &&& tree(s).contains_key(x)
            &&& tree(s)[x] == (Node { nlinks: tree(r)[x].nlinks - 1, ..tree(r)[x] })
        }),
{
    lemma_closed(tree(r), d, i);
}

/// The file that a path leads to.
pub open spec fn walk(t: Tree, x: int, path: Seq<Seq<u8>>) -> Option<int>
    decreases path.len(),
{
    if path.len() == 0 {
        Some(x)
    } else if !is_dir(t, x) {
        None
    } else {
        match lookup(t[x], path[0]) {
            None => None,
            Some(y) => walk(t, y, path.skip(1)),
        }
    }
}

/// The path never asks for a parent.
pub open spec fn forward(path: Seq<Seq<u8>>) -> bool {
    forall|i: int| 0 <= i < path.len() ==> #[trigger] path[i] != dotdot()
}

proof fn lemma_walk_same(t: Tree, u: Tree, x: int, path: Seq<Seq<u8>>)
    requires
        tree_ok(t),
        tree_ok(u),
        forall|y: int| #[trigger] t.contains_key(y) && u.contains_key(y) ==> t[y] == u[y],
        t.contains_key(x),
        u.contains_key(x),
        forward(path),
    ensures
        walk(t, x, path) == walk(u, x, path),
        walk(t, x, path) matches Some(y) ==> t.contains_key(y) && u.contains_key(y),
    decreases path.len(),
{
    assert(t[x] == u[x]);
    if path.len() > 0 && is_dir(t, x) {
        let f = t[x];
        if has_entry(f, path[0]) {
            let i = find_entry(f, path[0]);
            assert(first_entry(f, path[0], i));
            let y = entry_id(f, i);
            lemma_tree_node(t, x);
            assert(i != 1);
            if i >= 2 {
                assert(named(t, x, i) && named(u, x, i));
                lemma_closed(t, x, i);
                lemma_closed(u, x, i);
            }
            assert forall|j: int| 0 <= j < path.skip(1).len() implies #[trigger] path.skip(1)[j]
                != dotdot() by {
                assert(path.skip(1)[j] == path[j + 1]);
            }
            lemma_walk_same(t, u, y, path.skip(1));
        }
    }
}

/// Writing back brings the superblock and the free map to the device wherever all of their bytes
/// reach it.
pub proof fn law_sync(r: Raw, s: Raw, k: int, map: Seq<u8>, m: int)
    requires
        core_ok(r),
        stored_ok(r),
        synced(r, s, k, map, m),
        k == SUPER_LEN,
        m == BLKSIZE,
    ensures
        clean(s),
        stored_ok(s),
        rest_kept(r, s),
{
    let (r1, r2) = choose|r1: Raw, r2: Raw| #[trigger]
        super_put(r, r1, k) && #[trigger] map_put(r1, r2, map, m) && inodes_put(r2, s);
    lemma_bounds(r);
    lemma_rest_kept(r, s, k, map, m);
    assert(!r.cache.contains_key(0) && !r.cache.contains_key(2)) by {
        reveal(core_ok);
        assert(r.cache.contains_key(0) ==> live(r, 0));
        assert(r.cache.contains_key(2) ==> live(r, 2));
    }
    assert(s.disk[0] == r1.disk[0]);
    assert(s.disk[2] == r2.disk[2]);
    if r.sup_dirty {
        let b = super_bytes(r.sup);
        assert(b.take(44) =~= b);
        assert(r.sup.info.len() == 32) by {
            reveal(super_bytes);
        }
        assert(0 <= r.sup.unused <= 32768 && r.sup.magic == MAGIC) by {
            reveal(core_ok);
            lemma_count_len(r.free);
        }
        lemma_super_bytes(r.sup);
        lemma_super_same(s.disk[0], b);
    }
    if r.free_dirty {
        assert(map.take(4096) =~= map);
        assert(s.disk[2] =~= map);
    }
}

/// Writing an inode back brings its own bytes to the start of its block and touches nothing else: the
/// rest of the block, all other blocks and what the inode says stay. The inode is not marked as
/// changed any more, so that writing it back once more changes nothing.
pub proof fn law_sync_inode(r: Raw, id: int)
    requires
        core_ok(r),
        r.cache.contains_key(id),
        fields_fit(r.cache[id].inode),
    ensures
        ({
            let s = inode_synced(r, id);
            &&& core_ok(s)
            &&& tree(s) == tree(r)
            &&& inode_at(s.disk[id], 0) == r.cache[id].inode
            &&& keeps(r, s, Set::<int>::empty().insert(id))
            &&& forall|p: int|
                INODE_LEN <= p < BLKSIZE ==> #[trigger] s.disk[id][p] == r.disk[id][p]
            &&& s.cache[id] == (Slot { dirty: false, ..r.cache[id] })
            &&& !r.cache[id].dirty ==> s == r
            &&& inode_synced(s, id) == s
        }),
{
    lemma_held(r, id);
    if r.cache[id].dirty {
        lemma_inode_bytes(r.cache[id].inode);
        lemma_store_inode(r, id, inode_bytes(r.cache[id].inode));
    }
}

/// All handles of an inode share one state. A handle that is handed out while there are others sees
/// what they see, changes not yet written back included; the first one sees what the device holds.
/// No other inode is concerned.
pub proof fn law_one_state(r: Raw, id: int)
    requires
        core_ok(r),
        live(r, id),
    ensures
        ({
            let s = with_handle(r, id);
            &&& core_ok(s)
            &&& tree(s) == tree(r)
            &&& handles(s) == one_more(handles(r), id)
            &&& rec(s, id) == rec(r, id)
            &&& r.cache.contains_key(id) ==> s.cache[id].inode == r.cache[id].inode
                && s.cache[id].dirty == r.cache[id].dirty
            &&& !r.cache.contains_key(id) ==> s.cache[id].inode == inode_at(r.disk[id], 0)
                && !s.cache[id].dirty
            &&& forall|x: int|
                x != id ==> (#[trigger] s.cache.contains_key(x) <==> r.cache.contains_key(x))
                    && s.cache[x] == r.cache[x]
        }),
{
    let s = with_handle(r, id);
    lemma_load(
        r,
        id,
        if r.cache.contains_key(id) {
            r.cache[id].refs + 1
        } else {
            1
        },
    );
    assert(handles(s) =~= one_more(handles(r), id));
}

/// A file system that has been written back can be mounted again. What is mounted has the same
/// superblock and free map, and every path that never asks for a parent leads to the same file with
/// the same contents.
pub proof fn law_reopen(r: Raw, owner: Map<int, (int, int)>, path: Seq<Seq<u8>>)
    requires
        core_ok(r),
        tree_ok(tree(r)),
        clean(r),
        stored_ok(r),
        mounted_ok(r.disk, owner),
        forward(path),
    ensures
        mounted_ok(r.disk, r.owner),
        image(r.disk, owner).sup == r.sup,
        image(r.disk, owner).free == r.free,
        ({
            let t = tree(r);
            let u = tree(image(r.disk, owner));
            &&& walk(u, 1, path) == walk(t, 1, path)
            &&& walk(t, 1, path) matches Some(x) ==> t.contains_key(x) && u.contains_key(x) && t[x]
                == u[x]
        }),
{
    let s = image(r.disk, owner);
    let w = image(r.disk, r.owner);
    law_remount(r);
    reveal(core_ok);
    assert(live(r, 1));
    assert(live(s, 1));
    assert forall|y: int| #[trigger] tree(r).contains_key(y) && tree(s).contains_key(
        y,
    ) implies tree(r)[y] == tree(s)[y] by {
        assert(live(r, y));
        assert(live(s, y));
        assert(rec(s, y) == inode_at(r.disk[y], 0));
        assert(rec(r, y) == rec(s, y));
    }
    lemma_walk_same(tree(r), tree(s), 1, path);
}

/// A file system that has been written back is on the device as it is in memory.
pub proof fn law_remount(r: Raw)
    requires
        core_ok(r),
        tree_ok(tree(r)),
        clean(r),
        stored_ok(r),
    ensures
        mounted_ok(r.disk, r.owner),
        image(r.disk, r.owner).sup == r.sup,
        image(r.disk, r.owner).free == r.free,
        tree(image(r.disk, r.owner)) == tree(r),
{
    reveal(core_ok);
    let w = image(r.disk, r.owner);
    assert(live(r, 1));
    assert forall|x: int| #[trigger] live(w, x) implies rec(w, x) == rec(r, x) && inode_ok(
        w,
        x,
        rec(w, x).blocks,
    ) by {
        assert(live(r, x));
        let v = rec(r, x);
        assert(inode_ok(r, x, v.blocks));
        assert(rec(w, x) == v);
        assert forall|k: int| 0 <= k < v.blocks implies owns(
            w,
            #[trigger] blk(w.disk, v, k),
            x,
            k,
        ) by {
            assert(owns(r, blk(r.disk, v, k), x, k));
        }
    }
    assert(tree(w) =~= tree(r));
}

/// A file system that has been dropped and opened again has the same superblock and free map, and
/// every path that never asks for a parent leads to the same file with the same contents.
pub proof fn law_drop_open(
    r: Raw,
    disk: Seq<Seq<u8>>,
    owner: Map<int, (int, int)>,
    path: Seq<Seq<u8>>,
)
    requires
        tree_ok(tree(r)),
        written_back(r, disk),
        mounted_ok(disk, owner),
        forward(path),
    ensures
        image(disk, owner).sup == r.sup,
        image(disk, owner).free == r.free,
        ({
            let t = tree(r);
            let u = tree(image(disk, owner));
            &&& walk(u, 1, path) == walk(t, 1, path)
            &&& walk(t, 1, path) matches Some(x) ==> t.contains_key(x) && u.contains_key(x) && t[x]
                == u[x]
        }),
{
    let s = choose|s: Raw| stored_as(r, s, disk);
    law_reopen(s, owner, path);
}

/// In every directory the names are distinct.
pub open spec fn names_ok(t: Tree) -> bool {
    forall|d: int| #[trigger] is_dir(t, d) ==> names_unique(t[d])
}

/// A call that succeeded, with its arguments.
pub enum Action {
    /// a file of kind `kind` is created in directory `d`
    Create { d: int, name: Seq<u8>, kind: FileType },
    /// file `x` is given a name in directory `d`
    Link { d: int, x: int, name: Seq<u8> },
    /// a name is removed from directory `d`
    Unlink { d: int, name: Seq<u8> },
    /// a name is moved from directory `d` to directory `e`
    Move { d: int, old_name: Seq<u8>, e: int, name: Seq<u8> },
    /// a name in directory `d` is changed
    Rename { d: int, old_name: Seq<u8>, name: Seq<u8> },
    /// a file that is no directory is written or resized
    Change { x: int },
    /// the last handle of a file without a name is dropped
    Remove { x: int },
    /// any call that changes no file: looking up, reading, syncing, taking and giving back handles
    Keep,
}

/// A name that can be stored in full.
pub open spec fn storable(name: Seq<u8>) -> bool {
    plain(name) && valid_utf8(name) && name.len() <= MAX_FNAME_LEN
}

/// `s` follows from `r` by the call. New names are free of zero bytes.
pub open spec fn performs(r: Raw, s: Raw, a: Action) -> bool {
    let t = tree(r);
    match a {
        Action::Create { d, name, kind } => {
            &&& is_dir(t, d)
            &&& !has_entry(t[d], name)
            &&& storable(name)
            &&& r.sup.unused > 0
            &&& create_fits(t[d], r.sup.unused, kind, name)
            &&& created(r, s, d, name, kind)
        },
        Action::Link { d, x, name } => {
            &&& is_dir(t, d)
            &&& t.contains_key(x)
            &&& !is_dir(t, x)
            &&& !has_entry(t[d], name)
            &&& storable(name)
            &&& entry_fits(t[d], r.sup.unused)
            &&& linked(r, s, d, x, name)
        },
        Action::Unlink { d, name } => {
            let i = find_entry(t[d], name);
            let x = entry_id(t[d], i);
            &&& is_dir(t, d)
            &&& takes_out(t[d], name)
            &&& t[x].kind == FileType::Dir ==> t[x].map.len() == 2
            &&& unlinked(r, s, d, i)
        },
        Action::Move { d, old_name, e, name } => {
            &&& is_dir(t, d)
            &&& is_dir(t, e)
            &&& d != e
            &&& takes_out(t[d], old_name)
            &&& !has_entry(t[e], name)
            &&& storable(name)
            &&& entry_fits(t[e], r.sup.unused)
            &&& moved(r, s, d, find_entry(t[d], old_name), e, name)
        },
        Action::Rename { d, old_name, name } => {
            &&& is_dir(t, d)
            &&& takes_out(t[d], old_name)
            &&& !has_entry(t[d], name)
            &&& storable(name)
            &&& renamed(r, s, d, find_entry(t[d], old_name), name)
        },
        Action::Change { x } => {
            &&& t.contains_key(x)
            &&& !is_dir(t, x)
            &&& tree(s) == t.insert(x, tree(s)[x])
            &&& tree(s)[x].kind == t[x].kind
        },
        Action::Remove { x } => tree(s) == t.remove(x),
        Action::Keep => tree(s) == t,
    }
}

/// An entry that can be taken out is none of the first two.
proof fn lemma_takes_out(t: Tree, d: int, name: Seq<u8>)
    requires
        tree_ok(t),
        is_dir(t, d),
        takes_out(t[d], name),
    ensures
        named(t, d, find_entry(t[d], name)),
        first_entry(t[d], name, find_entry(t[d], name)),
{
    lemma_tree_node(t, d);
    assert(first_entry(t[d], name, find_entry(t[d], name)));
}

/// The names of a new directory are distinct.
pub proof fn law_names_new_dir(
    g: Node,
    x: int,
    parent: int,
    map: Seq<int>,
    nlinks: int,
    indirect: int,
)
    requires
        new_dir(g, x, parent, map, nlinks, indirect),
        0 <= x <= u32::MAX,
        0 <= parent <= u32::MAX,
    ensures
        names_unique(g),
{
    lemma_new_dir(g, x, parent, map, nlinks, indirect);
    assert(dot().len() != dotdot().len());
}

/// Every call with names free of zero bytes keeps the names in every directory distinct.
pub proof fn law_names_step(r: Raw, s: Raw, a: Action)
    requires
        core_ok(r),
        tree_ok(tree(r)),
        names_ok(tree(r)),
        performs(r, s, a),
    ensures
        names_ok(tree(s)),
{
    let t = tree(r);
    let u = tree(s);
    match a {
        Action::Create { d, name, kind } => {
            assert(names_unique(t[d]));
            law_create_find(r, s, d, name, kind);
            let x = lowest(r.free);
            if kind == FileType::Dir {
                reveal(core_ok);
                lemma_count_lowest(r.free);
                assert(live(r, d));
                law_names_new_dir(u[x], x, d, taken(after(r.free, 1), 2), 2, 0);
            }
            assert forall|y: int| #[trigger] is_dir(u, y) implies names_unique(u[y]) by {
                if y != d && y != x {
                    assert(is_dir(t, y));
                }
            }
        },
        Action::Link { d, x, name } => {
            assert(names_unique(t[d]));
            law_link_find(r, s, d, x, name);
            assert forall|y: int| #[trigger] is_dir(u, y) implies names_unique(u[y]) by {
                if y != d {
                    assert(is_dir(t, y));
                }
            }
        },
        Action::Unlink { d, name } => {
            lemma_takes_out(t, d, name);
            assert(names_unique(t[d]));
            law_unlink_find(r, s, d, name);
            let x = entry_id(t[d], find_entry(t[d], name));
            assert forall|y: int| #[trigger] is_dir(u, y) implies names_unique(u[y]) by {
                if y != d {
                    lemma_closed(t, d, find_entry(t[d], name));
                    assert(is_dir(t, y));
                    if y == x {
                        lemma_names_same(t[x], u[x]);
                    }
                }
            }
        },
        Action::Move { d, old_name, e, name } => {
            lemma_takes_out(t, d, old_name);
            assert(names_unique(t[d]) && names_unique(t[e]));
            law_move_find(r, s, d, old_name, e, name);
            assert forall|y: int| #[trigger] is_dir(u, y) implies names_unique(u[y]) by {
                if y != d && y != e {
                    assert(is_dir(t, y));
                }
            }
        },
        Action::Rename { d, old_name, name } => {
            assert(names_unique(t[d]));
            law_rename_find(r, s, d, old_name, name);
            assert forall|y: int| #[trigger] is_dir(u, y) implies names_unique(u[y]) by {
                if y != d {
                    assert(is_dir(t, y));
                }
            }
        },
        Action::Change { x } => {
            assert forall|y: int| #[trigger] is_dir(u, y) implies names_unique(u[y]) by {
                assert(is_dir(t, y));
            }
        },
        Action::Remove { x } => {
            assert forall|y: int| #[trigger] is_dir(u, y) implies names_unique(u[y]) by {
                assert(is_dir(t, y));
            }
        },
        Action::Keep => {},
    }
}

/// The names of a directory are those of its blocks.
proof fn lemma_names_same(f: Node, g: Node)
    requires
        names_unique(f),
        g.map.len() == f.map.len(),
        g.data == f.data,
    ensures
        names_unique(g),
{
    assert forall|i: int, j: int| 0 <= i < j < g.map.len() implies #[trigger] entry_name(g, i)
        != #[trigger] entry_name(g, j) by {
        assert(entry_name(g, i) == entry_name(f, i));
        assert(entry_name(g, j) == entry_name(f, j));
        assert(entry_name(f, i) != entry_name(f, j));
    }
}

/// The files of a file system that has just been made: an empty root directory.
pub open spec fn just_made(t: Tree) -> bool {
    &&& t == Map::<int, Node>::empty().insert(1, t[1])
    &&& new_dir(t[1], 1, 1, seq![3int, 4int], 2, 0)
}

/// The states that calls lead through from a file system that has just been made.
pub open spec fn history(states: Seq<Raw>, calls: Seq<Action>) -> bool {
    &&& states.len() == calls.len() + 1
    &&& just_made(tree(states[0]))
    &&& forall|i: int|
        0 <= i < states.len() ==> core_ok(#[trigger] states[i]) && tree_ok(tree(states[i]))
    &&& forall|i: int|
        0 <= i < calls.len() ==> performs(states[i], states[i + 1], #[trigger] calls[i])
}

/// In every state that calls with names free of zero bytes lead to, from a file system that has just
/// been made, the names in every directory are distinct.
pub proof fn law_names(states: Seq<Raw>, calls: Seq<Action>, k: int)
    requires
        history(states, calls),
        0 <= k < states.len(),
    ensures
        names_ok(tree(states[k])),
    decreases k,
{
    if k == 0 {
        let t = tree(states[0]);
        law_names_new_dir(t[1], 1, 1, seq![3int, 4int], 2, 0);
        assert forall|d: int| #[trigger] is_dir(t, d) implies names_unique(t[d]) by {
            assert(d == 1);
        }
    } else {
        law_names(states, calls, k - 1);
        let a = calls[k - 1];
        assert(performs(states[k - 1], states[k], a));
        assert(core_ok(states[k - 1]));
        law_names_step(states[k - 1], states[k], a);
    }
}

/// Where names are distinct a listing is complete: a directory starts with the names for itself and
/// its parent, no name occurs twice in it, and a name is found if and only if it occurs.
pub proof fn law_listing(t: Tree, d: int, name: Seq<u8>)
    requires
        tree_ok(t),
        names_ok(t),
        is_dir(t, d),
    ensures
        t[d].map.len() >= 2,
        entry_name(t[d], 0) == dot(),
        entry_name(t[d], 1) == dotdot(),
        names_unique(t[d]),
        has_entry(t[d], name) <==> exists|i: int|
            0 <= i < t[d].map.len() && #[trigger] entry_name(t[d], i) == name,
{
    lemma_tree_node(t, d);
    assert(names_unique(t[d]));
    if has_entry(t[d], name) {
        let i = find_entry(t[d], name);
        assert(first_entry(t[d], name, i));
    }
    if exists|i: int| 0 <= i < t[d].map.len() && #[trigger] entry_name(t[d], i) == name {
        let i = choose|i: int| 0 <= i < t[d].map.len() && #[trigger] entry_name(t[d], i) == name;
        lemma_some_entry(t[d], name, i);
    }
}

/// The entries of a directory, as pairs of name and inode.
pub open spec fn listing(f: Node) -> Set<(Seq<u8>, int)> {
    Set::new(
        |p: (Seq<u8>, int)|
            exists|i: int|
                0 <= i < f.map.len() && #[trigger] entry_name(f, i) == p.0 && entry_id(f, i) == p.1,
    )
}

/// An entry that is put joins the listing.
proof fn lemma_put_listing(
    d: int,
    f: Node,
    g: Node,
    x: int,
    name: Seq<u8>,
    b: int,
    indirect: int,
)
    requires
        node_ok(d, f),
        f.kind == FileType::Dir,
        entry_put(f, Node { nlinks: f.nlinks, ..g }, x, name, b, indirect),
        f.map.len() < MAX_BLOCKS,
        0 <= x <= u32::MAX,
        storable(name),
    ensures
        listing(g) == listing(f).insert((name, x)),
        entry_name(g, f.map.len() as int) == name,
        entry_id(g, f.map.len() as int) == x,
        forall|i: int| 0 <= i < f.map.len() ==> #[trigger] entry_name(g, i) == entry_name(f, i),
        forall|i: int| 0 <= i < f.map.len() ==> #[trigger] entry_id(g, i) == entry_id(f, i),
{
    let n = f.map.len() as int;
    let h = Node { nlinks: f.nlinks, ..g };
    lemma_entry_put(d, f, h, x, name, b, indirect);
    lemma_cut_whole(name);
    assert forall|i: int| 0 <= i < n implies #[trigger] entry_name(g, i) == entry_name(f, i)
        && entry_id(g, i) == entry_id(f, i) by {
        assert(entry_field(h, i) == entry_field(f, i));
        assert(entry_id(h, i) == entry_id(f, i));
        assert(entry_field(g, i) == entry_field(h, i));
    }
    assert forall|i: int| 0 <= i < n implies #[trigger] entry_id(g, i) == entry_id(f, i) by {
        assert(entry_name(g, i) == entry_name(f, i));
    }
    assert(entry_name(h, n) == name && entry_field(g, n) == entry_field(h, n));
    assert(entry_name(g, n) == name);
    assert(entry_id(g, n) == entry_id(h, n));
    assert forall|p: (Seq<u8>, int)| #[trigger] listing(g).contains(p) <==> listing(f).insert(
        (name, x),
    ).contains(p) by {
        if listing(g).contains(p) {
            let i = choose|i: int|
                0 <= i < g.map.len() && #[trigger] entry_name(g, i) == p.0 && entry_id(g, i) == p.1;
            if i < n {
                assert(entry_name(f, i) == p.0 && entry_id(f, i) == p.1);
            }
        }
        if listing(f).contains(p) {
            let i = choose|i: int|
                0 <= i < f.map.len() && #[trigger] entry_name(f, i) == p.0 && entry_id(f, i) == p.1;
            assert(entry_name(g, i) == p.0 && entry_id(g, i) == p.1);
        }
        if p == (name, x) {
            assert(entry_name(g, n) == p.0 && entry_id(g, n) == p.1);
        }
    }
    assert(listing(g) =~= listing(f).insert((name, x)));
}

/// An entry of a name that occurs once leaves the listing when it is taken out.
proof fn lemma_out_listing(d: int, f: Node, g: Node, i: int)
    requires
        node_ok(d, f),
        f.kind == FileType::Dir,
        2 <= i < f.map.len(),
        g == (Node { nlinks: g.nlinks, ..entry_out(f, i) }),
        forall|j: int|
            0 <= j < f.map.len() && j != i ==> #[trigger] entry_name(f, j) != entry_name(f, i),
    ensures
        listing(g) == listing(f).remove((entry_name(f, i), entry_id(f, i))),
        !has_entry(g, entry_name(f, i)),
{
    let last = f.map.len() - 1;
    let name = entry_name(f, i);
    lemma_entry_out(d, f, g, i);
    assert forall|j: int| 0 <= j < last implies #[trigger] entry_name(g, j) == entry_name(
        f,
        if j == i {
            last
        } else {
            j
        },
    ) by {
        assert(entry_field(g, j) == entry_field(
            f,
            if j == i {
                last
            } else {
                j
            },
        ));
    }
    assert forall|p: (Seq<u8>, int)| #[trigger] listing(g).contains(p) <==> listing(f).remove(
        (name, entry_id(f, i)),
    ).contains(p) by {
        if listing(g).contains(p) {
            let j = choose|j: int|
                0 <= j < g.map.len() && #[trigger] entry_name(g, j) == p.0 && entry_id(g, j) == p.1;
            let k = if j == i {
                last
            } else {
                j
            };
            assert(entry_name(f, k) == p.0 && entry_id(f, k) == p.1);
            assert(entry_name(f, k) != name);
        }
        if listing(f).remove((name, entry_id(f, i))).contains(p) {
            let k = choose|k: int|
                0 <= k < f.map.len() && #[trigger] entry_name(f, k) == p.0 && entry_id(f, k) == p.1;
            let j = if k == last {
                i
            } else {
                k
            };
            assert(k != i);
            assert(entry_name(g, j) == p.0 && entry_id(g, j) == p.1);
        }
    }
    assert(listing(g) =~= listing(f).remove((name, entry_id(f, i))));
    if has_entry(g, name) {
        let k = find_entry(g, name);
        assert(first_entry(g, name, k));
        if k == i {
            assert(entry_name(f, last) != name);
        } else {
            assert(entry_name(f, k) != name);
        }
    }
}

/// What a name is found under can be stored.
proof fn lemma_found_storable(d: int, f: Node, name: Seq<u8>)
    requires
        node_ok(d, f),
        f.kind == FileType::Dir,
        has_entry(f, name),
    ensures
        storable(name),
{
    let i = find_entry(f, name);
    assert(first_entry(f, name, i));
    assert(name_ok(entry_field(f, i)));
    lemma_nul_at(entry_field(f, i));
}

/// An entry that has been moved to another directory can be moved back, and that undoes the move:
/// both directories have the same entries and links as before, the file has the same links, and as
/// many blocks are free. The directories stay below the number of entries from which they need a
/// block for the numbers of their further blocks.
pub proof fn law_move_back(r: Raw, s: Raw, a: int, old_name: Seq<u8>, b: int, name: Seq<u8>)
    requires
        core_ok(r),
        tree_ok(tree(r)),
        names_unique(tree(r)[a]),
        performs(r, s, (Action::Move { d: a, old_name, e: b, name })),
        tree(r)[b].nlinks > 0,
        spare(r, entry_id(tree(r)[a], find_entry(tree(r)[a], old_name))),
        tree(r)[a].map.len() < 12,
        tree(r)[b].map.len() < 11,
        core_ok(s),
        tree_ok(tree(s)),
    ensures
        may_move(s, b, name, a, old_name),
        takes_out(tree(s)[b], name),
        is_dir(tree(s), a),
        is_dir(tree(s), b),
        tree(s)[a].nlinks > 0,
        !has_entry(tree(s)[a], old_name),
        forall|u: Raw|
            #[trigger] moved(s, u, b, find_entry(tree(s)[b], name), a, old_name) ==> moved_back(
                r,
                u,
                a,
                b,
                entry_id(tree(r)[a], find_entry(tree(r)[a], old_name)),
            ),
{
    let t = tree(r);
    let v = tree(s);
    let f = t[a];
    let i = find_entry(f, old_name);
    let x = entry_id(f, i);
    lemma_takes_out(t, a, old_name);
    lemma_tree_node(t, a);
    lemma_tree_node(t, b);
    lemma_tree_node(v, a);
    lemma_tree_node(v, b);
    lemma_named_links(t, a, i);
    lemma_found_storable(a, f, old_name);
    assert(t.contains_key(x) && live(r, x));
    lemma_live_small(r, x);
    // the first move
    assert forall|j: int| 0 <= j < f.map.len() && j != i implies #[trigger] entry_name(f, j)
        != entry_name(f, i) by {}
    lemma_out_listing(a, f, v[a], i);
    lemma_put_listing(
        b,
        t[b],
        v[b],
        x,
        name,
        entry_block(t[b], r.free),
        entry_index(t[b], r.free),
    );
    let n = t[b].map.len() as int;
    assert forall|j: int| 0 <= j < n implies #[trigger] entry_name(v[b], j) != name by {
        if entry_name(v[b], j) == name {
            assert(entry_name(t[b], j) == name);
            lemma_some_entry(t[b], name, j);
        }
    }
    assert(first_entry(v[b], name, n));
    lemma_first(v[b], name, n);
    assert(name != dot()) by {
        assert(entry_name(v[b], 0) == dot());
    }
    assert(name != dotdot()) by {
        assert(entry_name(v[b], 1) == dotdot());
    }
    assert(handles(s) == handles(r));
    // the way back
    assert forall|u: Raw| #[trigger] moved(s, u, b, n, a, old_name) implies moved_back(
        r,
        u,
        a,
        b,
        x,
    ) by {
        let w = tree(u);
        assert forall|j: int| 0 <= j < v[b].map.len() && j != n implies #[trigger] entry_name(
            v[b],
            j,
        ) != entry_name(v[b], n) by {}
        lemma_out_listing(b, v[b], w[b], n);
        lemma_put_listing(
            a,
            v[a],
            w[a],
            x,
            old_name,
            entry_block(v[a], s.free),
            entry_index(v[a], s.free),
        );
        assert(listing(f).contains((old_name, x))) by {
            assert(entry_name(f, i) == old_name);
        }
        assert(!listing(t[b]).contains((name, x))) by {
            if listing(t[b]).contains((name, x)) {
                let j = choose|j: int|
                    0 <= j < t[b].map.len() && #[trigger] entry_name(t[b], j) == name && entry_id(
                        t[b],
                        j,
                    ) == x;
                assert(entry_name(v[b], j) == name);
            }
        }
        assert(listing(w[a]) =~= listing(t[a]));
        assert(listing(w[b]) =~= listing(t[b]));
    }
}

/// Two directories and a file are in `u` as in `r`: the entries and links of the directories, the
/// links of the file, the number of free blocks, the handles, and all other files.
pub open spec fn moved_back(r: Raw, u: Raw, a: int, b: int, x: int) -> bool {
    let t = tree(r);
    let w = tree(u);
    &&& listing(w[a]) == listing(t[a])
    &&& listing(w[b]) == listing(t[b])
    &&& w[a].nlinks == t[a].nlinks
    &&& w[b].nlinks == t[b].nlinks
    &&& w[x].nlinks == t[x].nlinks
    &&& u.sup == r.sup
    &&& handles(u) == handles(r)
    &&& forall|y: int| y != a && y != b ==> #[trigger] w.contains_key(y) == t.contains_key(y)
    &&& forall|y: int|
        t.contains_key(y) && y != a && y != b ==> #[trigger] w[y] == t[y]
}

proof fn lemma_live_small(r: Raw, x: int)
    requires
        core_ok(r),
        live(r, x),
    ensures
        0 <= x <= u32::MAX,
{
    reveal(core_ok);
}

} // verus!

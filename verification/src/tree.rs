//! Directories and links: what the files of a file system say of each other.

use vstd::prelude::*;
use vstd::set_lib::{lemma_int_range, lemma_len_subset, set_int_range};

use crate::codec::le32;
use crate::inode::blocks_for;
use crate::model::{Node, Tree};
use crate::names::{cut, name_ok};
use crate::structs::FileType;

verus! {

/// The name of a directory in itself.
pub open spec fn dot() -> Seq<u8> {
    seq![46u8]
}

/// The name of the parent in a directory.
pub open spec fn dotdot() -> Seq<u8> {
    seq![46u8, 46u8]
}

/// The inode that entry `i` of a directory names.
pub open spec fn entry_id(f: Node, i: int) -> int {
    le32(f.data, i * 4096)
}

/// The field that holds the name of entry `i`.
pub open spec fn entry_field(f: Node, i: int) -> Seq<u8> {
    f.data.subrange(i * 4096 + 4, i * 4096 + 260)
}

/// The name of entry `i`.
pub open spec fn entry_name(f: Node, i: int) -> Seq<u8> {
    cut(entry_field(f, i))
}

/// Entry `i` is the first one of that name.
pub open spec fn first_entry(f: Node, name: Seq<u8>, i: int) -> bool {
    &&& 0 <= i < f.map.len()
    &&& entry_name(f, i) == name
    &&& forall|j: int| 0 <= j < i ==> #[trigger] entry_name(f, j) != name
}

/// The directory has an entry of that name.
pub open spec fn has_entry(f: Node, name: Seq<u8>) -> bool {
    exists|i: int| first_entry(f, name, i)
}

/// The first entry of that name.
pub open spec fn find_entry(f: Node, name: Seq<u8>) -> int {
    choose|i: int| first_entry(f, name, i)
}

/// `x` is a directory.
pub open spec fn is_dir(t: Tree, x: int) -> bool {
    t.contains_key(x) && t[x].kind == FileType::Dir
}

/// Directory `d` has an entry `i` besides those for itself and its parent.
pub open spec fn named(t: Tree, d: int, i: int) -> bool {
    is_dir(t, d) && 2 <= i < t[d].map.len()
}

/// The entries that name `x`, as pairs of directory and entry.
pub open spec fn refset(t: Tree, x: int) -> Set<(int, int)> {
    Set::new(|p: (int, int)| named(t, p.0, p.1) && entry_id(t[p.0], p.1) == x)
}

/// The entries of `d` that name directories.
pub open spec fn kidset(t: Tree, d: int) -> Set<int> {
    Set::new(|i: int| named(t, d, i) && is_dir(t, entry_id(t[d], i)))
}

/// The size of a file and its number of blocks agree; a directory starts with its entries for itself
/// and its parent, and all its names are names.
pub open spec fn node_ok(x: int, f: Node) -> bool {
    &&& f.data.len() == f.map.len() * 4096
    &&& f.map.len() <= 1036
    &&& f.kind != FileType::Invalid
    &&& if f.kind == FileType::Dir {
        &&& f.size == f.map.len() * 256
        &&& f.map.len() >= 2
        &&& entry_id(f, 0) == x
        &&& entry_name(f, 0) == dot()
        &&& entry_name(f, 1) == dotdot()
        &&& forall|i: int| 0 <= i < f.map.len() ==> name_ok(#[trigger] entry_field(f, i))
    } else {
        0 <= f.size && f.map.len() == blocks_for(f.size)
    }
}

/// The number of links of `x` is right: for a file the number of entries that name it; for a
/// directory that is named, one for its entry, one for itself and one for each directory in it; for
/// one that has been removed, zero.
pub open spec fn links_ok(t: Tree, x: int) -> bool {
    &&& refset(t, x).finite()
    &&& kidset(t, x).finite()
    &&& if t[x].kind == FileType::Dir {
        if t[x].nlinks == 0 {
            &&& x != 1
            &&& refset(t, x).len() == 0
            &&& t[x].map.len() == 2
        } else {
            &&& t[x].nlinks == 2 + kidset(t, x).len()
            &&& refset(t, x).len() == if x == 1 {
                0nat
            } else {
                1nat
            }
        }
    } else {
        t[x].nlinks == refset(t, x).len()
    }
}

/// Every entry besides those for the parent names a file that exists.
pub open spec fn closed_tree(t: Tree) -> bool {
    forall|d: int, i: int| #[trigger] named(t, d, i) ==> t.contains_key(entry_id(t[d], i))
}

/// The files fit together.
#[verifier::opaque]
pub open spec fn tree_ok(t: Tree) -> bool {
    &&& is_dir(t, 1)
    &&& closed_tree(t)
    &&& forall|x: int| #[trigger] t.contains_key(x) ==> node_ok(x, t[x]) && links_ok(t, x)
}

/// What it means for one file that the files fit together.
pub proof fn lemma_tree_node(t: Tree, x: int)
    requires
        tree_ok(t),
        t.contains_key(x),
    ensures
        node_ok(x, t[x]),
        links_ok(t, x),
{
    reveal(tree_ok);
}

/// What an entry names exists.
pub proof fn lemma_closed(t: Tree, d: int, i: int)
    requires
        tree_ok(t),
        named(t, d, i),
    ensures
        t.contains_key(entry_id(t[d], i)),
{
    reveal(tree_ok);
}

/// The two trees have the same files of the same kinds.
pub open spec fn same_kinds(t: Tree, u: Tree) -> bool {
    forall|x: int|
        #![trigger u.contains_key(x)]
        #![trigger t.contains_key(x)]
        (u.contains_key(x) <==> t.contains_key(x)) && (t.contains_key(x) ==> u[x].kind == t[x].kind)
}

/// Directory `d` is in both trees alike.
pub open spec fn same_dir(t: Tree, u: Tree, d: int) -> bool {
    &&& u[d].map.len() == t[d].map.len()
    &&& forall|i: int| 2 <= i < t[d].map.len() ==> #[trigger] entry_id(u[d], i) == entry_id(t[d], i)
}

/// Directories are alike but perhaps `d`.
pub open spec fn same_dirs_but(t: Tree, u: Tree, d: int) -> bool {
    forall|x: int| is_dir(t, x) && x != d ==> #[trigger] same_dir(t, u, x)
}

/// Where directories name the same files, nothing is named otherwise.
pub proof fn lemma_same_sets(t: Tree, u: Tree)
    requires
        same_kinds(t, u),
        forall|x: int| is_dir(t, x) ==> #[trigger] same_dir(t, u, x),
    ensures
        forall|x: int| #[trigger] refset(u, x) == refset(t, x),
        forall|x: int| #[trigger] kidset(u, x) == kidset(t, x),
        closed_tree(t) ==> closed_tree(u),
{
    assert forall|d: int, i: int|
        #![trigger named(u, d, i)]
        #![trigger named(t, d, i)]
        named(u, d, i) <==> named(t, d, i) by {
        assert(u.contains_key(d) <==> t.contains_key(d));
        if is_dir(t, d) {
            assert(same_dir(t, u, d));
        }
    }
    assert forall|d: int, i: int| #[trigger] named(t, d, i) implies entry_id(u[d], i) == entry_id(
        t[d],
        i,
    ) by {
        assert(same_dir(t, u, d));
    }
    assert forall|x: int| #[trigger] is_dir(u, x) <==> is_dir(t, x) by {
        assert(u.contains_key(x) <==> t.contains_key(x));
    }
    assert forall|x: int| #[trigger] refset(u, x) == refset(t, x) by {
        assert(refset(u, x) =~= refset(t, x));
    }
    assert forall|x: int| #[trigger] kidset(u, x) == kidset(t, x) by {
        assert(kidset(u, x) =~= kidset(t, x));
    }
    if closed_tree(t) {
        assert forall|d: int, i: int| #[trigger] named(u, d, i) implies u.contains_key(
            entry_id(u[d], i),
        ) by {
            assert(named(t, d, i));
            assert(t.contains_key(entry_id(t[d], i)));
        }
    }
}

/// Directory `d` has in `u` one entry more than in `t`, which names `x`.
pub open spec fn entry_added(t: Tree, u: Tree, d: int, x: int) -> bool {
    &&& is_dir(t, d)
    &&& t[d].map.len() >= 2
    &&& u[d].map.len() == t[d].map.len() + 1
    &&& forall|i: int| 2 <= i < t[d].map.len() ==> #[trigger] entry_id(u[d], i) == entry_id(t[d], i)
    &&& entry_id(u[d], t[d].map.len() as int) == x
}

/// What one entry more does to what is named.
pub proof fn lemma_added(t: Tree, u: Tree, d: int, x: int)
    requires
        same_kinds(t, u),
        same_dirs_but(t, u, d),
        entry_added(t, u, d, x),
        closed_tree(t),
        t.contains_key(x),
    ensures
        closed_tree(u),
        refset(u, x) == refset(t, x).insert((d, t[d].map.len() as int)),
        !refset(t, x).contains((d, t[d].map.len() as int)),
        forall|y: int| y != x ==> #[trigger] refset(u, y) == refset(t, y),
        is_dir(t, x) ==> kidset(u, d) == kidset(t, d).insert(t[d].map.len() as int) && !kidset(
            t,
            d,
        ).contains(t[d].map.len() as int),
        !is_dir(t, x) ==> kidset(u, d) == kidset(t, d),
        forall|y: int| y != d ==> #[trigger] kidset(u, y) == kidset(t, y),
{
    let n = t[d].map.len() as int;
    assert(u.contains_key(d) <==> t.contains_key(d));
    assert forall|e: int, i: int| #[trigger] named(u, e, i) <==> named(t, e, i) || (e == d && i
        == n) by {
        assert(u.contains_key(e) <==> t.contains_key(e));
        if is_dir(t, e) && e != d {
            assert(same_dir(t, u, e));
        }
    }
    assert forall|e: int, i: int| #[trigger] named(t, e, i) implies named(u, e, i) && entry_id(
        u[e],
        i,
    ) == entry_id(t[e], i) by {
        assert(named(u, e, i));
        if e != d {
            assert(same_dir(t, u, e));
        }
    }
    assert forall|y: int| #[trigger] is_dir(u, y) <==> is_dir(t, y) by {
        assert(u.contains_key(y) <==> t.contains_key(y));
    }
    assert(refset(u, x) =~= refset(t, x).insert((d, n)));
    assert forall|y: int| y != x implies #[trigger] refset(u, y) == refset(t, y) by {
        assert(refset(u, y) =~= refset(t, y));
    }
    if is_dir(t, x) {
        assert(kidset(u, d) =~= kidset(t, d).insert(n));
    } else {
        assert(kidset(u, d) =~= kidset(t, d));
    }
    assert forall|y: int| y != d implies #[trigger] kidset(u, y) == kidset(t, y) by {
        assert(kidset(u, y) =~= kidset(t, y));
    }
    assert forall|e: int, i: int| #[trigger] named(u, e, i) implies u.contains_key(
        entry_id(u[e], i),
    ) by {
        if named(t, e, i) {
            assert(t.contains_key(entry_id(t[e], i)));
        }
    }
}

/// Entry `i` of directory `d` is gone in `u`, and the last one stands in its place.
pub open spec fn entry_removed(t: Tree, u: Tree, d: int, i: int) -> bool {
    let last = t[d].map.len() - 1;
    &&& is_dir(t, d)
    &&& 2 <= i <= last
    &&& u[d].map.len() == last
    &&& forall|j: int|
        2 <= j < last ==> #[trigger] entry_id(u[d], j) == if j == i {
            entry_id(t[d], last)
        } else {
            entry_id(t[d], j)
        }
}

/// What one entry less does to what is named.
pub proof fn lemma_removed(t: Tree, u: Tree, d: int, i: int)
    requires
        same_kinds(t, u),
        same_dirs_but(t, u, d),
        entry_removed(t, u, d, i),
        closed_tree(t),
        forall|y: int| #[trigger] t.contains_key(y) ==> refset(t, y).finite() && kidset(t, y).finite(),
    ensures
        closed_tree(u),
        forall|y: int| #[trigger]
            t.contains_key(y) ==> refset(u, y).finite() && kidset(u, y).finite(),
        refset(u, entry_id(t[d], i)).len() == refset(t, entry_id(t[d], i)).len() - 1,
        forall|y: int|
            #![trigger refset(u, y)]
            t.contains_key(y) && y != entry_id(t[d], i) ==> refset(u, y).len() == refset(t, y).len(),
        kidset(u, d).len() == kidset(t, d).len() - if is_dir(t, entry_id(t[d], i)) {
            1int
        } else {
            0int
        },
        forall|y: int| y != d ==> #[trigger] kidset(u, y) == kidset(t, y),
{
    let last = t[d].map.len() - 1;
    let x = entry_id(t[d], i);
    let z = entry_id(t[d], last);
    assert(u.contains_key(d) <==> t.contains_key(d));
    assert forall|e: int, j: int| #[trigger] named(u, e, j) <==> named(t, e, j) && !(e == d && j
        == last) by {
        assert(u.contains_key(e) <==> t.contains_key(e));
        if is_dir(t, e) && e != d {
            assert(same_dir(t, u, e));
        }
    }
    assert forall|e: int, j: int| #[trigger] named(u, e, j) implies entry_id(u[e], j) == if e == d
        && j == i {
        z
    } else {
        entry_id(t[e], j)
    } by {
        assert(named(t, e, j));
        if e != d {
            assert(same_dir(t, u, e));
        }
    }
    assert forall|y: int| #[trigger] is_dir(u, y) <==> is_dir(t, y) by {
        assert(u.contains_key(y) <==> t.contains_key(y));
    }
    assert(named(t, d, i) && named(t, d, last));
    assert forall|y: int| #[trigger] t.contains_key(y) implies refset(u, y).finite() && refset(
        u,
        y,
    ).len() == refset(t, y).len() - if y == x {
        1int
    } else {
        0int
    } by {
        let a = refset(t, y);
        if y == z {
            if i == last {
                assert(refset(u, y) =~= a.remove((d, last)));
            } else if x == z {
                assert(refset(u, y) =~= a.remove((d, last)));
            } else {
                assert(refset(u, y) =~= a.remove((d, last)).insert((d, i)));
                assert(!a.contains((d, i)));
            }
            assert(a.contains((d, last)));
        } else if y == x {
            assert(refset(u, y) =~= a.remove((d, i)));
            assert(a.contains((d, i)));
        } else {
            assert(refset(u, y) =~= a);
        }
    }
    assert(t.contains_key(x));
    let k = kidset(t, d);
    if is_dir(t, z) {
        assert(k.contains(last));
        if i == last {
            assert(kidset(u, d) =~= k.remove(last));
        } else if is_dir(t, x) {
            assert(kidset(u, d) =~= k.remove(last));
        } else {
            assert(kidset(u, d) =~= k.remove(last).insert(i));
            assert(!k.contains(i));
        }
    } else {
        assert(!k.contains(last));
        if is_dir(t, x) {
            assert(k.contains(i));
            assert(kidset(u, d) =~= k.remove(i));
        } else {
            assert(kidset(u, d) =~= k);
        }
    }
    assert forall|y: int| y != d implies #[trigger] kidset(u, y) == kidset(t, y) by {
        assert forall|j: int| kidset(u, y).contains(j) <==> kidset(t, y).contains(j) by {
            assert(named(u, y, j) <==> named(t, y, j));
        }
        assert(kidset(u, y) =~= kidset(t, y));
    }
    assert forall|e: int, j: int| #[trigger] named(u, e, j) implies u.contains_key(
        entry_id(u[e], j),
    ) by {
        assert(named(t, e, j));
        assert(t.contains_key(entry_id(t[e], j)));
        assert(t.contains_key(z));
    }
}

/// A file that nothing names yet.
pub proof fn lemma_fresh(t: Tree, x: int, g: Node)
    requires
        closed_tree(t),
        !t.contains_key(x),
        g.kind == FileType::Dir ==> g.map.len() <= 2,
    ensures
        closed_tree(t.insert(x, g)),
        forall|y: int| #[trigger] refset(t.insert(x, g), y) == refset(t, y),
        forall|y: int| #[trigger] kidset(t.insert(x, g), y) == kidset(t, y),
        refset(t, x) == Set::<(int, int)>::empty(),
        kidset(t, x) == Set::<int>::empty(),
{
    let u = t.insert(x, g);
    assert forall|d: int, i: int|
        #![trigger named(u, d, i)]
        #![trigger named(t, d, i)]
        named(u, d, i) <==> named(t, d, i) by {}
    assert forall|d: int, i: int| #[trigger] named(t, d, i) implies entry_id(t[d], i) != x by {
        assert(t.contains_key(entry_id(t[d], i)));
    }
    assert forall|y: int| #[trigger] refset(u, y) == refset(t, y) by {
        assert(refset(u, y) =~= refset(t, y));
    }
    assert forall|y: int| #[trigger] kidset(u, y) == kidset(t, y) by {
        assert(kidset(u, y) =~= kidset(t, y));
    }
    assert(refset(t, x) =~= Set::<(int, int)>::empty());
    assert(kidset(t, x) =~= Set::<int>::empty());
    assert forall|d: int, i: int| #[trigger] named(u, d, i) implies u.contains_key(
        entry_id(u[d], i),
    ) by {
        assert(named(t, d, i));
        assert(t.contains_key(entry_id(t[d], i)));
    }
}

/// Taking away a file that nothing names.
pub proof fn lemma_gone(t: Tree, x: int)
    requires
        tree_ok(t),
        t.contains_key(x),
        t[x].nlinks == 0,
    ensures
        x != 1,
        tree_ok(t.remove(x)),
{
    reveal(tree_ok);
    let u = t.remove(x);
    assert(node_ok(x, t[x]) && links_ok(t, x));
    assert(refset(t, x) =~= Set::<(int, int)>::empty()) by {
        refset(t, x).lemma_len0_is_empty();
    }
    assert forall|d: int, i: int|
        #![trigger named(u, d, i)]
        #![trigger named(t, d, i)]
        named(u, d, i) <==> named(t, d, i) by {}
    assert forall|d: int, i: int| #[trigger] named(t, d, i) implies entry_id(t[d], i) != x by {
        if entry_id(t[d], i) == x {
            assert(refset(t, x).contains((d, i)));
        }
    }
    assert forall|y: int| #[trigger] u.contains_key(y) implies node_ok(y, u[y]) && links_ok(
        u,
        y,
    ) by {
        assert(t.contains_key(y));
        assert(links_ok(t, y));
        assert(refset(u, y) =~= refset(t, y));
        assert(kidset(u, y) =~= kidset(t, y));
    }
    assert forall|d: int, i: int| #[trigger] named(u, d, i) implies u.contains_key(
        entry_id(u[d], i),
    ) by {
        assert(named(t, d, i));
        assert(t.contains_key(entry_id(t[d], i)));
    }
    if x == 1 {
        assert(false);
    }
}

/// A directory has no more directories than an inode can address entries.
pub proof fn lemma_kids_bound(t: Tree, d: int)
    requires
        is_dir(t, d),
        t[d].map.len() <= 1036,
    ensures
        kidset(t, d).finite(),
        kidset(t, d).len() <= 1034,
        kidset(t, d).len() <= t[d].map.len() - 2 || t[d].map.len() < 2,
{
    let m = t[d].map.len() as int;
    let hi = if m < 2 {
        2
    } else {
        m
    };
    assert(kidset(t, d).subset_of(set_int_range(2, hi)));
    lemma_int_range(2, hi);
    lemma_len_subset(kidset(t, d), set_int_range(2, hi));
}

/// A file other than a directory may change as long as it keeps its type and links.
pub proof fn lemma_file_ok(t: Tree, x: int, g: Node)
    requires
        tree_ok(t),
        t.contains_key(x),
        t[x].kind != FileType::Dir,
        g.kind == t[x].kind,
        g.nlinks == t[x].nlinks,
        node_ok(x, g),
    ensures
        tree_ok(t.insert(x, g)),
{
    reveal(tree_ok);
    let u = t.insert(x, g);
    lemma_same_sets(t, u);
    assert forall|y: int| #[trigger] u.contains_key(y) implies node_ok(y, u[y]) && links_ok(
        u,
        y,
    ) by {
        assert(t.contains_key(y));
        assert(links_ok(t, y));
        assert(refset(u, y) == refset(t, y));
        assert(kidset(u, y) == kidset(t, y));
    }
}

/// A directory may change as long as it names the same files and keeps its links.
pub proof fn lemma_rename_ok(t: Tree, d: int, g: Node)
    requires
        tree_ok(t),
        is_dir(t, d),
        g.kind == FileType::Dir,
        g.nlinks == t[d].nlinks,
        g.map.len() == t[d].map.len(),
        forall|i: int| 2 <= i < g.map.len() ==> #[trigger] entry_id(g, i) == entry_id(t[d], i),
        node_ok(d, g),
    ensures
        tree_ok(t.insert(d, g)),
{
    reveal(tree_ok);
    let u = t.insert(d, g);
    assert forall|x: int| is_dir(t, x) implies #[trigger] same_dir(t, u, x) by {}
    lemma_same_sets(t, u);
    assert forall|y: int| #[trigger] u.contains_key(y) implies node_ok(y, u[y]) && links_ok(
        u,
        y,
    ) by {
        assert(t.contains_key(y));
        assert(links_ok(t, y));
        assert(refset(u, y) == refset(t, y));
        assert(kidset(u, y) == kidset(t, y));
    }
}

/// A file without links may come into being.
pub proof fn lemma_fresh_ok(t: Tree, x: int, g: Node)
    requires
        tree_ok(t),
        !t.contains_key(x),
        g.nlinks == 0,
        g.kind == FileType::Dir ==> g.map.len() == 2,
        node_ok(x, g),
    ensures
        tree_ok(t.insert(x, g)),
{
    reveal(tree_ok);
    let u = t.insert(x, g);
    lemma_fresh(t, x, g);
    assert forall|y: int| #[trigger] u.contains_key(y) implies node_ok(y, u[y]) && links_ok(
        u,
        y,
    ) by {
        assert(refset(u, y) == refset(t, y));
        assert(kidset(u, y) == kidset(t, y));
        if y != x {
            assert(t.contains_key(y));
            assert(links_ok(t, y));
        }
    }
}

/// Directory `d` takes an entry for a file, which gains a link.
pub proof fn lemma_link_ok(t: Tree, d: int, g: Node, x: int)
    requires
        tree_ok(t),
        is_dir(t, d),
        t[d].nlinks > 0,
        t.contains_key(x),
        !is_dir(t, x),
        g.kind == FileType::Dir,
        g.nlinks == t[d].nlinks,
        entry_added(t, t.insert(d, g), d, x),
        node_ok(d, g),
    ensures
        tree_ok(t.insert(d, g).insert(x, Node { nlinks: t[x].nlinks + 1, ..t[x] })),
{
    reveal(tree_ok);
    let u = t.insert(d, g).insert(x, Node { nlinks: t[x].nlinks + 1, ..t[x] });
    assert(u[d] == g);
    assert(entry_added(t, u, d, x));
    lemma_added(t, u, d, x);
    assert forall|y: int| #[trigger] u.contains_key(y) implies node_ok(y, u[y]) && links_ok(
        u,
        y,
    ) by {
        assert(t.contains_key(y));
        assert(node_ok(y, t[y]) && links_ok(t, y));
        assert(kidset(u, y) == kidset(t, y));
        if y != x {
            assert(refset(u, y) == refset(t, y));
        }
    }
}

/// Directory `d` takes an entry for a directory that nothing names yet; both gain their links.
pub proof fn lemma_mkdir_ok(t: Tree, d: int, g: Node, x: int)
    requires
        tree_ok(t),
        is_dir(t, d),
        t[d].nlinks > 0,
        is_dir(t, x),
        x != d,
        t[x].nlinks == 0,
        g.kind == FileType::Dir,
        g.nlinks == t[d].nlinks + 1,
        entry_added(t, t.insert(d, g), d, x),
        node_ok(d, g),
    ensures
        tree_ok(t.insert(d, g).insert(x, Node { nlinks: 2, ..t[x] })),
{
    reveal(tree_ok);
    let u = t.insert(d, g).insert(x, Node { nlinks: 2, ..t[x] });
    assert(u[d] == g);
    assert(entry_added(t, u, d, x));
    assert forall|y: int| is_dir(t, y) && y != d implies #[trigger] same_dir(t, u, y) by {}
    lemma_added(t, u, d, x);
    assert(links_ok(t, x));
    assert(t.contains_key(x) && node_ok(x, t[x]));
    lemma_kids_bound(t, x);
    assert forall|y: int| #[trigger] u.contains_key(y) implies node_ok(y, u[y]) && links_ok(
        u,
        y,
    ) by {
        assert(t.contains_key(y));
        assert(node_ok(y, t[y]) && links_ok(t, y));
        if y != d {
            assert(kidset(u, y) == kidset(t, y));
        }
        if y != x {
            assert(refset(u, y) == refset(t, y));
        } else {
            assert(forall|i: int| 0 <= i < t[x].map.len() ==> #[trigger] entry_field(u[x], i)
                == entry_field(t[x], i));
            assert(node_ok(y, u[y]));
        }
    }
}

/// How many links a named file has at least.
pub proof fn lemma_named_links(t: Tree, d: int, i: int)
    requires
        tree_ok(t),
        named(t, d, i),
    ensures
        t.contains_key(entry_id(t[d], i)),
        t[d].nlinks >= 2,
        !is_dir(t, entry_id(t[d], i)) ==> t[entry_id(t[d], i)].nlinks >= 1,
        is_dir(t, entry_id(t[d], i)) ==> t[d].nlinks >= 3 && t[entry_id(t[d], i)].nlinks >= 2
            && entry_id(t[d], i) != 1,
        is_dir(t, entry_id(t[d], i)) && t[entry_id(t[d], i)].map.len() == 2
            ==> t[entry_id(t[d], i)].nlinks == 2,
{
    reveal(tree_ok);
    let x = entry_id(t[d], i);
    assert(t.contains_key(x));
    assert(links_ok(t, x) && node_ok(x, t[x]));
    assert(t.contains_key(d) && links_ok(t, d));
    assert(refset(t, x).contains((d, i)));
    if refset(t, x).len() == 0 {
        refset(t, x).lemma_len0_is_empty();
    }
    if is_dir(t, x) {
        assert(kidset(t, d).contains(i));
        if kidset(t, d).len() == 0 {
            kidset(t, d).lemma_len0_is_empty();
        }
        lemma_kids_bound(t, x);
    }
}

/// Directory `d` loses its entry `i` for a file, which loses a link.
pub proof fn lemma_unlink_ok(t: Tree, d: int, g: Node, i: int)
    requires
        tree_ok(t),
        named(t, d, i),
        !is_dir(t, entry_id(t[d], i)),
        g.kind == FileType::Dir,
        g.nlinks == t[d].nlinks,
        entry_removed(t, t.insert(d, g), d, i),
        node_ok(d, g),
    ensures
        ({
            let x = entry_id(t[d], i);
            tree_ok(t.insert(d, g).insert(x, Node { nlinks: t[x].nlinks - 1, ..t[x] }))
        }),
{
    reveal(tree_ok);
    let x = entry_id(t[d], i);
    let u = t.insert(d, g).insert(x, Node { nlinks: t[x].nlinks - 1, ..t[x] });
    lemma_named_links(t, d, i);
    assert(u[d] == g);
    assert(entry_removed(t, u, d, i));
    assert forall|y: int| #[trigger] t.contains_key(y) implies refset(t, y).finite() && kidset(
        t,
        y,
    ).finite() by {
        assert(links_ok(t, y));
    }
    lemma_removed(t, u, d, i);
    assert forall|y: int| #[trigger] u.contains_key(y) implies node_ok(y, u[y]) && links_ok(
        u,
        y,
    ) by {
        assert(t.contains_key(y));
        assert(node_ok(y, t[y]) && links_ok(t, y));
        if y != d {
            assert(kidset(u, y) == kidset(t, y));
        }
        if y != x {
            assert(refset(u, y).len() == refset(t, y).len());
        }
    }
}

/// Directory `d` loses its entry `i` for an empty directory; both lose their links.
pub proof fn lemma_rmdir_ok(t: Tree, d: int, g: Node, i: int)
    requires
        tree_ok(t),
        named(t, d, i),
        is_dir(t, entry_id(t[d], i)),
        t[entry_id(t[d], i)].map.len() == 2,
        g.kind == FileType::Dir,
        g.nlinks == t[d].nlinks - 1,
        entry_removed(t, t.insert(d, g), d, i),
        node_ok(d, g),
    ensures
        ({
            let x = entry_id(t[d], i);
            &&& x != d
            &&& tree_ok(t.insert(d, g).insert(x, Node { nlinks: 0, ..t[x] }))
        }),
{
    reveal(tree_ok);
    let x = entry_id(t[d], i);
    let u = t.insert(d, g).insert(x, Node { nlinks: 0, ..t[x] });
    lemma_named_links(t, d, i);
    assert(x != d);
    assert(u[d] == g);
    assert(entry_removed(t, u, d, i));
    assert forall|y: int| is_dir(t, y) && y != d implies #[trigger] same_dir(t, u, y) by {}
    assert forall|y: int| #[trigger] t.contains_key(y) implies refset(t, y).finite() && kidset(
        t,
        y,
    ).finite() by {
        assert(links_ok(t, y));
    }
    lemma_removed(t, u, d, i);
    assert forall|y: int| #[trigger] u.contains_key(y) implies node_ok(y, u[y]) && links_ok(
        u,
        y,
    ) by {
        assert(t.contains_key(y));
        assert(node_ok(y, t[y]) && links_ok(t, y));
        if y != d {
            assert(kidset(u, y) == kidset(t, y));
        }
        if y != x {
            assert(refset(u, y).len() == refset(t, y).len());
        } else {
            assert(forall|j: int| 0 <= j < t[x].map.len() ==> #[trigger] entry_field(u[x], j)
                == entry_field(t[x], j));
        }
    }
}

/// An entry moves from directory `d` to directory `e`; where it names a directory, the link that it
/// is worth moves along.
pub proof fn lemma_move_ok(t: Tree, d: int, i: int, gd: Node, e: int, ge: Node)
    requires
        tree_ok(t),
        named(t, d, i),
        is_dir(t, e),
        e != d,
        t[e].nlinks > 0,
        gd.kind == FileType::Dir,
        ge.kind == FileType::Dir,
        gd.nlinks == t[d].nlinks - if is_dir(t, entry_id(t[d], i)) {
            1int
        } else {
            0int
        },
        ge.nlinks == t[e].nlinks + if is_dir(t, entry_id(t[d], i)) {
            1int
        } else {
            0int
        },
        entry_added(t, t.insert(e, ge), e, entry_id(t[d], i)),
        entry_removed(t, t.insert(d, gd), d, i),
        node_ok(d, gd),
        node_ok(e, ge),
    ensures
        tree_ok(t.insert(e, ge).insert(d, gd)),
{
    reveal(tree_ok);
    let x = entry_id(t[d], i);
    let m = t.insert(e, ge);
    let u = m.insert(d, gd);
    lemma_named_links(t, d, i);
    assert forall|y: int| is_dir(t, y) && y != e implies #[trigger] same_dir(t, m, y) by {}
    lemma_added(t, m, e, x);
    assert forall|y: int| is_dir(m, y) && y != d implies #[trigger] same_dir(m, u, y) by {}
    assert(m[d] == t[d]);
    assert(u[d] == gd);
    assert(entry_removed(m, u, d, i));
    assert forall|y: int| #[trigger] m.contains_key(y) implies refset(m, y).finite() && kidset(
        m,
        y,
    ).finite() by {
        assert(t.contains_key(y));
        assert(links_ok(t, y));
        if y != x {
            assert(refset(m, y) == refset(t, y));
        }
        if y != e {
            assert(kidset(m, y) == kidset(t, y));
        }
    }
    lemma_removed(m, u, d, i);
    assert(is_dir(m, x) == is_dir(t, x));
    assert forall|y: int| #[trigger] u.contains_key(y) implies node_ok(y, u[y]) && links_ok(
        u,
        y,
    ) by {
        assert(t.contains_key(y) && m.contains_key(y));
        assert(node_ok(y, t[y]) && links_ok(t, y));
        if y != x {
            assert(refset(m, y) == refset(t, y));
            assert(refset(u, y).len() == refset(m, y).len());
        }
        if y != e {
            assert(kidset(m, y) == kidset(t, y));
        }
        if y != d {
            assert(kidset(u, y) == kidset(m, y));
        }
    }
}

/// A root directory that holds nothing.
pub proof fn lemma_root_ok(g: Node)
    requires
        node_ok(1, g),
        g.kind == FileType::Dir,
        g.map.len() == 2,
        g.nlinks == 2,
    ensures
        tree_ok(Map::<int, Node>::empty().insert(1, g)),
{
    reveal(tree_ok);
    let t = Map::<int, Node>::empty().insert(1, g);
    assert(refset(t, 1) =~= Set::<(int, int)>::empty());
    assert(kidset(t, 1) =~= Set::<int>::empty());
}

} // verus!

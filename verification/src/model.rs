//! What a mounted file system is made of, and when its parts fit together.

use vstd::prelude::*;

use crate::codec::{le32, lemma_le32_splice, splice, word32};
use crate::freemap::{count, is_lowest, lemma_count_range, lemma_count_update, unpack};
use crate::structs::{
    fresh_inode, inode_at, inode_bytes, lemma_inode_same, super_at, FileType, Inode, Super, MAGIC,
};

verus! {

/// An inode that is in memory: what it says, whether it differs from the copy on the device, and
/// how many handles refer to it.
#[verifier::ext_equal]
pub struct Slot {
    pub inode: Inode,
    pub dirty: bool,
    pub refs: nat,
}

/// The parts of a mounted file system. `owner` tells, for blocks in use, the inode that uses the
/// block and what for: `as_inode()` for the inode itself, `as_index()` for its indirect block, `k`
/// for its data block number `k`. `reliable` says that the device serves every transfer in full.
#[verifier::ext_equal]
pub struct Raw {
    pub sup: Super,
    pub sup_dirty: bool,
    pub free: Seq<bool>,
    pub free_dirty: bool,
    pub cache: Map<int, Slot>,
    pub disk: Seq<Seq<u8>>,
    pub owner: Map<int, (int, int)>,
    pub reliable: bool,
}

/// A file as its inode and blocks describe it: `map` tells on which block of the device each block
/// of the file lies, `data` is what these blocks hold.
#[verifier::ext_equal]
pub struct Node {
    pub kind: FileType,
    pub size: int,
    pub nlinks: int,
    pub indirect: int,
    pub map: Seq<int>,
    pub data: Seq<u8>,
}

/// The files of a file system, by inode number.
pub type Tree = Map<int, Node>;

/// The role of the block that holds an inode.
pub open spec fn as_inode() -> int {
    -2
}

/// The role of the block that holds the numbers of further data blocks.
pub open spec fn as_index() -> int {
    -1
}

/// The blocks of a device.
pub open spec fn chunks(contents: Seq<u8>) -> Seq<Seq<u8>> {
    Seq::new(
        contents.len() / 4096,
        |b: int| Seq::new(4096, |o: int| contents[b * 4096 + o]),
    )
}

/// The block of the device that holds block `k` of the file.
pub open spec fn blk(disk: Seq<Seq<u8>>, v: Inode, k: int) -> int {
    if k < 12 {
        v.direct[k]
    } else {
        le32(disk[v.indirect], 4 * (k - 12))
    }
}

/// The blocks of the device that hold the blocks of the file.
pub open spec fn bmap(disk: Seq<Seq<u8>>, v: Inode) -> Seq<int> {
    Seq::new(v.blocks as nat, |k: int| blk(disk, v, k))
}

/// What the blocks of `map` hold, one after the other.
pub open spec fn data_of(disk: Seq<Seq<u8>>, map: Seq<int>) -> Seq<u8> {
    Seq::new((map.len() * 4096) as nat, |p: int| disk[map[p / 4096]][p % 4096])
}

/// The file that an inode and the blocks of the device make up.
pub open spec fn node_of(disk: Seq<Seq<u8>>, v: Inode) -> Node {
    Node {
        kind: v.kind,
        size: v.size,
        nlinks: v.nlinks,
        indirect: v.indirect,
        map: bmap(disk, v),
        data: data_of(disk, bmap(disk, v)),
    }
}

/// Block `b` is used by inode `id` in role `k`.
pub open spec fn owns(r: Raw, b: int, id: int, k: int) -> bool {
    r.owner.contains_key(b) && r.owner[b] == (id, k)
}

/// Block `id` holds an inode that is in use.
pub open spec fn live(r: Raw, id: int) -> bool {
    owns(r, id, id, as_inode())
}

/// What inode `id` says: its copy in memory where there is one, else its copy on the device.
pub open spec fn rec(r: Raw, id: int) -> Inode {
    if r.cache.contains_key(id) {
        r.cache[id].inode
    } else {
        inode_at(r.disk[id], 0)
    }
}

/// The file of inode `id`.
pub open spec fn node(r: Raw, id: int) -> Node {
    node_of(r.disk, rec(r, id))
}

/// The files that the parts make up.
pub open spec fn tree(r: Raw) -> Tree {
    Map::new(|id: int| live(r, id), |id: int| node(r, id))
}

/// How many handles of each inode there are.
pub open spec fn handles(r: Raw) -> Map<int, nat> {
    Map::new(|id: int| r.cache.contains_key(id), |id: int| r.cache[id].refs)
}

/// One handle more of inode `x` can be counted.
pub open spec fn spare(r: Raw, x: int) -> bool {
    handles(r).contains_key(x) ==> handles(r)[x] < usize::MAX
}

/// One handle of `x` more.
pub open spec fn one_more(h: Map<int, nat>, x: int) -> Map<int, nat> {
    h.insert(
        x,
        if h.contains_key(x) {
            h[x] + 1
        } else {
            1
        },
    )
}

/// The parts after one handle of inode `id` more has been handed out. All handles of an inode share
/// the one copy in memory; where there is none, it is read from the device.
pub open spec fn with_handle(r: Raw, id: int) -> Raw {
    Raw {
        cache: r.cache.insert(
            id,
            if r.cache.contains_key(id) {
                Slot { refs: r.cache[id].refs + 1, ..r.cache[id] }
            } else {
                Slot { inode: inode_at(r.disk[id], 0), dirty: false, refs: 1 }
            },
        ),
        ..r
    }
}

/// The inode has a known type, and the first `n` of its blocks, and its indirect block where it
/// needs one, are its own.
pub open spec fn inode_ok(r: Raw, id: int, n: int) -> bool {
    let v = rec(r, id);
    &&& v.kind != FileType::Invalid
    &&& 0 <= n <= v.blocks <= 1036
    &&& v.direct.len() == 12
    &&& v.blocks >= 12 ==> owns(r, v.indirect, id, as_index())
    &&& forall|k: int| 0 <= k < n ==> owns(r, #[trigger] blk(r.disk, v, k), id, k)
}

/// The device holds all blocks of the file system.
pub open spec fn disk_ok(r: Raw) -> bool {
    &&& 3 <= r.sup.blocks <= 32768
    &&& r.sup.blocks <= r.disk.len()
    &&& forall|b: int| 0 <= b < r.disk.len() ==> (#[trigger] r.disk[b]).len() == 4096
}

/// The superblock counts the free blocks, which are blocks of the file system.
pub open spec fn free_ok(r: Raw) -> bool {
    &&& r.free.len() == 32768
    &&& r.sup.unused == count(r.free)
    &&& forall|b: int| 0 <= b < 32768 && #[trigger] r.free[b] ==> 3 <= b < r.sup.blocks
}

/// Blocks with a use are blocks of the file system and not free.
pub open spec fn owner_ok(r: Raw) -> bool {
    forall|b: int| #[trigger]
        r.owner.contains_key(b) ==> 1 <= b < r.sup.blocks && b != 2 && !r.free[b]
}

/// Inodes in memory are in use, have handles, and differ from the device only where they are marked.
pub open spec fn cache_ok(r: Raw) -> bool {
    forall|id: int| #[trigger]
        r.cache.contains_key(id) ==> {
            &&& live(r, id)
            &&& r.cache[id].refs >= 1
            &&& !r.cache[id].dirty ==> inode_at(r.disk[id], 0) == r.cache[id].inode
        }
}

/// What is not marked as changed is on the device.
pub open spec fn stored_ok(r: Raw) -> bool {
    &&& !r.sup_dirty ==> super_at(r.disk[0], 0) == r.sup
    &&& !r.free_dirty ==> unpack(r.disk[2]) == r.free
}

/// The parts fit together as far as one can tell without looking at the blocks of the files. Whether
/// the superblock and the free map have reached the device can be told only of a reliable one.
pub open spec fn base_ok(r: Raw) -> bool {
    &&& r.sup.magic == MAGIC
    &&& disk_ok(r)
    &&& free_ok(r)
    &&& owner_ok(r)
    &&& cache_ok(r)
    &&& r.reliable ==> stored_ok(r)
    &&& live(r, 1)
}

/// The parts fit together, except that of inode `id` only the first `n` blocks are in order.
pub open spec fn core_upto(r: Raw, id: int, n: int) -> bool {
    &&& base_ok(r)
    &&& live(r, id)
    &&& inode_ok(r, id, n)
    &&& forall|x: int| #[trigger] live(r, x) && x != id ==> inode_ok(r, x, rec(r, x).blocks)
}

/// The parts fit together: blocks in use are not free and have one use each.
#[verifier::opaque]
pub open spec fn core_ok(r: Raw) -> bool {
    &&& base_ok(r)
    &&& forall|x: int| #[trigger] live(r, x) ==> inode_ok(r, x, rec(r, x).blocks)
}

/// Writing within a block changes that block alone.
pub proof fn lemma_chunks_write(contents: Seq<u8>, b: int, off: int, bytes: Seq<u8>)
    requires
        0 <= b < contents.len() / 4096,
        0 <= off,
        off + bytes.len() <= 4096,
    ensures
        chunks(splice(contents, b * 4096 + off, bytes)) == chunks(contents).update(
            b,
            splice(chunks(contents)[b], off, bytes),
        ),
{
    let c2 = splice(contents, b * 4096 + off, bytes);
    let left = chunks(c2);
    let right = chunks(contents).update(b, splice(chunks(contents)[b], off, bytes));
    assert forall|x: int| 0 <= x < left.len() implies left[x] == right[x] by {
        assert(left[x] =~= right[x]);
    }
    assert(left =~= right);
}

/// A file does not change where the blocks that it lies on do not.
pub proof fn lemma_node_same(d1: Seq<Seq<u8>>, d2: Seq<Seq<u8>>, v: Inode)
    requires
        v.blocks >= 0,
        v.blocks >= 12 ==> d1[v.indirect] == d2[v.indirect],
        forall|k: int| 0 <= k < v.blocks ==> d2[#[trigger] blk(d1, v, k)] == d1[blk(d1, v, k)],
    ensures
        node_of(d1, v) == node_of(d2, v),
        bmap(d1, v) == bmap(d2, v),
        forall|k: int| 0 <= k < v.blocks ==> #[trigger] blk(d2, v, k) == blk(d1, v, k),
{
    assert(bmap(d1, v) =~= bmap(d2, v));
    let m = bmap(d1, v);
    assert forall|p: int| 0 <= p < m.len() * 4096 implies data_of(d1, m)[p] == data_of(
        d2,
        m,
    )[p] by {
        let k = p / 4096;
        assert(d2[blk(d1, v, k)] == d1[blk(d1, v, k)]);
    }
    assert(data_of(d1, m) =~= data_of(d2, m));
}

/// `s` differs from `r` in what concerns inode `id` alone.
pub open spec fn only(r: Raw, s: Raw, id: int) -> bool {
    &&& s.disk.len() == r.disk.len()
    &&& forall|b: int|
        r.owner.contains_key(b) && r.owner[b].0 != id ==> #[trigger] s.owner.contains_key(b)
            && s.owner[b] == r.owner[b] && s.disk[b] == r.disk[b]
    &&& forall|x: int| x != id && #[trigger] live(s, x) ==> live(r, x)
    &&& forall|x: int|
        x != id ==> (#[trigger] s.cache.contains_key(x) <==> r.cache.contains_key(x))
    &&& forall|x: int| x != id && #[trigger] s.cache.contains_key(x) ==> s.cache[x].inode
        == r.cache[x].inode
}

/// Changes that concern one inode leave every other file as it is.
pub proof fn lemma_frame(r: Raw, s: Raw, id: int)
    requires
        forall|x: int| #[trigger] live(r, x) && x != id ==> inode_ok(r, x, rec(r, x).blocks),
        only(r, s, id),
    ensures
        forall|x: int|
            #![trigger live(s, x)]
            #![trigger live(r, x)]
            x != id ==> (live(s, x) <==> live(r, x)),
        forall|x: int|
            #![trigger live(s, x)]
            #![trigger live(r, x)]
            live(r, x) && x != id ==> rec(s, x) == rec(r, x) && node(s, x) == node(r, x)
                && inode_ok(s, x, rec(s, x).blocks),
        tree(s).remove(id) == tree(r).remove(id),
        live(s, id) ==> tree(s) == tree(r).insert(id, node(s, id)),
{
    assert forall|x: int| live(r, x) && x != id implies live(s, x) && rec(s, x) == rec(r, x)
        && node(s, x) == node(r, x) && inode_ok(s, x, rec(s, x).blocks) by {
        let v = rec(r, x);
        assert(inode_ok(r, x, v.blocks));
        assert(s.owner.contains_key(x));
        assert(rec(s, x) == v);
        if v.blocks >= 12 {
            assert(s.owner.contains_key(v.indirect));
        }
        assert forall|k: int| 0 <= k < v.blocks implies s.disk[#[trigger] blk(r.disk, v, k)]
            == r.disk[blk(r.disk, v, k)] && owns(s, blk(r.disk, v, k), x, k) by {
            assert(owns(r, blk(r.disk, v, k), x, k));
            assert(s.owner.contains_key(blk(r.disk, v, k)));
        }
        lemma_node_same(r.disk, s.disk, v);
        assert forall|k: int| 0 <= k < v.blocks implies owns(
            s,
            #[trigger] blk(s.disk, v, k),
            x,
            k,
        ) by {
            assert(blk(s.disk, v, k) == blk(r.disk, v, k));
        }
    }
    assert(tree(s).remove(id) =~= tree(r).remove(id));
    if live(s, id) {
        assert(tree(s) =~= tree(r).insert(id, node(s, id)));
    }
}

/// Writing into a data block of a file changes the contents of that file there, and nothing else.
pub proof fn lemma_store_data(r: Raw, id: int, k: int, off: int, bytes: Seq<u8>)
    requires
        core_ok(r),
        live(r, id),
        0 <= k < rec(r, id).blocks,
        0 <= off,
        off + bytes.len() <= 4096,
    ensures
        ({
            let b = blk(r.disk, rec(r, id), k);
            let s = Raw { disk: r.disk.update(b, splice(r.disk[b], off, bytes)), ..r };
            let n = Node {
                data: splice(node(r, id).data, k * 4096 + off, bytes),
                ..node(r, id)
            };
            &&& 3 <= b < r.sup.blocks
            &&& core_ok(s)
            &&& rec(s, id) == rec(r, id)
            &&& node(s, id) == n
            &&& tree(s) == tree(r).insert(id, n)
        }),
{
    reveal(core_ok);
    let v = rec(r, id);
    let b = blk(r.disk, v, k);
    let s = Raw { disk: r.disk.update(b, splice(r.disk[b], off, bytes)), ..r };
    assert(inode_ok(r, id, v.blocks));
    assert(owns(r, b, id, k));
    assert(b != 1) by {
        assert(live(r, 1));
    }
    assert(only(r, s, id));
    lemma_frame(r, s, id);
    assert(rec(s, id) == v);
    assert forall|j: int| 0 <= j < v.blocks implies #[trigger] blk(s.disk, v, j) == blk(
        r.disk,
        v,
        j,
    ) by {
        assert(owns(r, blk(r.disk, v, j), id, j));
    }
    assert(bmap(s.disk, v) =~= bmap(r.disk, v));
    let m = bmap(r.disk, v);
    let n = Node { data: splice(node(r, id).data, k * 4096 + off, bytes), ..node(r, id) };
    assert forall|p: int| 0 <= p < m.len() * 4096 implies data_of(s.disk, m)[p]
        == n.data[p] by {
        let j = p / 4096;
        assert(owns(r, blk(r.disk, v, j), id, j));
    }
    assert(data_of(s.disk, m) =~= n.data);
    assert(inode_ok(s, id, v.blocks)) by {
        assert forall|j: int| 0 <= j < v.blocks implies owns(
            s,
            #[trigger] blk(s.disk, v, j),
            id,
            j,
        ) by {
            assert(owns(r, blk(r.disk, v, j), id, j));
        }
    }
    assert(cache_ok(s));
    assert(core_ok(s));
}

/// Two changes that concern one inode make one change that concerns it.
pub proof fn lemma_only_trans(r: Raw, s: Raw, t: Raw, id: int)
    requires
        only(r, s, id),
        only(s, t, id),
    ensures
        only(r, t, id),
{
    assert forall|b: int|
        r.owner.contains_key(b) && r.owner[b].0 != id implies #[trigger] t.owner.contains_key(b)
        && t.owner[b] == r.owner[b] && t.disk[b] == r.disk[b] by {
        assert(s.owner.contains_key(b));
        assert(t.owner.contains_key(b));
    }
    assert forall|x: int| x != id implies (#[trigger] t.cache.contains_key(x)
        <==> r.cache.contains_key(x)) by {
        assert(t.cache.contains_key(x) <==> s.cache.contains_key(x));
    }
    assert forall|x: int| x != id && #[trigger] t.cache.contains_key(x) implies t.cache[x].inode
        == r.cache[x].inode by {
        assert(s.cache.contains_key(x));
    }
}

/// The parts after block `b` has been taken from the free map.
pub open spec fn take_block(r: Raw, b: int) -> Raw {
    Raw {
        free: r.free.update(b, false),
        free_dirty: true,
        sup: Super { unused: r.sup.unused - 1, ..r.sup },
        sup_dirty: true,
        ..r
    }
}

/// The parts after block `b` has been given back to the free map.
pub open spec fn give_block(r: Raw, b: int) -> Raw {
    Raw {
        free: r.free.update(b, true),
        free_dirty: true,
        sup: Super { unused: r.sup.unused + 1, ..r.sup },
        sup_dirty: true,
        ..r
    }
}

/// The parts after the inode in memory has been changed.
pub open spec fn put_inode(r: Raw, id: int, v: Inode) -> Raw {
    Raw { cache: r.cache.insert(id, Slot { inode: v, dirty: true, ..r.cache[id] }), ..r }
}

/// The parts after block `k` of the file has been placed on block `b` of the device.
pub open spec fn put_block(r: Raw, id: int, k: int, b: int) -> Raw {
    let v = rec(r, id);
    if k < 12 {
        put_inode(r, id, Inode { direct: v.direct.update(k, b), ..v })
    } else {
        Raw {
            disk: r.disk.update(
                v.indirect,
                splice(r.disk[v.indirect], 4 * (k - 12), word32(b)),
            ),
            ..r
        }
    }
}

/// Taking a free block disturbs no file.
pub proof fn lemma_take(r: Raw, id: int, n: int, b: int)
    requires
        core_upto(r, id, n),
        is_lowest(r.free, b),
    ensures
        core_upto(take_block(r, b), id, n),
        3 <= b < r.sup.blocks,
        !r.owner.contains_key(b),
        only(r, take_block(r, b), id),
        node(take_block(r, b), id) == node(r, id),
{
    lemma_count_update(r.free, b, false);
    let s = take_block(r, b);
    assert(only(r, s, id));
    lemma_frame(r, s, id);
    assert(inode_ok(s, id, n)) by {
        let v = rec(r, id);
        assert forall|k: int| 0 <= k < n implies owns(s, #[trigger] blk(s.disk, v, k), id, k) by {
            assert(owns(r, blk(r.disk, v, k), id, k));
        }
    }
}

/// Placing the next block of a file on a block that has just been taken.
pub proof fn lemma_put_block(r: Raw, id: int, k: int, b: int)
    requires
        core_upto(r, id, k),
        r.cache.contains_key(id),
        0 <= k < rec(r, id).blocks,
        3 <= b < r.sup.blocks,
        !r.free[b],
        !r.owner.contains_key(b),
    ensures
        ({
            let v = rec(r, id);
            let s = Raw { owner: r.owner.insert(b, (id, k)), ..put_block(r, id, k, b) };
            let w = rec(s, id);
            &&& core_upto(s, id, k + 1)
            &&& only(r, s, id)
            &&& w == Inode { direct: w.direct, ..v }
            &&& forall|j: int| 0 <= j < k ==> #[trigger] blk(s.disk, w, j) == blk(r.disk, v, j)
            &&& blk(s.disk, w, k) == b
            &&& forall|x: int|
                0 <= x < r.disk.len() && !(v.blocks >= 12 && x == v.indirect) ==> #[trigger] s.disk[x] == r.disk[x]
        }),
{
    let v = rec(r, id);
    let s = Raw { owner: r.owner.insert(b, (id, k)), ..put_block(r, id, k, b) };
    let w = rec(s, id);
    assert(inode_ok(r, id, k));
    if k >= 12 {
        assert(owns(r, v.indirect, id, as_index()));
        lemma_le32_splice(r.disk[v.indirect], k - 12, b);
    }
    assert(only(r, s, id));
    lemma_frame(r, s, id);
    assert forall|j: int| 0 <= j < k implies #[trigger] blk(s.disk, w, j) == blk(
        r.disk,
        v,
        j,
    ) by {
        if j >= 12 {
            assert(le32(s.disk[v.indirect], 4 * (j - 12)) == le32(
                r.disk[v.indirect],
                4 * (j - 12),
            ));
        }
    }
    assert(inode_ok(s, id, k + 1)) by {
        assert forall|j: int| 0 <= j < k + 1 implies owns(
            s,
            #[trigger] blk(s.disk, w, j),
            id,
            j,
        ) by {
            if j < k {
                assert(owns(r, blk(r.disk, v, j), id, j));
            }
        }
    }
    assert(cache_ok(s)) by {
        assert forall|x: int| #[trigger] s.cache.contains_key(x) implies live(s, x)
            && s.cache[x].refs >= 1 && (!s.cache[x].dirty ==> inode_at(s.disk[x], 0)
            == s.cache[x].inode) by {
            assert(r.cache.contains_key(x));
            assert(live(r, x));
        }
    }
    assert(live(s, id));
    assert(live(s, 1)) by {
        assert(live(r, 1));
    }
}

/// Changing the size and the number of links of an inode in memory.
pub proof fn lemma_put_meta(r: Raw, id: int, w: Inode)
    requires
        core_ok(r),
        r.cache.contains_key(id),
        w == (Inode { size: w.size, nlinks: w.nlinks, ..rec(r, id) }),
    ensures
        core_ok(put_inode(r, id, w)),
        rec(put_inode(r, id, w), id) == w,
        tree(put_inode(r, id, w)) == tree(r).insert(
            id,
            Node { size: w.size, nlinks: w.nlinks, ..node(r, id) },
        ),
{
    reveal(core_ok);
    let s = put_inode(r, id, w);
    let v = rec(r, id);
    assert(live(r, id));
    assert(only(r, s, id));
    lemma_frame(r, s, id);
    assert(bmap(s.disk, w) =~= bmap(r.disk, v));
    assert(inode_ok(r, id, v.blocks));
    assert(inode_ok(s, id, w.blocks)) by {
        assert forall|k: int| 0 <= k < w.blocks implies owns(
            s,
            #[trigger] blk(s.disk, w, k),
            id,
            k,
        ) by {
            assert(owns(r, blk(r.disk, v, k), id, k));
        }
    }
    assert(cache_ok(s)) by {
        assert forall|x: int| #[trigger] s.cache.contains_key(x) implies live(s, x)
            && s.cache[x].refs >= 1 && (!s.cache[x].dirty ==> inode_at(s.disk[x], 0)
            == s.cache[x].inode) by {
            assert(r.cache.contains_key(x));
            assert(live(r, x));
        }
    }
    assert(live(s, 1)) by {
        assert(live(r, 1));
    }
}

/// The parts after a block of inode `id` has been given back and the inode changed to `w`.
pub open spec fn drop_block(r: Raw, id: int, b: int, w: Inode) -> Raw {
    give_block(Raw { owner: r.owner.remove(b), ..put_inode(r, id, w) }, b)
}

/// Giving back a block that the changed inode does not use any more.
proof fn lemma_drop(r: Raw, id: int, b: int, k: int, w: Inode)
    requires
        core_ok(r),
        r.cache.contains_key(id),
        owns(r, b, id, k),
        k != as_inode(),
        ({
            let v = rec(r, id);
            &&& w == Inode { blocks: w.blocks, indirect: w.indirect, ..v }
            &&& 0 <= w.blocks <= v.blocks
            &&& k == as_index() ==> w.blocks < 12
            &&& k >= 0 ==> k >= w.blocks
            &&& w.blocks >= 12 ==> w.indirect == v.indirect
        }),
    ensures
        3 <= b < r.sup.blocks,
        !r.free[b],
        core_ok(drop_block(r, id, b, w)),
        rec(drop_block(r, id, b, w), id) == w,
        only(r, drop_block(r, id, b, w), id),
        bmap(r.disk, w) == bmap(r.disk, rec(r, id)).take(w.blocks),
        tree(drop_block(r, id, b, w)) == tree(r).insert(id, node_of(r.disk, w)),
{
    reveal(core_ok);
    let s = drop_block(r, id, b, w);
    let v = rec(r, id);
    assert(live(r, id));
    assert(inode_ok(r, id, v.blocks));
    assert(r.owner.contains_key(b));
    assert(b != 1) by {
        assert(live(r, 1));
    }
    lemma_count_update(r.free, b, true);
    assert forall|x: int| x != id && #[trigger] live(s, x) implies live(r, x) by {
        assert(r.owner.contains_key(x));
    }
    assert(only(r, s, id));
    lemma_frame(r, s, id);
    assert(live(s, id));
    assert(live(s, 1)) by {
        assert(live(r, 1));
    }
    assert forall|j: int| 0 <= j < w.blocks implies owns(s, #[trigger] blk(s.disk, w, j), id, j)
        && blk(s.disk, w, j) == blk(r.disk, v, j) by {
        assert(owns(r, blk(r.disk, v, j), id, j));
    }
    assert(bmap(r.disk, w) =~= bmap(r.disk, v).take(w.blocks));
    assert(inode_ok(s, id, w.blocks));
    assert(cache_ok(s)) by {
        assert forall|x: int| #[trigger] s.cache.contains_key(x) implies live(s, x)
            && s.cache[x].refs >= 1 && (!s.cache[x].dirty ==> inode_at(s.disk[x], 0)
            == s.cache[x].inode) by {
            assert(r.cache.contains_key(x));
            assert(live(r, x));
        }
    }
    assert(owner_ok(s)) by {
        assert forall|x: int| #[trigger] s.owner.contains_key(x) implies 1 <= x < s.sup.blocks && x
            != 2 && !s.free[x] by {
            assert(r.owner.contains_key(x));
        }
    }
}

/// Giving back the last block of a file.
pub proof fn lemma_drop_last(r: Raw, id: int)
    requires
        core_ok(r),
        r.cache.contains_key(id),
        rec(r, id).blocks > 0,
    ensures
        ({
            let v = rec(r, id);
            let k = v.blocks - 1;
            let b = blk(r.disk, v, k);
            let f = node(r, id);
            let s = drop_block(r, id, b, Inode { blocks: k, ..v });
            &&& 3 <= b < r.sup.blocks
            &&& !r.free[b]
            &&& core_ok(s)
            &&& rec(s, id) == Inode { blocks: k, ..v }
            &&& only(r, s, id)
            &&& tree(s) == tree(r).insert(
                id,
                Node { map: f.map.take(k), data: f.data.take(k * 4096), ..f },
            )
            &&& owns(r, b, id, k)
        }),
{
    reveal(core_ok);
    let v = rec(r, id);
    let k = v.blocks - 1;
    let b = blk(r.disk, v, k);
    let f = node(r, id);
    let w = Inode { blocks: k, ..v };
    assert(live(r, id));
    assert(inode_ok(r, id, v.blocks));
    assert(owns(r, b, id, k));
    lemma_drop(r, id, b, k, w);
    assert(data_of(r.disk, f.map.take(k)) =~= f.data.take(k * 4096));
}

/// Giving back the indirect block of a file that does not need it any more.
pub proof fn lemma_drop_index(r: Raw, id: int)
    requires
        core_ok(r),
        r.cache.contains_key(id),
        rec(r, id).blocks < 12,
        owns(r, rec(r, id).indirect, id, as_index()),
    ensures
        ({
            let v = rec(r, id);
            let b = v.indirect;
            let s = drop_block(r, id, b, Inode { indirect: 0, ..v });
            &&& 3 <= b < r.sup.blocks
            &&& !r.free[b]
            &&& core_ok(s)
            &&& rec(s, id) == Inode { indirect: 0, ..v }
            &&& only(r, s, id)
            &&& tree(s) == tree(r).insert(id, Node { indirect: 0, ..node(r, id) })
        }),
{
    reveal(core_ok);
    let v = rec(r, id);
    let w = Inode { indirect: 0, ..v };
    assert(live(r, id));
    assert(inode_ok(r, id, v.blocks));
    lemma_drop(r, id, v.indirect, as_index(), w);
    assert(bmap(r.disk, w) =~= bmap(r.disk, v));
}

/// Changing what is known of copies in memory, but not what they say.
pub proof fn lemma_same_inodes(r: Raw, s: Raw)
    requires
        core_ok(r),
        s == (Raw { cache: s.cache, ..r }),
        cache_ok(s),
        forall|x: int| #[trigger] live(r, x) ==> rec(s, x) == rec(r, x),
    ensures
        core_ok(s),
        tree(s) == tree(r),
{
    reveal(core_ok);
    assert forall|x: int| #[trigger] live(s, x) implies live(r, x) && inode_ok(
        s,
        x,
        rec(s, x).blocks,
    ) && node(s, x) == node(r, x) by {
        assert(live(r, x));
        assert(inode_ok(r, x, rec(r, x).blocks));
        let v = rec(r, x);
        assert forall|k: int| 0 <= k < v.blocks implies owns(
            s,
            #[trigger] blk(s.disk, v, k),
            x,
            k,
        ) by {
            assert(owns(r, blk(r.disk, v, k), x, k));
        }
    }
    assert forall|x: int| live(r, x) implies #[trigger] live(s, x) by {}
    assert(tree(s) =~= tree(r));
    assert(live(r, 1));
}

/// Putting a copy of a file's inode into memory, or counting one handle more.
pub proof fn lemma_load(r: Raw, id: int, refs: nat)
    requires
        core_ok(r),
        live(r, id),
        refs >= 1,
    ensures
        ({
            let dirty = r.cache.contains_key(id) && r.cache[id].dirty;
            let s = Raw {
                cache: r.cache.insert(id, Slot { inode: rec(r, id), dirty, refs }),
                ..r
            };
            &&& core_ok(s)
            &&& tree(s) == tree(r)
        }),
{
    reveal(core_ok);
    let dirty = r.cache.contains_key(id) && r.cache[id].dirty;
    let s = Raw { cache: r.cache.insert(id, Slot { inode: rec(r, id), dirty, refs }), ..r };
    assert(cache_ok(s)) by {
        assert forall|x: int| #[trigger] s.cache.contains_key(x) implies live(s, x)
            && s.cache[x].refs >= 1 && (!s.cache[x].dirty ==> inode_at(s.disk[x], 0)
            == s.cache[x].inode) by {
            if x != id {
                assert(r.cache.contains_key(x));
                assert(live(r, x));
            } else if r.cache.contains_key(id) {
                assert(live(r, id));
            }
        }
    }
    lemma_same_inodes(r, s);
}

/// Taking a copy that agrees with the device out of memory.
pub proof fn lemma_unload(r: Raw, id: int)
    requires
        core_ok(r),
        r.cache.contains_key(id),
        !r.cache[id].dirty,
    ensures
        core_ok(Raw { cache: r.cache.remove(id), ..r }),
        tree(Raw { cache: r.cache.remove(id), ..r }) == tree(r),
{
    reveal(core_ok);
    let s = Raw { cache: r.cache.remove(id), ..r };
    assert(cache_ok(s)) by {
        assert forall|x: int| #[trigger] s.cache.contains_key(x) implies live(s, x)
            && s.cache[x].refs >= 1 && (!s.cache[x].dirty ==> inode_at(s.disk[x], 0)
            == s.cache[x].inode) by {
            assert(r.cache.contains_key(x));
            assert(live(r, x));
        }
    }
    lemma_same_inodes(r, s);
}

/// The parts after the inode in memory has been stored as `buf`.
pub open spec fn store_inode(r: Raw, id: int, buf: Seq<u8>) -> Raw {
    Raw {
        disk: r.disk.update(id, splice(r.disk[id], 0, buf)),
        cache: r.cache.insert(id, Slot { dirty: false, ..r.cache[id] }),
        ..r
    }
}

/// The parts after inode `id` has been written back: nothing happens unless it is marked as changed.
pub open spec fn inode_synced(r: Raw, id: int) -> Raw {
    if r.cache[id].dirty {
        store_inode(r, id, inode_bytes(r.cache[id].inode))
    } else {
        r
    }
}

/// Storing an inode changes no file.
pub proof fn lemma_store_inode(r: Raw, id: int, buf: Seq<u8>)
    requires
        core_ok(r),
        r.cache.contains_key(id),
        buf.len() == 68,
        inode_at(buf, 0) == r.cache[id].inode,
    ensures
        core_ok(store_inode(r, id, buf)),
        tree(store_inode(r, id, buf)) == tree(r),
        inode_at(store_inode(r, id, buf).disk[id], 0) == r.cache[id].inode,
        rec(store_inode(r, id, buf), id) == rec(r, id),
{
    reveal(core_ok);
    let s = store_inode(r, id, buf);
    let v = rec(r, id);
    assert(live(r, id));
    assert(inode_ok(r, id, v.blocks));
    lemma_inode_same(s.disk[id], buf);
    assert(only(r, s, id));
    lemma_frame(r, s, id);
    if v.blocks >= 12 {
        assert(owns(r, v.indirect, id, as_index()));
    }
    assert forall|k: int| 0 <= k < v.blocks implies s.disk[#[trigger] blk(r.disk, v, k)]
        == r.disk[blk(r.disk, v, k)] by {
        assert(owns(r, blk(r.disk, v, k), id, k));
    }
    lemma_node_same(r.disk, s.disk, v);
    assert(inode_ok(s, id, v.blocks)) by {
        assert forall|k: int| 0 <= k < v.blocks implies owns(
            s,
            #[trigger] blk(s.disk, v, k),
            id,
            k,
        ) by {
            assert(blk(s.disk, v, k) == blk(r.disk, v, k));
            assert(owns(r, blk(r.disk, v, k), id, k));
        }
    }
    assert(cache_ok(s)) by {
        assert forall|x: int| #[trigger] s.cache.contains_key(x) implies live(s, x)
            && s.cache[x].refs >= 1 && (!s.cache[x].dirty ==> inode_at(s.disk[x], 0)
            == s.cache[x].inode) by {
            assert(r.cache.contains_key(x));
            assert(live(r, x));
        }
    }
    assert(live(s, 1)) by {
        assert(live(r, 1));
    }
    assert(live(s, id));
    assert(tree(s) =~= tree(r)) by {
        assert(tree(r)[id] == node(r, id));
    }
}

/// A file without blocks and links.
pub open spec fn fresh_node(kind: FileType) -> Node {
    Node {
        kind,
        size: 0,
        nlinks: 0,
        indirect: 0,
        map: Seq::empty(),
        data: Seq::empty(),
    }
}

/// The parts after a file has been made on the lowest free block.
pub open spec fn new_inode(r: Raw, b: int, kind: FileType) -> Raw {
    let s = take_block(r, b);
    Raw {
        cache: s.cache.insert(b, Slot { inode: fresh_inode(kind), dirty: true, refs: 1 }),
        owner: s.owner.insert(b, (b, as_inode())),
        ..s
    }
}

/// A file that is made on a free block disturbs no other.
pub proof fn lemma_new_inode(r: Raw, b: int, kind: FileType)
    requires
        core_ok(r),
        is_lowest(r.free, b),
        kind != FileType::Invalid,
    ensures
        core_ok(new_inode(r, b, kind)),
        tree(new_inode(r, b, kind)) == tree(r).insert(b, fresh_node(kind)),
        !tree(r).contains_key(b),
        !r.cache.contains_key(b),
        3 <= b < r.sup.blocks,
{
    reveal(core_ok);
    let s = new_inode(r, b, kind);
    lemma_count_update(r.free, b, false);
    assert(!r.owner.contains_key(b));
    assert(!live(r, b));
    if r.cache.contains_key(b) {
        assert(live(r, b));
    }
    assert forall|x: int| x != b && #[trigger] live(s, x) implies live(r, x) by {}
    assert(only(r, s, b));
    lemma_frame(r, s, b);
    assert(live(s, b));
    let v = fresh_inode(kind);
    assert(rec(s, b) == v);
    assert(bmap(s.disk, v) =~= Seq::<int>::empty());
    assert(data_of(s.disk, bmap(s.disk, v)) =~= Seq::<u8>::empty());
    assert(cache_ok(s)) by {
        assert forall|x: int| #[trigger] s.cache.contains_key(x) implies live(s, x)
            && s.cache[x].refs >= 1 && (!s.cache[x].dirty ==> inode_at(s.disk[x], 0)
            == s.cache[x].inode) by {
            if x != b {
                assert(r.cache.contains_key(x));
                assert(live(r, x));
            }
        }
    }
    assert(live(s, 1)) by {
        assert(live(r, 1));
    }
    assert(inode_ok(s, b, 0));
}

/// The parts after the block of inode `id` has been given back.
pub open spec fn free_inode(r: Raw, id: int) -> Raw {
    give_block(Raw { cache: r.cache.remove(id), owner: r.owner.remove(id), ..r }, id)
}

/// Giving back the block of an inode that has no other blocks.
pub proof fn lemma_free_inode(r: Raw, id: int)
    requires
        core_ok(r),
        live(r, id),
        id != 1,
    ensures
        core_ok(free_inode(r, id)),
        tree(free_inode(r, id)) == tree(r).remove(id),
        3 <= id < r.sup.blocks,
        !r.free[id],
{
    reveal(core_ok);
    let s = free_inode(r, id);
    lemma_count_update(r.free, id, true);
    assert(r.owner.contains_key(id));
    assert forall|x: int| x != id && #[trigger] live(s, x) implies live(r, x) by {}
    assert(only(r, s, id));
    lemma_frame(r, s, id);
    assert(!live(s, id));
    assert(tree(s) =~= tree(r).remove(id));
    assert(cache_ok(s)) by {
        assert forall|x: int| #[trigger] s.cache.contains_key(x) implies live(s, x)
            && s.cache[x].refs >= 1 && (!s.cache[x].dirty ==> inode_at(s.disk[x], 0)
            == s.cache[x].inode) by {
            assert(r.cache.contains_key(x));
            assert(live(r, x));
        }
    }
    assert(live(s, 1)) by {
        assert(live(r, 1));
    }
    assert(owner_ok(s)) by {
        assert forall|x: int| #[trigger] s.owner.contains_key(x) implies 1 <= x < s.sup.blocks && x
            != 2 && !s.free[x] by {
            assert(r.owner.contains_key(x));
        }
    }
}

/// A file after block `i` has been taken out and the last one put in its place.
pub open spec fn swapped(f: Node, i: int) -> Node {
    let last = f.map.len() - 1;
    Node {
        map: f.map.update(i, f.map[last]).take(last),
        data: Seq::new(
            (last * 4096) as nat,
            |p: int|
                if p / 4096 == i {
                    f.data[last * 4096 + p % 4096]
                } else {
                    f.data[p]
                },
        ),
        ..f
    }
}

/// What a block is used for after block `i` of the file has been taken out and the last one put in
/// its place.
pub open spec fn swap_owner(r: Raw, id: int, i: int) -> Map<int, (int, int)> {
    let v = rec(r, id);
    r.owner.insert(blk(r.disk, v, v.blocks - 1), (id, i)).remove(blk(r.disk, v, i))
}

/// Taking out a block of a file and putting the last one in its place.
pub proof fn lemma_swap(r: Raw, id: int, i: int)
    requires
        core_ok(r),
        r.cache.contains_key(id),
        0 <= i < rec(r, id).blocks,
    ensures
        ({
            let v = rec(r, id);
            let b = blk(r.disk, v, i);
            let r1 = put_block(r, id, i, blk(r.disk, v, v.blocks - 1));
            let w = rec(r1, id);
            let s = give_block(
                Raw {
                    owner: swap_owner(r, id, i),
                    ..put_inode(r1, id, Inode { blocks: v.blocks - 1, ..w })
                },
                b,
            );
            &&& 3 <= b < r.sup.blocks
            &&& !r.free[b]
            &&& core_ok(s)
            &&& tree(s) == tree(r).insert(id, swapped(node(r, id), i))
            &&& v.blocks >= 12 ==> 0 <= v.indirect < r.sup.blocks
            &&& 0 <= blk(r.disk, v, v.blocks - 1) < 32768
        }),
{
    reveal(core_ok);
    let v = rec(r, id);
    let last = v.blocks - 1;
    let b = blk(r.disk, v, i);
    let c = blk(r.disk, v, last);
    let r1 = put_block(r, id, i, c);
    let w1 = rec(r1, id);
    let w = Inode { blocks: last, ..w1 };
    let s = give_block(Raw { owner: swap_owner(r, id, i), ..put_inode(r1, id, w) }, b);
    assert(live(r, id));
    assert(inode_ok(r, id, v.blocks));
    assert(owns(r, b, id, i));
    assert(owns(r, c, id, last));
    assert(b != 1 && c != 1) by {
        assert(live(r, 1));
    }
    lemma_count_update(r.free, b, true);
    if v.blocks >= 12 {
        assert(owns(r, v.indirect, id, as_index()));
    }
    if i >= 12 {
        lemma_le32_splice(r.disk[v.indirect], i - 12, c);
    }
    assert forall|x: int| x != id && #[trigger] live(s, x) implies live(r, x) by {}
    assert(only(r, s, id));
    lemma_frame(r, s, id);
    assert(live(s, id));
    assert(live(s, 1)) by {
        assert(live(r, 1));
    }
    assert(rec(s, id) == w);
    assert forall|j: int| 0 <= j < last implies #[trigger] blk(s.disk, w, j) == if j == i {
        c
    } else {
        blk(r.disk, v, j)
    } by {
        if j >= 12 {
            if i >= 12 && j != i {
                assert(le32(s.disk[v.indirect], 4 * (j - 12)) == le32(
                    r.disk[v.indirect],
                    4 * (j - 12),
                ));
            }
        }
    }
    assert(inode_ok(s, id, last)) by {
        assert forall|j: int| 0 <= j < last implies owns(s, #[trigger] blk(s.disk, w, j), id, j) by {
            assert(owns(r, blk(r.disk, v, j), id, j));
        }
    }
    let f = node(r, id);
    let g = swapped(f, i);
    assert(bmap(s.disk, w) =~= g.map);
    assert forall|p: int| 0 <= p < last * 4096 implies data_of(s.disk, g.map)[p] == g.data[p] by {
        let j = p / 4096;
        assert(owns(s, blk(s.disk, w, j), id, j));
        assert(owns(r, blk(r.disk, v, j), id, j));
        assert(f.data[last * 4096 + p % 4096] == r.disk[c][p % 4096]);
    }
    assert(data_of(s.disk, g.map) =~= g.data);
    assert(cache_ok(s)) by {
        assert forall|x: int| #[trigger] s.cache.contains_key(x) implies live(s, x)
            && s.cache[x].refs >= 1 && (!s.cache[x].dirty ==> inode_at(s.disk[x], 0)
            == s.cache[x].inode) by {
            assert(r.cache.contains_key(x));
            assert(live(r, x));
        }
    }
    assert(owner_ok(s)) by {
        assert forall|x: int| #[trigger] s.owner.contains_key(x) implies 1 <= x < s.sup.blocks && x
            != 2 && !s.free[x] by {
            assert(r.owner.contains_key(x));
        }
    }
}

/// Noting that the free map is to be stored changes nothing else.
pub proof fn lemma_flag(r: Raw)
    requires
        core_ok(r),
    ensures
        core_ok(Raw { free_dirty: true, ..r }),
        tree(Raw { free_dirty: true, ..r }) == tree(r),
{
    reveal(core_ok);
    let s = Raw { free_dirty: true, ..r };
    assert(live(r, 1));
    assert forall|x: int| #[trigger] live(s, x) implies inode_ok(s, x, rec(s, x).blocks) by {
        assert(live(r, x));
        let v = rec(r, x);
        assert(inode_ok(r, x, v.blocks));
        assert forall|k: int| 0 <= k < v.blocks implies owns(
            s,
            #[trigger] blk(s.disk, v, k),
            x,
            k,
        ) by {
            assert(owns(r, blk(r.disk, v, k), x, k));
        }
    }
    assert(cache_ok(s)) by {
        assert forall|x: int| #[trigger] s.cache.contains_key(x) implies live(s, x)
            && s.cache[x].refs >= 1 && (!s.cache[x].dirty ==> inode_at(s.disk[x], 0)
            == s.cache[x].inode) by {
            assert(r.cache.contains_key(x));
            assert(live(r, x));
        }
    }
    assert(tree(s) =~= tree(r));
}

/// What is known of an inode that has a handle.
pub proof fn lemma_held(r: Raw, x: int)
    requires
        core_ok(r),
        r.cache.contains_key(x),
    ensures
        live(r, x),
        r.cache[x].refs >= 1,
        !r.cache[x].dirty ==> inode_at(r.disk[x], 0) == r.cache[x].inode,
        tree(r).contains_key(x),
        tree(r)[x] == node(r, x),
        inode_ok(r, x, rec(r, x).blocks),
        1 <= x < r.sup.blocks <= 32768,
        r.free.len() == 32768,
        !r.free[x],
        0 <= r.sup.unused,
        r.sup.unused == count(r.free),
        disk_ok(r),
{
    reveal(core_ok);
}

/// Storing the superblock and the free map changes no file.
pub proof fn lemma_store_meta(r: Raw, s: Raw)
    requires
        core_ok(r),
        s == (Raw {
            disk: s.disk,
            sup_dirty: s.sup_dirty,
            free_dirty: s.free_dirty,
            reliable: s.reliable,
            ..r
        }),
        s.disk.len() == r.disk.len(),
        forall|b: int|
            0 <= b < s.disk.len() ==> (#[trigger] s.disk[b]).len() == 4096 && (b != 0 && b != 2
                ==> s.disk[b] == r.disk[b]),
        s.reliable ==> stored_ok(s),
    ensures
        core_ok(s),
        tree(s) == tree(r),
{
    reveal(core_ok);
    assert(live(r, 1));
    assert forall|x: int| #[trigger] live(s, x) implies node(s, x) == node(r, x) && inode_ok(
        s,
        x,
        rec(s, x).blocks,
    ) by {
        assert(live(r, x));
        let v = rec(r, x);
        assert(inode_ok(r, x, v.blocks));
        assert(rec(s, x) == v);
        if v.blocks >= 12 {
            assert(owns(r, v.indirect, x, as_index()));
        }
        assert forall|k: int| 0 <= k < v.blocks implies s.disk[#[trigger] blk(r.disk, v, k)]
            == r.disk[blk(r.disk, v, k)] by {
            assert(owns(r, blk(r.disk, v, k), x, k));
        }
        lemma_node_same(r.disk, s.disk, v);
        assert forall|k: int| 0 <= k < v.blocks implies owns(
            s,
            #[trigger] blk(s.disk, v, k),
            x,
            k,
        ) by {
            assert(blk(s.disk, v, k) == blk(r.disk, v, k));
            assert(owns(r, blk(r.disk, v, k), x, k));
        }
    }
    assert(cache_ok(s)) by {
        assert forall|x: int| #[trigger] s.cache.contains_key(x) implies live(s, x)
            && s.cache[x].refs >= 1 && (!s.cache[x].dirty ==> inode_at(s.disk[x], 0)
            == s.cache[x].inode) by {
            assert(r.cache.contains_key(x));
            assert(live(r, x));
        }
    }
    assert(tree(s) =~= tree(r));
}

/// Nothing in memory is marked as changed.
pub open spec fn clean(r: Raw) -> bool {
    &&& !r.sup_dirty
    &&& !r.free_dirty
    &&& forall|x: int| #[trigger] r.cache.contains_key(x) ==> !r.cache[x].dirty
}

/// The parts of a file system that has just been mounted from a reliable device with these blocks.
pub open spec fn image(disk: Seq<Seq<u8>>, owner: Map<int, (int, int)>) -> Raw {
    Raw {
        sup: super_at(disk[0], 0),
        sup_dirty: false,
        free: unpack(disk[2]),
        free_dirty: false,
        cache: Map::empty(),
        disk,
        owner,
        reliable: true,
    }
}

/// The parts of a file system that has just been made, before its root directory has blocks.
pub open spec fn blank(r: Raw, blocks: int) -> bool {
    &&& 16 <= blocks <= 32768
    &&& r.sup.magic == MAGIC
    &&& r.sup.blocks == blocks
    &&& r.sup.unused == blocks - 3
    &&& r.sup_dirty
    &&& r.free == Seq::new(32768, |i: int| 3 <= i < blocks)
    &&& r.free_dirty
    &&& r.cache == Map::<int, Slot>::empty().insert(
        1,
        Slot { inode: fresh_inode(FileType::Dir), dirty: true, refs: 1 },
    )
    &&& r.disk.len() >= blocks
    &&& forall|b: int| 0 <= b < r.disk.len() ==> (#[trigger] r.disk[b]).len() == 4096
    &&& r.owner == Map::<int, (int, int)>::empty().insert(1, (1, as_inode()))
}

/// A file system that has just been made is in order, and its first free blocks are known.
pub proof fn lemma_blank(r: Raw, blocks: int)
    requires
        blank(r, blocks),
    ensures
        core_ok(r),
        tree(r) == Map::<int, Node>::empty().insert(1, fresh_node(FileType::Dir)),
        is_lowest(r.free, 3),
        is_lowest(r.free.update(3, false), 4),
{
    reveal(core_ok);
    lemma_count_range(32768, 3, blocks);
    let v = fresh_inode(FileType::Dir);
    assert(rec(r, 1) == v);
    assert(bmap(r.disk, v) =~= Seq::<int>::empty());
    assert(data_of(r.disk, bmap(r.disk, v)) =~= Seq::<u8>::empty());
    assert(live(r, 1));
    assert forall|x: int| live(r, x) implies x == 1 by {}
    assert(inode_ok(r, 1, 0));
    assert(tree(r) =~= Map::<int, Node>::empty().insert(1, fresh_node(FileType::Dir)));
}

/// There is a root directory.
pub proof fn lemma_root(r: Raw)
    requires
        core_ok(r),
    ensures
        live(r, 1),
{
    reveal(core_ok);
}

/// A block in use lies on the device.
pub proof fn lemma_owned(r: Raw, b: int, id: int, k: int)
    requires
        core_ok(r),
        owns(r, b, id, k),
    ensures
        1 <= b < r.sup.blocks,
        b != 2,
        !r.free[b],
{
    reveal(core_ok);
}

/// There are no more blocks than places in the free map.
pub proof fn lemma_bounds(r: Raw)
    requires
        core_ok(r),
    ensures
        3 <= r.sup.blocks <= 32768,
        r.sup.blocks <= r.disk.len(),
        r.free.len() == 32768,
        disk_ok(r),
{
    reveal(core_ok);
}

/// The superblock and the free map are marked as changed in `s` if they were in `r` or if `changed`.
pub open spec fn marks(r: Raw, s: Raw, changed: bool) -> bool {
    s.sup_dirty == (r.sup_dirty || changed) && s.free_dirty == (r.free_dirty || changed)
}

/// No inodes in memory but `x` and `y` differ.
pub open spec fn others_same(r: Raw, s: Raw, x: int, y: int) -> bool {
    forall|z: int|
        z != x && z != y ==> (#[trigger] s.cache.contains_key(z) <==> r.cache.contains_key(z)) && (
        r.cache.contains_key(z) ==> s.cache[z] == r.cache[z])
}

/// No block but those of `w` holds anything else in `s` than in `r`.
pub open spec fn keeps(r: Raw, s: Raw, w: Set<int>) -> bool {
    &&& s.disk.len() == r.disk.len()
    &&& forall|b: int|
        0 <= b < r.disk.len() && !w.contains(b) ==> #[trigger] s.disk[b] == r.disk[b]
}

/// A block that is free in `r` and in `s` holds the same in both.
pub open spec fn spared(r: Raw, s: Raw) -> bool {
    forall|b: int|
        0 <= b < r.disk.len() && b < r.free.len() && r.free[b] && s.free[b] ==> #[trigger] s.disk[b]
            == r.disk[b]
}

/// The blocks of a file besides its inode.
pub open spec fn body(f: Node) -> Set<int> {
    Set::new(|b: int| f.map.contains(b) || (f.map.len() >= 12 && b == f.indirect))
}

/// The blocks of a file are in use.
pub proof fn lemma_body(r: Raw, x: int, b: int)
    requires
        core_ok(r),
        live(r, x),
        body(node(r, x)).contains(b),
    ensures
        3 <= b < r.sup.blocks,
        !r.free[b],
        r.owner.contains_key(b),
        r.owner[b].0 == x,
{
    reveal(core_ok);
    let f = node(r, x);
    let v = rec(r, x);
    assert(inode_ok(r, x, v.blocks));
    assert(live(r, 1));
    if f.map.contains(b) {
        let k = choose|k: int| 0 <= k < f.map.len() && f.map[k] == b;
        assert(owns(r, blk(r.disk, v, k), x, k));
    } else {
        assert(owns(r, b, x, as_index()));
    }
}

/// The indirect block of a file is in use, and is no inode.
pub proof fn lemma_index(r: Raw, x: int)
    requires
        core_ok(r),
        live(r, x),
        node(r, x).map.len() >= 12,
    ensures
        3 <= node(r, x).indirect < r.sup.blocks,
        !r.free[node(r, x).indirect],
        !live(r, node(r, x).indirect),
{
    reveal(core_ok);
    assert(inode_ok(r, x, rec(r, x).blocks));
    assert(owns(r, rec(r, x).indirect, x, as_index()));
    assert(live(r, 1));
}

/// Where nothing is written but blocks of files `x` and `y` and a block that was in use, free blocks
/// keep what they hold.
pub proof fn lemma_spared(r: Raw, s: Raw, x: int, y: int, z: int)
    requires
        core_ok(s),
        tree(s).contains_key(x),
        tree(s).contains_key(y),
        !r.free[z],
        keeps(r, s, body(tree(s)[x]).union(body(tree(s)[y])).insert(z)),
    ensures
        spared(r, s),
{
    let w = body(tree(s)[x]).union(body(tree(s)[y])).insert(z);
    assert(live(s, x) && live(s, y));
    assert forall|b: int|
        0 <= b < r.disk.len() && b < r.free.len() && r.free[b]
            && s.free[b] implies #[trigger] s.disk[b] == r.disk[b] by {
        if w.contains(b) {
            if body(tree(s)[x]).contains(b) {
                lemma_body(s, x, b);
            } else if body(tree(s)[y]).contains(b) {
                lemma_body(s, y, b);
            }
        }
    }
}

} // verus!

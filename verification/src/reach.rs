//! Which files can be reached from the root directory.

use vstd::prelude::*;
use vstd::string::StringSliceAdditionalSpecFns;

use crate::calls::lemma_told;
use crate::codec::{lemma_le32_same, read_u32};
use crate::device::Device;
use crate::freemap::{count, lemma_count_update};
use crate::fs::{INodeImpl, SimpleFileSystem};
use crate::model::{
    blk, core_ok, inode_ok, lemma_bounds, lemma_owned, lemma_root, live, node, owns, rec, Tree,
};
use crate::naming::{lemma_got, lemma_third};
use crate::structs::{
    BlockId, DiskINode, FileType, INodeId, BLKBITS, BLKN_ROOT, ENTRY_SIZE, NDIRECT,
};
use crate::tree::{
    dot, dotdot, entry_id, find_entry, has_entry, is_dir, lemma_closed, lemma_tree_node, named,
    tree_ok,
};
use crate::vfs::{self, FsError, Metadata};

verus! {

/// Directory `d` has an entry for `x` besides those for itself and its parent.
pub open spec fn has_child(t: Tree, d: int, x: int) -> bool {
    exists|i: int| #[trigger] named(t, d, i) && entry_id(t[d], i) == x
}

/// Each file of `c` but the first, which is the root directory, has an entry in the one before.
#[verifier::opaque]
pub open spec fn chain(t: Tree, c: Seq<int>) -> bool {
    &&& c.len() > 0
    &&& c[0] == 1
    &&& forall|k: int| 1 <= k < c.len() ==> has_child(t, c[k - 1], #[trigger] c[k])
}

/// `x` can be reached from the root directory.
pub open spec fn reachable(t: Tree, x: int) -> bool {
    exists|c: Seq<int>| #[trigger] chain(t, c) && c.last() == x
}

/// What can be reached exists.
pub proof fn law_reachable(t: Tree, x: int)
    requires
        tree_ok(t),
        reachable(t, x),
    ensures
        t.contains_key(x),
{
    reveal(chain);
    let c = choose|c: Seq<int>| #[trigger] chain(t, c) && c.last() == x;
    if c.len() == 1 {
        reveal(tree_ok);
    } else {
        assert(has_child(t, c[c.len() - 2], c[c.len() - 1]));
        let d = c[c.len() - 2];
        let i = choose|i: int| #[trigger] named(t, d, i) && entry_id(t[d], i) == x;
        lemma_closed(t, d, i);
    }
}

/// A child of what can be reached can be reached.
proof fn lemma_child(t: Tree, d: int, x: int)
    requires
        reachable(t, d),
        has_child(t, d, x),
    ensures
        reachable(t, x),
{
    reveal(chain);
    let c = choose|c: Seq<int>| #[trigger] chain(t, c) && c.last() == d;
    let e = c.push(x);
    assert forall|k: int| 1 <= k < e.len() implies has_child(t, e[k - 1], #[trigger] e[k]) by {
        if k < c.len() {
            assert(has_child(t, c[k - 1], c[k]));
        }
    }
    assert(chain(t, e));
}

/// The root directory can be reached.
proof fn lemma_root_reachable(t: Tree)
    ensures
        reachable(t, 1),
{
    reveal(chain);
    assert(chain(t, seq![1int]));
}

/// A set that holds the root directory and all children of what it holds holds what can be reached.
proof fn lemma_all_reached(t: Tree, fresh: Seq<bool>, c: Seq<int>)
    requires
        chain(t, c),
        fresh.len() > 1,
        !fresh[1],
        forall|d: int, x: int|
            0 <= d < fresh.len() && !fresh[d] && #[trigger] has_child(t, d, x) ==> 0 <= x
                < fresh.len() && !fresh[x],
    ensures
        0 <= c.last() < fresh.len(),
        !fresh[c.last()],
    decreases c.len(),
{
    reveal(chain);
    if c.len() > 1 {
        let e = c.drop_last();
        assert forall|k: int| 1 <= k < e.len() implies has_child(t, e[k - 1], #[trigger] e[k]) by {
            assert(has_child(t, c[k - 1], c[k]));
        }
        lemma_all_reached(t, fresh, e);
        assert(has_child(t, c[c.len() - 2], c[c.len() - 1]));
        assert(e.last() == c[c.len() - 2]);
    }
}

impl<D: Device> SimpleFileSystem<D> {
    /// The inode that an entry names, without a handle of the directory.
    fn entry_target(&self, id: INodeId, v: &DiskINode, i: usize) -> (r: Result<INodeId, FsError>)
        requires
            core_ok(self.raw()),
            live(self.raw(), id as int),
            v@ == rec(self.raw(), id as int),
            i < v.blocks,
        ensures
            match r {
                Ok(x) => x == entry_id(self.tree()[id as int], i as int),
                Err(e) => e == FsError::DeviceError && !self.reliable(),
            },
    {
        let ghost r = self.raw();
        let ghost f = self.tree()[id as int];
        proof {
            reveal(core_ok);
            assert(inode_ok(r, id as int, v@.blocks));
            assert(f == node(r, id as int));
            assert(owns(r, blk(r.disk, v@, i as int), id as int, i as int));
        }
        let mut buf: Vec<u8> = vec![0u8; 4];
        let block: BlockId = if i < NDIRECT {
            v.direct[i] as usize
        } else {
            match self.load(
                v.indirect as usize,
                ENTRY_SIZE * (i - NDIRECT),
                buf.as_mut_slice(),
            ) {
                Ok(_) => {},
                Err(e) => {
                    return Err(e);
                },
            }
            proof {
                lemma_le32_same(buf@, 0, r.disk[v@.indirect], 4 * (i - 12));
            }
            read_u32(buf.as_slice(), 0) as usize
        };
        assert(block == blk(r.disk, v@, i as int));
        match self.load(block, 0, buf.as_mut_slice()) {
            Ok(_) => {},
            Err(e) => {
                return Err(e);
            },
        }
        proof {
            assert forall|k: int| 0 <= k < 4 implies #[trigger] buf@[0 + k] == f.data[i * 4096
                + k] by {
                assert(buf@[k] == r.disk[block as int][0 + k]);
                assert((i * 4096 + k) / 4096 == i);
                assert((i * 4096 + k) % 4096 == k);
            }
            lemma_le32_same(buf@, 0, f.data, i * 4096);
        }
        Ok(read_u32(buf.as_slice(), 0) as usize)
    }

    /// Whether a file can be reached from the root directory.
    pub fn is_reachable(&self, id: INodeId) -> (r: Result<bool, FsError>)
        requires
            self.wf(),
        ensures
            match r {
                Ok(b) => b == reachable(self.tree(), id as int),
                Err(e) => {
                    &&& e == FsError::DeviceError
                    &&& !self.reliable()
                    &&& !self.holds(1) || self.tree()[1].map.len() > 2
                },
            },
    {
        let ghost r0 = self.raw();
        let ghost t = self.tree();
        let mut fresh: Vec<bool> = vec![true; BLKBITS];
        let mut todo: Vec<usize> = Vec::new();
        proof {
            lemma_root(r0);
            lemma_root_reachable(t);
        }
        fresh[BLKN_ROOT] = false;
        todo.push(BLKN_ROOT);
        assert(todo@.contains(1)) by {
            assert(todo@[0] == 1);
        }
        while todo.len() > 0
            invariant
                self.wf(),
                r0 == self.raw(),
                t == self.tree(),
                fresh@.len() == 32768,
                !fresh@[1],
                self.holds(1) && t[1].map.len() <= 2 ==> forall|k: int|
                    0 <= k < todo@.len() ==> #[trigger] todo@[k] == 1,
                forall|k: int|
                    0 <= k < todo@.len() ==> #[trigger] todo@[k] < 32768
                        && !fresh@[todo@[k] as int],
                forall|y: int| 0 <= y < 32768 && !#[trigger] fresh@[y] ==> reachable(t, y),
                forall|d: int, x: int|
                    0 <= d < 32768 && !fresh@[d] && !todo@.contains(d as usize)
                        && #[trigger] has_child(t, d, x) ==> 0 <= x < 32768 && !fresh@[x],
            decreases count(fresh@) + todo@.len(),
        {
            let ghost before = todo@;
            let ghost fresh0 = fresh@;
            let d = match todo.pop() {
                Some(d) => d,
                None => {
                    return Ok(false);
                },
            };
            proof {
                assert(before[before.len() - 1] == d);
                assert(reachable(t, d as int));
                law_reachable(t, d as int);
                assert(live(r0, d as int));
            }
            let v = match self.peek(d) {
                Ok(v) => v,
                Err(e) => {
                    return Err(e);
                },
            };
            let blocks = if v.type_ == FileType::Dir {
                v.blocks as usize
            } else {
                0
            };
            proof {
                assert(t[d as int] == node(r0, d as int));
                assert forall|e: usize| #[trigger]
                    before.contains(e) && e != d implies todo@.contains(e) by {
                    let k = choose|k: int| 0 <= k < before.len() && before[k] == e;
                    assert(todo@[k] == e);
                }
            }
            let mut i: usize = 2;
            while i < blocks
                invariant
                    self.wf(),
                    r0 == self.raw(),
                    t == self.tree(),
                    fresh@.len() == 32768,
                    !fresh@[1],
                    d < 32768,
                    !fresh@[d as int],
                    2 <= i,
                    i < blocks ==> !self.holds(1) || t[1].map.len() > 2,
                    self.holds(1) && t[1].map.len() <= 2 ==> forall|k: int|
                        0 <= k < todo@.len() ==> #[trigger] todo@[k] == 1,
                    reachable(t, d as int),
                    live(r0, d as int),
                    v@ == rec(r0, d as int),
                    t[d as int] == node(r0, d as int),
                    blocks == if v.type_ == FileType::Dir {
                        v.blocks as int
                    } else {
                        0
                    },
                    forall|k: int|
                        0 <= k < todo@.len() ==> #[trigger] todo@[k] < 32768
                            && !fresh@[todo@[k] as int],
                    forall|y: int| 0 <= y < 32768 && !#[trigger] fresh@[y] ==> reachable(t, y),
                    forall|e: int, x: int|
                        0 <= e < 32768 && e != d && !fresh@[e] && !todo@.contains(e as usize)
                            && #[trigger] has_child(t, e, x) ==> 0 <= x < 32768 && !fresh@[x],
                    forall|j: int|
                        2 <= j < i && j < blocks ==> 0 <= #[trigger] entry_id(t[d as int], j)
                            < 32768 && !fresh@[entry_id(t[d as int], j)],
                    count(fresh@) + todo@.len() < count(fresh0) + before.len(),
                decreases blocks - i,
            {
                let x = match self.entry_target(d, &v, i) {
                    Ok(x) => x,
                    Err(e) => {
                        return Err(e);
                    },
                };
                proof {
                    assert(named(t, d as int, i as int));
                    assert(has_child(t, d as int, x as int));
                    lemma_closed(t, d as int, i as int);
                    lemma_child(t, d as int, x as int);
                    assert(live(r0, x as int));
                    lemma_owned(r0, x as int, x as int, -2);
                    lemma_bounds(r0);
                }
                if fresh[x] {
                    let ghost f1 = fresh@;
                    let ghost t1 = todo@;
                    fresh[x] = false;
                    todo.push(x);
                    proof {
                        lemma_count_update(f1, x as int, false);
                        assert(todo@.contains(x)) by {
                            assert(todo@[t1.len() as int] == x);
                        }
                        assert forall|e: usize| #[trigger] t1.contains(e) implies todo@.contains(
                            e,
                        ) by {
                            let k = choose|k: int| 0 <= k < t1.len() && t1[k] == e;
                            assert(todo@[k] == e);
                        }
                    }
                }
                i = i + 1;
            }
            proof {
                assert forall|e: int, x: int|
                    0 <= e < 32768 && !fresh@[e] && !todo@.contains(e as usize)
                        && #[trigger] has_child(t, e, x) implies 0 <= x < 32768 && !fresh@[x] by {
                    if e == d {
                        let j = choose|j: int| #[trigger] named(t, e, j) && entry_id(t[e], j) == x;
                        assert(entry_id(t[d as int], j) == x);
                    }
                }
            }
        }
        proof {
            assert forall|d: int, x: int|
                0 <= d < 32768 && !fresh@[d] && #[trigger] has_child(t, d, x) implies 0 <= x
                < 32768 && !fresh@[x] by {
                assert(!todo@.contains(d as usize));
            }
            if reachable(t, id as int) {
                let c = choose|c: Seq<int>| #[trigger] chain(t, c) && c.last() == id as int;
                lemma_all_reached(t, fresh@, c);
            }
        }
        Ok(id < BLKBITS && !fresh[id])
    }
}

/// What is reached, but for the root directory, is named by what is reached.
proof fn lemma_parent_reached(t: Tree, x: int)
    requires
        reachable(t, x),
        x != 1,
    ensures
        exists|e: int, i: int| #[trigger]
            named(t, e, i) && entry_id(t[e], i) == x && reachable(t, e),
{
    reveal(chain);
    let c = choose|c: Seq<int>| #[trigger] chain(t, c) && c.last() == x;
    let e = c[c.len() - 2];
    assert(has_child(t, e, c[c.len() - 1]));
    let b = c.drop_last();
    assert forall|k: int| 1 <= k < b.len() implies has_child(t, b[k - 1], #[trigger] b[k]) by {
        assert(has_child(t, c[k - 1], c[k]));
    }
    assert(chain(t, b) && b.last() == e);
    let i = choose|i: int| #[trigger] named(t, e, i) && entry_id(t[e], i) == x;
    assert(named(t, e, i) && entry_id(t[e], i) == x && reachable(t, e));
}

/// What a directory that is reached names is reached too.
proof fn lemma_entry_reached(t: Tree, d: int, name: Seq<u8>)
    requires
        tree_ok(t),
        is_dir(t, d),
        has_entry(t[d], name),
        name != dot(),
        name != dotdot(),
    ensures
        reachable(t, d) ==> reachable(t, entry_id(t[d], find_entry(t[d], name))),
{
    let i = find_entry(t[d], name);
    lemma_third(t, d, name);
    if reachable(t, d) {
        assert(has_child(t, d, entry_id(t[d], i)));
        lemma_child(t, d, entry_id(t[d], i));
    }
}

/// The root directory is reached, and what a directory that is reached names is reached too, but for
/// its names for itself and its parent.
pub proof fn law_reach_step<D: Device>(
    fs: &SimpleFileSystem<D>,
    d: INodeImpl,
    m: Metadata,
    up: Result<bool, FsError>,
    name: &str,
    x: INodeId,
    down: Result<bool, FsError>,
)
    requires
        fs.wf(),
        fs.reliable(),
        fs.holds(d.id() as int),
        call_ensures(INodeImpl::metadata::<D>, (&d, fs), Ok::<Metadata, FsError>(m)),
        m.type_ == vfs::FileType::Dir,
        call_ensures(SimpleFileSystem::<D>::is_reachable, (fs, d.id()), up),
        call_ensures(
            INodeImpl::get_file_inode_id::<D>,
            (&d, fs, name),
            Ok::<Option<INodeId>, FsError>(Some(x)),
        ),
        call_ensures(SimpleFileSystem::<D>::is_reachable, (fs, x), down),
    ensures
        up is Ok && down is Ok,
        d.id() == 1 ==> up->Ok_0,
        name.spec_bytes() != seq![46u8] && name.spec_bytes() != seq![46u8, 46u8] && up->Ok_0
            ==> down->Ok_0,
{
    let t = fs.tree();
    let dd = d.id() as int;
    lemma_told(d, fs, m);
    lemma_tree_node(t, dd);
    lemma_root_reachable(t);
    lemma_got(d, fs, name, Ok(Some(x)));
    if name.spec_bytes() != dot() && name.spec_bytes() != dotdot() {
        lemma_entry_reached(t, dd, name.spec_bytes());
    }
}

/// What is reached, but for the root directory, is named by a directory that is reached.
pub proof fn law_reach_named<D: Device>(
    fs: &SimpleFileSystem<D>,
    x: INodeId,
    r: Result<bool, FsError>,
)
    requires
        fs.wf(),
        x != 1,
        call_ensures(SimpleFileSystem::<D>::is_reachable, (fs, x), r),
        r == Ok::<bool, FsError>(true),
    ensures
        exists|e: int, i: int| #[trigger]
            named(fs.tree(), e, i) && entry_id(fs.tree()[e], i) == x && reachable(fs.tree(), e),
{
    lemma_parent_reached(fs.tree(), x as int);
}

} // verus!

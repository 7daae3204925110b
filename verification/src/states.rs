//! What calls on a file system as a whole have to do with each other.

use vstd::prelude::*;
use vstd::string::StringSliceAdditionalSpecFns;

use crate::calls::{blocks_taken, lemma_told};
use crate::device::Device;
use crate::dir::lemma_new_dir;
use crate::freemap::{count, lemma_count_len, lemma_count_lowest};
use crate::fs::{mounted_ok, INodeImpl, SimpleFileSystem};
use crate::inode::dropped;
use crate::laws::{forward, law_dots, law_drop_open, law_one_state, law_unused, walk};
use crate::model::{
    chunks, core_ok, handles, image, lemma_bounds, lemma_held, lemma_root, live, one_more, rec,
    tree, Raw,
};
use crate::naming::{lemma_got, lemma_live_owned, lemma_second};
use crate::structs::{self, lemma_inode_len, DiskINode, INodeId};
use crate::tree::{find_entry, first_entry, has_entry, lemma_tree_node, tree_ok};
use crate::vfs::{self, FsError, FsInfo, Metadata};

verus! {

/// A block that is taken was free and no lower one was; it is in use from then on, and no other block
/// changes sides.
pub proof fn law_alloc<D: Device>(
    fs: &mut SimpleFileSystem<D>,
    r: Option<usize>,
    b: usize,
    used: bool,
    used2: bool,
    i: FsInfo,
    i2: FsInfo,
)
    requires
        fs.wf(),
        call_ensures(SimpleFileSystem::<D>::alloc_block, (fs,), r),
        call_ensures(SimpleFileSystem::<D>::in_use, (&*fs, b), used),
        call_ensures(SimpleFileSystem::<D>::in_use, (&*final(fs), b), used2),
        call_ensures(SimpleFileSystem::<D>::info, (&*fs,), i),
        call_ensures(SimpleFileSystem::<D>::info, (&*final(fs),), i2),
    ensures
        r is Some <==> i.bfree > 0,
        r matches Some(x) ==> {
            &&& b < x ==> used
            &&& b == x ==> !used && used2
            &&& b != x ==> used2 == used
            &&& 3 <= x < i.blocks
            &&& i2.bfree == i.bfree - 1
        },
        r is None ==> used2 == used && i2 == i && (b < i.blocks ==> used),
        i2 == (FsInfo { bfree: i2.bfree, bavail: i2.bfree, ffree: i2.bfree, ..i }),
        final(fs).device() == old(fs).device(),
{
    let q = fs.raw();
    lemma_bounds(q);
    law_unused(q);
    lemma_count_len(q.free);
    if q.sup.unused > 0 {
        lemma_count_lowest(q.free);
    } else {
        lemma_none_free(q.free);
    }
}

/// Where the count is zero no place is set.
proof fn lemma_none_free(free: Seq<bool>)
    requires
        count(free) == 0,
    ensures
        forall|j: int| 0 <= j < free.len() ==> !free[j],
    decreases free.len(),
{
    if free.len() > 0 {
        lemma_none_free(free.drop_last());
        assert forall|j: int| 0 <= j < free.len() implies !free[j] by {
            if j < free.len() - 1 {
                assert(free.drop_last()[j] == free[j]);
            }
        }
    }
}

/// A block that is given back is in use no longer, and no other block changes sides.
pub proof fn law_free<D: Device>(
    fs: &mut SimpleFileSystem<D>,
    x: usize,
    b: usize,
    used: bool,
    used2: bool,
    i: FsInfo,
    i2: FsInfo,
)
    requires
        fs.wf(),
        fs.raw().sup.unused < 32768,
        x < 32768,
        call_ensures(SimpleFileSystem::<D>::free_block, (fs, x), ()),
        call_ensures(SimpleFileSystem::<D>::in_use, (&*fs, b), used),
        call_ensures(SimpleFileSystem::<D>::in_use, (&*final(fs), b), used2),
        call_ensures(SimpleFileSystem::<D>::info, (&*fs,), i),
        call_ensures(SimpleFileSystem::<D>::info, (&*final(fs),), i2),
    ensures
        b == x ==> !used2,
        b != x ==> used2 == used,
        i2.bfree == i.bfree + 1,
        i2 == (FsInfo { bfree: i2.bfree, bavail: i2.bfree, ffree: i2.bfree, ..i }),
        final(fs).device() == old(fs).device(),
{
    lemma_bounds(fs.raw());
    law_unused(fs.raw());
}

/// What is told of a file system: blocks of 4096 bytes, of which those are free that are not in use, and
/// as many inodes as blocks.
pub proof fn law_info<D: Device>(fs: &SimpleFileSystem<D>, i: FsInfo, b: usize, used: bool)
    requires
        fs.wf(),
        call_ensures(SimpleFileSystem::<D>::info, (fs,), i),
        call_ensures(SimpleFileSystem::<D>::in_use, (fs, b), used),
    ensures
        i.bsize == 4096 && i.frsize == 4096,
        i.namemax == 255,
        i.bavail == i.bfree && i.ffree == i.bfree,
        i.files == i.blocks,
        i.bfree < i.blocks <= 32768,
        i.bfree == count(fs.raw().free),
        fs.raw().free.len() == 32768,
        b < 32768 ==> used == !fs.raw().free[b as int],
        b < 3 ==> used,
        b >= 32768 ==> !used,
        i.blocks <= b < 32768 ==> used,
{
    let r = fs.raw();
    lemma_bounds(r);
    law_unused(r);
    lemma_root(r);
    lemma_few_free(r.free, 3, r.sup.blocks);
}

/// A map in which only places from `lo` to `hi` are set has at most so many that are set.
proof fn lemma_few_free(free: Seq<bool>, lo: int, hi: int)
    requires
        0 <= lo <= hi <= free.len(),
        forall|j: int| 0 <= j < free.len() && #[trigger] free[j] ==> lo <= j < hi,
    ensures
        count(free) <= hi - lo,
    decreases free.len(),
{
    if free.len() > 0 {
        let g = free.drop_last();
        let n = g.len() as int;
        assert forall|j: int| 0 <= j < g.len() && #[trigger] g[j] implies lo <= j < hi && (hi == n
            + 1 ==> j < n) by {
            assert(g[j] == free[j]);
        }
        if hi == n + 1 {
            if lo <= n {
                lemma_few_free(g, lo, n);
            } else {
                assert(!free[n]) by {
                    if free[n] {
                        assert(lo <= n);
                    }
                }
                lemma_few_free(g, n, n);
            }
        } else {
            assert(!free[n]);
            lemma_few_free(g, lo, hi);
        }
    }
}

/// A file system that has just been made has as many blocks as the space holds, up to the number that
/// the free map has places for. Five are in use: superblock, root directory, free map, and the two
/// entries of the root directory, which is its own parent.
pub proof fn law_new<D: Device>(
    device: D,
    space: usize,
    fs: SimpleFileSystem<D>,
    i: FsInfo,
    b: usize,
    used: bool,
    fs2: &mut SimpleFileSystem<D>,
    root: Result<INodeImpl, FsError>,
    m: Metadata,
    name: &str,
    q: Result<Option<INodeId>, FsError>,
)
    requires
        space >= 16 * 4096,
        device.reliable(),
        call_ensures(
            SimpleFileSystem::<D>::create,
            (device, space),
            Ok::<SimpleFileSystem<D>, FsError>(fs),
        ),
        call_ensures(SimpleFileSystem::<D>::info, (&fs,), i),
        call_ensures(SimpleFileSystem::<D>::in_use, (&fs, b), used),
        *fs2 == fs,
        call_ensures(SimpleFileSystem::<D>::root_inode, (fs2,), root),
        root matches Ok(h) ==> call_ensures(
            INodeImpl::metadata::<D>,
            (&h, &*final(fs2)),
            Ok::<Metadata, FsError>(m),
        ),
        root matches Ok(h) ==> call_ensures(
            INodeImpl::get_file_inode_id::<D>,
            (&h, &*final(fs2), name),
            q,
        ),
    ensures
        i.blocks * 4096 <= space,
        i.blocks <= 32768,
        i.blocks == 32768 || space < (i.blocks + 1) * 4096,
        i.bfree == i.blocks - 5,
        used <==> b < 5 || i.blocks <= b < 32768,
        root is Ok && root->Ok_0.id() == 1,
        m.type_ == vfs::FileType::Dir && m.size == 2 && m.nlinks == 2,
        name.spec_bytes() == seq![46u8] || name.spec_bytes() == seq![46u8, 46u8] ==> q == Ok::<
            Option<INodeId>,
            FsError,
        >(Some(1)),
        name.spec_bytes() != seq![46u8] && name.spec_bytes() != seq![46u8, 46u8] ==> q == Ok::<
            Option<INodeId>,
            FsError,
        >(None),
        forall|x: int| fs.tree().contains_key(x) <==> x == 1,
{
    lemma_bounds(fs.raw());
    let h = root->Ok_0;
    let g = fs.tree()[1];
    assert(handles(final(fs2).raw()).contains_key(1));
    lemma_held(final(fs2).raw(), 1);
    lemma_told(h, &*final(fs2), m);
    lemma_tree_node(final(fs2).tree(), 1);
    lemma_new_dir(g, 1, 1, seq![3int, 4int], 2, 0);
    law_dots(final(fs2).tree(), 1);
    lemma_second(g, 1, 1);
    lemma_got(h, &*final(fs2), name, q);
    if has_entry(g, name.spec_bytes()) {
        let k = find_entry(g, name.spec_bytes());
        assert(first_entry(g, name.spec_bytes(), k));
        assert(k == 0 || k == 1);
    }
}

/// Every handle of the root directory has the number 1. Taking one changes nothing that is told, and on
/// a reliable device it is always served.
pub proof fn law_root<D: Device>(
    fs: &mut SimpleFileSystem<D>,
    r: Result<INodeImpl, FsError>,
    i: FsInfo,
    i2: FsInfo,
)
    requires
        fs.wf(),
        call_ensures(SimpleFileSystem::<D>::root_inode, (fs,), r),
        call_ensures(SimpleFileSystem::<D>::info, (&*fs,), i),
        call_ensures(SimpleFileSystem::<D>::info, (&*final(fs),), i2),
    ensures
        old(fs).reliable() || old(fs).holds(1) ==> r is Ok,
        r is Err ==> r->Err_0 == FsError::DeviceError && i2 == i && final(fs).raw() == old(fs).raw(),
        r matches Ok(h) ==> {
            &&& h.id() == 1
            &&& i2 == i
            &&& final(fs).tree() == old(fs).tree()
            &&& final(fs).device() == old(fs).device()
        },
{
}

/// Writing back changes no file and nothing that is told. On a reliable device it is always served. What
/// has been written back is not written again.
pub proof fn law_sync_twice<D: Device>(
    fs: &mut SimpleFileSystem<D>,
    r: Result<(), FsError>,
    i: FsInfo,
    i2: FsInfo,
    b: usize,
    used: bool,
    used2: bool,
    fs2: &mut SimpleFileSystem<D>,
    r2: Result<(), FsError>,
)
    requires
        fs.wf(),
        call_ensures(SimpleFileSystem::<D>::sync, (fs,), r),
        call_ensures(SimpleFileSystem::<D>::info, (&*fs,), i),
        call_ensures(SimpleFileSystem::<D>::info, (&*final(fs),), i2),
        call_ensures(SimpleFileSystem::<D>::in_use, (&*fs, b), used),
        call_ensures(SimpleFileSystem::<D>::in_use, (&*final(fs), b), used2),
        *fs2 == *final(fs),
        call_ensures(SimpleFileSystem::<D>::sync, (fs2,), r2),
    ensures
        old(fs).reliable() ==> r is Ok,
        r is Err ==> r->Err_0 == FsError::DeviceError,
        r is Ok ==> {
            &&& i2 == i
            &&& used2 == used
            &&& final(fs).tree() == old(fs).tree()
            &&& final(fs).handles() == old(fs).handles()
            &&& r2 is Ok
            &&& final(fs2).device() == final(fs).device()
            &&& final(fs2).raw() == final(fs).raw()
        },
{
}

/// Writing a file back changes nothing that is told of any file. On a reliable device it is always
/// served. It touches no byte of the device but the first 68 of the block of the file's number, and
/// doing it again touches none.
pub proof fn law_sync_all_twice<D: Device>(
    h: INodeImpl,
    fs: &mut SimpleFileSystem<D>,
    r: Result<(), FsError>,
    g: INodeImpl,
    m: Metadata,
    m2: Metadata,
    p: int,
    fs2: &mut SimpleFileSystem<D>,
    r2: Result<(), FsError>,
)
    requires
        fs.wf(),
        fs.holds(h.id() as int),
        fs.holds(g.id() as int),
        call_ensures(INodeImpl::sync_all::<D>, (&h, fs), r) || call_ensures(
            INodeImpl::sync_data::<D>,
            (&h, fs),
            r,
        ),
        call_ensures(INodeImpl::metadata::<D>, (&g, &*fs), Ok::<Metadata, FsError>(m)),
        call_ensures(INodeImpl::metadata::<D>, (&g, &*final(fs)), Ok::<Metadata, FsError>(m2)),
        *fs2 == *final(fs),
        call_ensures(INodeImpl::sync_all::<D>, (&h, fs2), r2) || call_ensures(
            INodeImpl::sync_data::<D>,
            (&h, fs2),
            r2,
        ),
    ensures
        old(fs).reliable() ==> r is Ok,
        r is Err ==> r->Err_0 == FsError::DeviceError,
        r is Ok ==> {
            &&& m2 == m
            &&& final(fs).tree() == old(fs).tree()
            &&& final(fs).handles() == old(fs).handles()
            &&& final(fs).device().contents().len() == old(fs).device().contents().len()
            &&& 0 <= p < old(fs).device().contents().len() && !(h.id() * 4096 <= p < h.id() * 4096
                + 68) ==> final(fs).device().contents()[p] == old(fs).device().contents()[p]
            &&& r2 is Ok
            &&& final(fs2).device() == final(fs).device()
        },
{
    lemma_held(fs.raw(), h.id() as int);
    lemma_inode_len(rec(fs.raw(), h.id() as int));
}

/// Giving a handle back changes no file that has a name or another handle, and nothing that is told of
/// the file system. A file without either is gone, and all of its blocks are free again.
pub proof fn law_drop_handle<D: Device>(
    h: INodeImpl,
    fs: &mut SimpleFileSystem<D>,
    r: Result<(), FsError>,
    m: Metadata,
    i: FsInfo,
    i2: FsInfo,
    used: bool,
)
    requires
        fs.wf(),
        fs.reliable(),
        fs.holds(h.id() as int),
        call_ensures(INodeImpl::drop::<D>, (h, fs), r),
        call_ensures(INodeImpl::metadata::<D>, (&h, &*fs), Ok::<Metadata, FsError>(m)),
        call_ensures(SimpleFileSystem::<D>::info, (&*fs,), i),
        call_ensures(SimpleFileSystem::<D>::info, (&*final(fs),), i2),
        call_ensures(SimpleFileSystem::<D>::in_use, (&*final(fs), h.id()), used),
    ensures
        r is Ok,
        ({
            let n = old(fs).handles()[h.id() as int];
            &&& n > 1 ==> final(fs).handles() == old(fs).handles().insert(
                h.id() as int,
                (n - 1) as nat,
            )
            &&& n <= 1 ==> !final(fs).holds(h.id() as int)
            &&& n > 1 || m.nlinks > 0 ==> final(fs).tree() == old(fs).tree() && i2 == i && used
            &&& n <= 1 && m.nlinks == 0 ==> {
                &&& final(fs).tree() == old(fs).tree().remove(h.id() as int)
                &&& i2.bfree == i.bfree + 1 + blocks_taken(m)
                &&& !used
            }
        }),
{
    let id = h.id() as int;
    let f = fs.tree()[id];
    lemma_told(h, &*fs, m);
    lemma_held(fs.raw(), id);
    lemma_bounds(fs.raw());
    law_unused(fs.raw());
    lemma_count_len(fs.raw().free);
    lemma_bounds(final(fs).raw());
    law_unused(final(fs).raw());
    lemma_count_len(final(fs).raw().free);
    assert(dropped(f, 0).push(id).contains(id)) by {
        let s = dropped(f, 0).push(id);
        assert(s[s.len() - 1] == id);
    }
    if final(fs).tree().contains_key(id) {
        lemma_live_owned(final(fs).raw(), id);
    }
}

/// A file system that has been given up can be opened again from its reliable device. It is told to have
/// the same blocks, the same blocks are in use, and every path that never asks for a parent leads to
/// the same file with the same contents.
pub proof fn law_drop_then_open<D: Device>(
    fs: SimpleFileSystem<D>,
    device: Result<D, FsError>,
    r: Result<SimpleFileSystem<D>, FsError>,
    i: FsInfo,
    i2: FsInfo,
    b: usize,
    used: bool,
    used2: bool,
    path: Seq<Seq<u8>>,
)
    requires
        fs.wf(),
        fs.reliable(),
        call_ensures(SimpleFileSystem::<D>::drop, (fs,), device),
        device matches Ok(d) ==> call_ensures(SimpleFileSystem::<D>::open, (d,), r),
        call_ensures(SimpleFileSystem::<D>::info, (&fs,), i),
        call_ensures(SimpleFileSystem::<D>::in_use, (&fs, b), used),
        r matches Ok(fs2) ==> call_ensures(SimpleFileSystem::<D>::info, (&fs2,), i2),
        r matches Ok(fs2) ==> call_ensures(SimpleFileSystem::<D>::in_use, (&fs2, b), used2),
        forward(path),
    ensures
        device is Ok,
        r is Ok,
        r->Ok_0.wf(),
        i2 == i,
        used2 == used,
        ({
            let t = fs.tree();
            let u = r->Ok_0.tree();
            &&& walk(u, 1, path) == walk(t, 1, path)
            &&& walk(t, 1, path) matches Some(x) ==> t.contains_key(x) && u.contains_key(x) && t[x]
                == u[x]
        }),
{
    let disk = chunks(device->Ok_0.contents());
    let fs2 = r->Ok_0;
    let owner = fs2.raw().owner;
    lemma_image_tree(disk, owner, fs2.raw());
    law_drop_open(fs.raw(), disk, owner, path);
}

/// What an opened file system is made of is what the device holds.
proof fn lemma_image_tree(disk: Seq<Seq<u8>>, owner: Map<int, (int, int)>, s: Raw)
    requires
        s == (Raw { reliable: s.reliable, ..image(disk, owner) }),
        core_ok(s),
        tree_ok(tree(s)),
        s.reliable,
    ensures
        mounted_ok(disk, owner),
        tree(s) == tree(image(disk, owner)),
{
    assert(s == image(disk, owner));
}

/// A device without the magic number is refused, and only such a one, where it is reliable and holds as
/// much as the superblock and the free map take.
pub proof fn law_open_served<D: Device>(device: D, r: Result<SimpleFileSystem<D>, FsError>)
    requires
        device.reliable(),
        device.contents().len() >= 3 * 4096,
        call_ensures(SimpleFileSystem::<D>::open, (device,), r),
    ensures
        ({
            let c = device.contents();
            let magic = c[0] + 0x100 * c[1] + 0x1_0000 * c[2] + 0x100_0000 * c[3];
            &&& magic == 0x2f8d_be2a <==> r is Ok
            &&& r is Err ==> r->Err_0 == FsError::WrongFs
        }),
{
}

/// A handle is of the inode that was asked for. It is counted, and nothing else changes.
pub proof fn law_handle<D: Device>(
    fs: &mut SimpleFileSystem<D>,
    id: INodeId,
    h: INodeImpl,
    n: INodeId,
    x: INodeId,
    held: bool,
    held2: bool,
    v: DiskINode,
    m: Metadata,
)
    requires
        fs.wf(),
        fs.tree().contains_key(id as int),
        call_ensures(SimpleFileSystem::<D>::get_inode, (fs, id), Ok::<INodeImpl, FsError>(h)),
        call_ensures(INodeImpl::number, (&h,), n),
        call_ensures(SimpleFileSystem::<D>::is_held, (&*fs, x), held),
        call_ensures(SimpleFileSystem::<D>::is_held, (&*final(fs), x), held2),
        call_ensures(SimpleFileSystem::<D>::disk_inode, (&*final(fs), id), v),
        call_ensures(INodeImpl::metadata::<D>, (&h, &*final(fs)), Ok::<Metadata, FsError>(m)),
    ensures
        h.id() == id && n == id,
        held2 == (held || x == id),
        final(fs).handles()[id as int] == 1 + if old(fs).holds(id as int) {
            old(fs).handles()[id as int]
        } else {
            0
        },
        x != id && held ==> final(fs).handles()[x as int] == old(fs).handles()[x as int],
        final(fs).tree() == old(fs).tree(),
        final(fs).device() == old(fs).device(),
        m.inode == id,
        v.nlinks == m.nlinks,
        v.blocks == m.blocks,
        v.size == if m.type_ == vfs::FileType::Dir {
            m.size * 256
        } else {
            m.size as int
        },
        v.type_ == structs::FileType::Dir <==> m.type_ == vfs::FileType::Dir,
        v.type_ == structs::FileType::File <==> m.type_ == vfs::FileType::File,
        v.type_ == structs::FileType::SymLink <==> m.type_ == vfs::FileType::SymLink,
{
    let r = fs.raw();
    let s = final(fs).raw();
    assert(live(r, id as int));
    law_one_state(r, id as int);
    assert(one_more(handles(r), id as int).contains_key(id as int));
    lemma_held(s, id as int);
    lemma_told(h, &*final(fs), m);
    lemma_tree_node(final(fs).tree(), id as int);
}

/// Making or opening a file system fails only with the device, but for what is refused.
pub proof fn law_mount_failed<D: Device>(
    device: D,
    space: usize,
    r: Result<SimpleFileSystem<D>, FsError>,
    q: Result<SimpleFileSystem<D>, FsError>,
)
    requires
        call_ensures(SimpleFileSystem::<D>::create, (device, space), r),
        call_ensures(SimpleFileSystem::<D>::open, (device,), q),
    ensures
        r is Err ==> r->Err_0 == FsError::DeviceError && !device.reliable(),
        q is Err ==> q->Err_0 == FsError::DeviceError || q->Err_0 == FsError::WrongFs,
        ({
            let c = device.contents();
            let magic = c[0] + 0x100 * c[1] + 0x1_0000 * c[2] + 0x100_0000 * c[3];
            &&& q is Ok ==> magic == 0x2f8d_be2a && c.len() >= 3 * 4096
            &&& q is Err && q->Err_0 == FsError::WrongFs ==> magic != 0x2f8d_be2a
        }),
{
}

} // verus!

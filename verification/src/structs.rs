//! On-disk structures.

use vstd::prelude::*;

use crate::codec::{
    le16, le32, lemma_le32_same, lemma_word16, lemma_word32, push_u16, push_u32, read_u16, read_u32,
    word16, word32,
};
use crate::names::{Str256, Str32};

verus! {

/// Number of a block on the device.
pub type BlockId = usize;

/// An inode is named by the block that holds it.
pub type INodeId = BlockId;

/// magic number of the file system
pub const MAGIC: u32 = 0x2f8dbe2a;

/// size of a block
pub const BLKSIZE: usize = 4096;

/// number of direct blocks in an inode
pub const NDIRECT: usize = 12;

/// default information string
pub const DEFAULT_INFO: &'static str = "simple file system";

/// max length of a file name
pub const MAX_FNAME_LEN: usize = 255;

/// max file size (128M)
pub const MAX_FILE_SIZE: usize = 0x800_0000;

/// block the superblock lives in
pub const BLKN_SUPER: BlockId = 0;

/// location of the root directory's inode
pub const BLKN_ROOT: BlockId = 1;

/// block of the free map
pub const BLKN_FREEMAP: BlockId = 2;

/// number of bits in a block
pub const BLKBITS: usize = 32768;

/// size of an entry of the indirect block
pub const ENTRY_SIZE: usize = 4;

/// size of a directory entry as counted in an inode's size field
pub const DIRENT_SIZE: usize = 256;

/// number of blocks that an inode can address
pub const MAX_BLOCKS: usize = 1036;

/// encoded length of an inode
pub const INODE_LEN: usize = 68;

/// encoded length of a superblock
pub const SUPER_LEN: usize = 44;

/// encoded length of a directory entry
pub const DIRENT_LEN: usize = 260;

/// Type of an inode on disk.
#[derive(Debug, Copy, Clone, PartialEq, Eq, Structural)]
pub enum FileType {
    Invalid,
    File,
    Dir,
    SymLink,
}

/// The number that stands for a file type on disk.
pub open spec fn tag_of(t: FileType) -> int {
    match t {
        FileType::Invalid => 0,
        FileType::File => 1,
        FileType::Dir => 2,
        FileType::SymLink => 3,
    }
}

/// The file type that a number on disk stands for.
pub open spec fn type_of_tag(tag: int) -> FileType {
    if tag == 1 {
        FileType::File
    } else if tag == 2 {
        FileType::Dir
    } else if tag == 3 {
        FileType::SymLink
    } else {
        FileType::Invalid
    }
}

impl FileType {
    /// The number that stands for the type on disk.
    pub fn tag(self) -> (tag: u16)
        ensures
            tag == tag_of(self),
    {
        match self {
            FileType::Invalid => 0,
            FileType::File => 1,
            FileType::Dir => 2,
            FileType::SymLink => 3,
        }
    }

    /// The type that a number on disk stands for.
    pub fn from_tag(tag: u16) -> (t: FileType)
        ensures
            t == type_of_tag(tag as int),
    {
        if tag == 1 {
            FileType::File
        } else if tag == 2 {
            FileType::Dir
        } else if tag == 3 {
            FileType::SymLink
        } else {
            FileType::Invalid
        }
    }
}

/// What an inode says.
#[verifier::ext_equal]
pub struct Inode {
    pub size: int,
    pub kind: FileType,
    pub nlinks: int,
    pub blocks: int,
    pub direct: Seq<int>,
    pub indirect: int,
    pub db_indirect: int,
}

/// The inode stored at byte `p`.
pub open spec fn inode_at(s: Seq<u8>, p: int) -> Inode {
    Inode {
        size: le32(s, p),
        kind: type_of_tag(le16(s, p + 4)),
        nlinks: le16(s, p + 6),
        blocks: le32(s, p + 8),
        direct: Seq::new(12, |i: int| le32(s, p + 12 + 4 * i)),
        indirect: le32(s, p + 60),
        db_indirect: le32(s, p + 64),
    }
}

/// The stored form of a row of block numbers.
pub open spec fn words(s: Seq<int>) -> Seq<u8> {
    Seq::new(4 * s.len(), |i: int| word32(s[i / 4])[i % 4])
}

/// The stored form of an inode.
#[verifier::opaque]
pub open spec fn inode_bytes(v: Inode) -> Seq<u8> {
    word32(v.size) + word16(tag_of(v.kind)) + word16(v.nlinks) + word32(v.blocks) + words(v.direct)
        + word32(v.indirect) + word32(v.db_indirect)
}

/// The numbers of an inode fit the fields that they are stored in.
pub open spec fn fields_fit(v: Inode) -> bool {
    &&& 0 <= v.size <= u32::MAX
    &&& 0 <= v.nlinks <= u16::MAX
    &&& 0 <= v.blocks <= u32::MAX
    &&& v.direct.len() == 12
    &&& forall|i: int| 0 <= i < 12 ==> 0 <= #[trigger] v.direct[i] <= u32::MAX
    &&& 0 <= v.indirect <= u32::MAX
    &&& 0 <= v.db_indirect <= u32::MAX
}

/// An inode is read from its stored form.
pub proof fn lemma_inode_bytes(v: Inode)
    requires
        fields_fit(v),
    ensures
        inode_bytes(v).len() == INODE_LEN,
        inode_at(inode_bytes(v), 0) == v,
{
    let s = inode_bytes(v);
    let (a, b, c, d) = (
        word32(v.size),
        word16(tag_of(v.kind)),
        word16(v.nlinks),
        word32(v.blocks),
    );
    let (e, f, g) = (words(v.direct), word32(v.indirect), word32(v.db_indirect));
    assert(s == a + b + c + d + e + f + g) by {
        reveal(inode_bytes);
    }
    assert(le32(s, 0) == v.size) by {
        lemma_word32(v.size);
        assert forall|i: int| 0 <= i < 4 implies #[trigger] s[0 + i] == a[0 + i] by {}
        lemma_le32_same(s, 0, a, 0);
    }
    assert(type_of_tag(le16(s, 4)) == v.kind) by {
        lemma_word16(tag_of(v.kind));
        assert(s[4] == b[0] && s[5] == b[1]);
    }
    assert(le16(s, 6) == v.nlinks) by {
        lemma_word16(v.nlinks);
        assert(s[6] == c[0] && s[7] == c[1]);
    }
    assert(le32(s, 8) == v.blocks) by {
        lemma_word32(v.blocks);
        assert forall|i: int| 0 <= i < 4 implies #[trigger] s[8 + i] == d[0 + i] by {}
        lemma_le32_same(s, 8, d, 0);
    }
    assert forall|k: int| 0 <= k < 12 implies #[trigger] le32(s, 12 + 4 * k) == v.direct[k] by {
        let w = word32(v.direct[k]);
        lemma_word32(v.direct[k]);
        assert forall|i: int| 0 <= i < 4 implies #[trigger] s[12 + 4 * k + i] == w[0 + i] by {
            assert(s[12 + 4 * k + i] == e[4 * k + i]);
            assert((4 * k + i) / 4 == k && (4 * k + i) % 4 == i);
        }
        lemma_le32_same(s, 12 + 4 * k, w, 0);
    }
    assert(le32(s, 60) == v.indirect) by {
        lemma_word32(v.indirect);
        assert forall|i: int| 0 <= i < 4 implies #[trigger] s[60 + i] == f[0 + i] by {}
        lemma_le32_same(s, 60, f, 0);
    }
    assert(le32(s, 64) == v.db_indirect) by {
        lemma_word32(v.db_indirect);
        assert forall|i: int| 0 <= i < 4 implies #[trigger] s[64 + i] == g[0 + i] by {}
        lemma_le32_same(s, 64, g, 0);
    }
    assert(inode_at(s, 0).direct =~= v.direct);
}

/// How long the stored form of an inode is.
pub proof fn lemma_inode_len(v: Inode)
    requires
        v.direct.len() == 12,
    ensures
        inode_bytes(v).len() == INODE_LEN,
{
    reveal(inode_bytes);
}

/// An inode depends on the bytes that it is stored in alone.
pub proof fn lemma_inode_same(a: Seq<u8>, b: Seq<u8>)
    requires
        forall|i: int| 0 <= i < 68 ==> #[trigger] a[i] == b[i],
    ensures
        inode_at(a, 0) == inode_at(b, 0),
{
    assert(inode_at(a, 0).direct =~= inode_at(b, 0).direct);
}

/// A superblock depends on the bytes that it is stored in alone.
pub proof fn lemma_super_same(a: Seq<u8>, b: Seq<u8>)
    requires
        forall|i: int| 0 <= i < 44 ==> #[trigger] a[i] == b[i],
    ensures
        super_at(a, 0) == super_at(b, 0),
{
    assert(super_at(a, 0).info =~= super_at(b, 0).info);
}

/// inode (on disk)
#[derive(Debug, Copy, Clone)]
pub struct DiskINode {
    /// size of the file (in bytes); for a directory `DIRENT_SIZE` times the number of entries
    pub size: u32,
    /// type of the file
    pub type_: FileType,
    /// number of hard links to this file ("." and ".." are counted)
    pub nlinks: u16,
    /// number of blocks
    pub blocks: u32,
    /// direct blocks
    pub direct: [u32; 12],
    /// indirect block
    pub indirect: u32,
    /// double indirect block (not used)
    pub db_indirect: u32,
}

impl View for DiskINode {
    type V = Inode;

    open spec fn view(&self) -> Inode {
        Inode {
            size: self.size as int,
            kind: self.type_,
            nlinks: self.nlinks as int,
            blocks: self.blocks as int,
            direct: Seq::new(12, |i: int| self.direct[i] as int),
            indirect: self.indirect as int,
            db_indirect: self.db_indirect as int,
        }
    }
}

/// An inode of the given kind without blocks and links.
pub open spec fn fresh_inode(kind: FileType) -> Inode {
    Inode {
        size: 0,
        kind,
        nlinks: 0,
        blocks: 0,
        direct: Seq::new(12, |i: int| 0int),
        indirect: 0,
        db_indirect: 0,
    }
}

impl DiskINode {
    fn new(type_: FileType) -> (r: DiskINode)
        ensures
            r@ == fresh_inode(type_),
    {
        let r = DiskINode {
            size: 0,
            type_,
            nlinks: 0,
            blocks: 0,
            direct: [0u32; 12],
            indirect: 0,
            db_indirect: 0,
        };
        assert(r@ =~= fresh_inode(type_));
        r
    }

    /// The inode of a new file.
    pub fn new_file() -> (r: DiskINode)
        ensures
            r@ == fresh_inode(FileType::File),
    {
        Self::new(FileType::File)
    }

    /// The inode of a new symbolic link.
    pub fn new_symlink() -> (r: DiskINode)
        ensures
            r@ == fresh_inode(FileType::SymLink),
    {
        Self::new(FileType::SymLink)
    }

    /// The inode of a new directory.
    pub fn new_dir() -> (r: DiskINode)
        ensures
            r@ == fresh_inode(FileType::Dir),
    {
        Self::new(FileType::Dir)
    }

    /// The inode as it is stored.
    pub fn as_buf(&self) -> (buf: Vec<u8>)
        ensures
            buf@.len() == INODE_LEN,
            buf@ == inode_bytes(self@),
            inode_at(buf@, 0) == self@,
            le16(buf@, 4) == tag_of(self.type_),
    {
        let mut v: Vec<u8> = Vec::new();
        push_u32(&mut v, self.size);
        push_u16(&mut v, self.type_.tag());
        push_u16(&mut v, self.nlinks);
        push_u32(&mut v, self.blocks);
        let mut k: usize = 0;
        let ghost head = v@;
        assert(v@ =~= head + words(self@.direct.take(0)));
        while k < 12
            invariant
                k <= 12,
                v@.len() == 12 + 4 * k,
                head.len() == 12,
                v@.take(12) == head,
                v@ == head + words(self@.direct.take(k as int)),
                forall|i: int| 0 <= i < k ==> #[trigger] le32(v@, 12 + 4 * i) == self.direct[i],
            decreases 12 - k,
        {
            let ghost before = v@;
            push_u32(&mut v, self.direct[k]);
            proof {
                assert forall|j: int| 0 <= j < before.len() implies v@[j] == before[j] by {
                    assert(v@.take(before.len() as int)[j] == before[j]);
                }
                assert(v@.take(12) =~= head);
                assert(v@ =~= head + words(self@.direct.take(k + 1)));
                assert forall|i: int| 0 <= i <= k implies #[trigger] le32(v@, 12 + 4 * i)
                    == self.direct[i] by {
                    if i < k {
                        assert(le32(before, 12 + 4 * i) == self.direct[i]);
                    }
                }
            }
            k = k + 1;
        }
        let ghost body = v@;
        push_u32(&mut v, self.indirect);
        let ghost body2 = v@;
        push_u32(&mut v, self.db_indirect);
        proof {
            assert forall|j: int| 0 <= j < 60 implies v@[j] == body[j] by {
                assert(v@.take(64)[j] == body2[j]);
                assert(body2.take(60)[j] == body[j]);
            }
            assert forall|j: int| 0 <= j < 64 implies v@[j] == body2[j] by {
                assert(v@.take(64)[j] == body2[j]);
            }
            assert forall|j: int| 0 <= j < 12 implies v@[j] == head[j] by {
                assert(body.take(12)[j] == head[j]);
            }
            assert forall|i: int| 0 <= i < 12 implies #[trigger] le32(v@, 12 + 4 * i)
                == self.direct[i] by {
                assert(le32(body, 12 + 4 * i) == self.direct[i]);
            }
            assert(inode_at(v@, 0).direct =~= self@.direct);
            assert(self@.direct.take(12) =~= self@.direct);
            reveal(inode_bytes);
            assert(v@ =~= inode_bytes(self@));
        }
        v
    }

    /// The inode that the stored bytes describe.
    pub fn from_buf(buf: &[u8]) -> (r: DiskINode)
        requires
            buf@.len() == INODE_LEN,
        ensures
            r@ == inode_at(buf@, 0),
    {
        let mut direct: [u32; 12] = [0u32; 12];
        let mut k: usize = 0;
        while k < 12
            invariant
                k <= 12,
                buf@.len() == INODE_LEN,
                forall|i: int| 0 <= i < k ==> direct[i] == le32(buf@, 12 + 4 * i),
            decreases 12 - k,
        {
            direct[k] = read_u32(buf, 12 + 4 * k);
            k = k + 1;
        }
        let r = DiskINode {
            size: read_u32(buf, 0),
            type_: FileType::from_tag(read_u16(buf, 4)),
            nlinks: read_u16(buf, 6),
            blocks: read_u32(buf, 8),
            direct,
            indirect: read_u32(buf, 60),
            db_indirect: read_u32(buf, 64),
        };
        assert(r@.direct =~= inode_at(buf@, 0).direct);
        r
    }
}

/// What a superblock says.
#[verifier::ext_equal]
pub struct Super {
    pub magic: int,
    pub blocks: int,
    pub unused: int,
    pub info: Seq<u8>,
}

/// The superblock stored at byte `p`.
pub open spec fn super_at(s: Seq<u8>, p: int) -> Super {
    Super {
        magic: le32(s, p),
        blocks: le32(s, p + 4),
        unused: le32(s, p + 8),
        info: Seq::new(32, |i: int| s[p + 12 + i]),
    }
}

/// The stored form of a superblock.
#[verifier::opaque]
pub open spec fn super_bytes(v: Super) -> Seq<u8> {
    word32(v.magic) + word32(v.blocks) + word32(v.unused) + v.info
}

/// A superblock is read from its stored form.
pub proof fn lemma_super_bytes(v: Super)
    requires
        0 <= v.magic <= u32::MAX,
        0 <= v.blocks <= u32::MAX,
        0 <= v.unused <= u32::MAX,
        v.info.len() == 32,
    ensures
        super_bytes(v).len() == SUPER_LEN,
        super_at(super_bytes(v), 0) == v,
{
    let s = super_bytes(v);
    let (a, b, c) = (word32(v.magic), word32(v.blocks), word32(v.unused));
    assert(s == a + b + c + v.info) by {
        reveal(super_bytes);
    }
    lemma_word32(v.magic);
    lemma_word32(v.blocks);
    lemma_word32(v.unused);
    assert(le32(s, 0) == v.magic) by {
        assert forall|i: int| 0 <= i < 4 implies #[trigger] s[0 + i] == a[0 + i] by {}
        lemma_le32_same(s, 0, a, 0);
    }
    assert(le32(s, 4) == v.blocks) by {
        assert forall|i: int| 0 <= i < 4 implies #[trigger] s[4 + i] == b[0 + i] by {}
        lemma_le32_same(s, 4, b, 0);
    }
    assert(le32(s, 8) == v.unused) by {
        assert forall|i: int| 0 <= i < 4 implies #[trigger] s[8 + i] == c[0 + i] by {}
        lemma_le32_same(s, 8, c, 0);
    }
    assert(super_at(s, 0).info =~= v.info);
}

/// On-disk superblock
#[derive(Copy, Clone)]
pub struct SuperBlock {
    /// magic number, `MAGIC`
    pub magic: u32,
    /// number of blocks in the file system
    pub blocks: u32,
    /// number of unused blocks in the file system
    pub unused_blocks: u32,
    /// information about the file system
    pub info: Str32,
}

impl View for SuperBlock {
    type V = Super;

    open spec fn view(&self) -> Super {
        Super {
            magic: self.magic as int,
            blocks: self.blocks as int,
            unused: self.unused_blocks as int,
            info: self.info.0@,
        }
    }
}

impl SuperBlock {
    /// Whether this is a superblock of this file system.
    pub fn check(&self) -> (ok: bool)
        ensures
            ok == (self@.magic == MAGIC),
    {
        self.magic == MAGIC
    }

    /// The superblock as it is stored.
    pub fn as_buf(&self) -> (buf: Vec<u8>)
        ensures
            buf@.len() == SUPER_LEN,
            buf@ == super_bytes(self@),
            super_at(buf@, 0) == self@,
    {
        let mut v: Vec<u8> = Vec::new();
        push_u32(&mut v, self.magic);
        let ghost v1 = v@;
        push_u32(&mut v, self.blocks);
        let ghost v2 = v@;
        push_u32(&mut v, self.unused_blocks);
        let ghost head = v@;
        proof {
            assert forall|j: int| 0 <= j < 4 implies head[j] == v1[j] by {
                assert(head.take(8)[j] == v2[j]);
                assert(v2.take(4)[j] == v1[j]);
            }
            assert forall|j: int| 0 <= j < 8 implies head[j] == v2[j] by {
                assert(head.take(8)[j] == v2[j]);
            }
        }
        let mut k: usize = 0;
        while k < 32
            invariant
                k <= 32,
                head.len() == 12,
                v@.len() == 12 + k,
                forall|j: int| 0 <= j < 12 ==> v@[j] == head[j],
                forall|j: int| 0 <= j < k ==> v@[12 + j] == self.info.0[j],
            decreases 32 - k,
        {
            v.push(self.info.0[k]);
            k = k + 1;
        }
        assert(super_at(v@, 0).info =~= self.info.0@);
        assert(head =~= word32(self@.magic) + word32(self@.blocks) + word32(self@.unused));
        proof {
            reveal(super_bytes);
            assert(v@ =~= super_bytes(self@));
        }
        v
    }

    /// The superblock that the stored bytes describe.
    pub fn from_buf(buf: &[u8]) -> (r: SuperBlock)
        requires
            buf@.len() == SUPER_LEN,
        ensures
            r@ == super_at(buf@, 0),
    {
        let mut info: [u8; 32] = [0u8; 32];
        let mut k: usize = 0;
        while k < 32
            invariant
                k <= 32,
                buf@.len() == SUPER_LEN,
                forall|j: int| 0 <= j < k ==> info[j] == buf@[12 + j],
            decreases 32 - k,
        {
            info[k] = buf[12 + k];
            k = k + 1;
        }
        let r = SuperBlock {
            magic: read_u32(buf, 0),
            blocks: read_u32(buf, 4),
            unused_blocks: read_u32(buf, 8),
            info: Str32(info),
        };
        assert(r@.info =~= super_at(buf@, 0).info);
        r
    }
}

/// file entry (on disk)
#[derive(Copy, Clone)]
pub struct DiskEntry {
    /// inode number
    pub id: u32,
    /// file name
    pub name: Str256,
}

impl DiskEntry {
    /// The entry as it is stored.
    pub fn as_buf(&self) -> (buf: Vec<u8>)
        ensures
            buf@.len() == DIRENT_LEN,
            buf@ == word32(self.id as int) + self.name.0@,
            le32(buf@, 0) == self.id,
            buf@.subrange(4, 260) == self.name.0@,
    {
        let mut v: Vec<u8> = Vec::new();
        push_u32(&mut v, self.id);
        let ghost head = v@;
        let mut k: usize = 0;
        while k < 256
            invariant
                k <= 256,
                head.len() == 4,
                v@.len() == 4 + k,
                forall|j: int| 0 <= j < 4 ==> v@[j] == head[j],
                forall|j: int| 0 <= j < k ==> v@[4 + j] == self.name.0[j],
            decreases 256 - k,
        {
            v.push(self.name.0[k]);
            k = k + 1;
        }
        assert(v@.subrange(4, 260) =~= self.name.0@);
        assert(v@ =~= word32(self.id as int) + self.name.0@) by {
            assert(head =~= Seq::<u8>::empty() + word32(self.id as int));
        }
        v
    }

    /// The entry that the stored bytes describe.
    pub fn from_buf(buf: &[u8]) -> (r: DiskEntry)
        requires
            buf@.len() == DIRENT_LEN,
        ensures
            r.id == le32(buf@, 0),
            r.name.0@ == buf@.subrange(4, 260),
    {
        let mut name: [u8; 256] = [0u8; 256];
        let mut k: usize = 0;
        while k < 256
            invariant
                k <= 256,
                buf@.len() == DIRENT_LEN,
                forall|j: int| 0 <= j < k ==> name[j] == buf@[4 + j],
            decreases 256 - k,
        {
            name[k] = buf[4 + k];
            k = k + 1;
        }
        let r = DiskEntry { id: read_u32(buf, 0), name: Str256(name) };
        assert(r.name.0@ =~= buf@.subrange(4, 260));
        r
    }
}

/// An inode is read back from its stored form, field by field. The form starts with the size, the type,
/// the number of links and the number of blocks, least significant bytes first.
pub proof fn law_inode_stored(v: DiskINode, buf: Vec<u8>, bytes: &[u8], w: DiskINode, k: int)
    requires
        call_ensures(DiskINode::as_buf, (&v,), buf),
        bytes@ == buf@,
        call_ensures(DiskINode::from_buf, (bytes,), w),
        0 <= k < 12,
    ensures
        w.size == v.size && w.type_ == v.type_ && w.nlinks == v.nlinks && w.blocks == v.blocks,
        w.direct[k] == v.direct[k],
        w.indirect == v.indirect && w.db_indirect == v.db_indirect,
        buf@.len() == 68,
        buf@[0] + 0x100 * buf@[1] + 0x1_0000 * buf@[2] + 0x100_0000 * buf@[3] == v.size,
        buf@[4] + 0x100 * buf@[5] == match v.type_ {
            FileType::Invalid => 0int,
            FileType::File => 1,
            FileType::Dir => 2,
            FileType::SymLink => 3,
        },
        buf@[6] + 0x100 * buf@[7] == v.nlinks,
        buf@[8] + 0x100 * buf@[9] + 0x1_0000 * buf@[10] + 0x100_0000 * buf@[11] == v.blocks,
        buf@[60] + 0x100 * buf@[61] + 0x1_0000 * buf@[62] + 0x100_0000 * buf@[63] == v.indirect,
{
    assert(w@ == v@);
    assert(w@.direct[k] == v@.direct[k]);
    assert(inode_at(buf@, 0).size == v.size);
    assert(inode_at(buf@, 0).nlinks == v.nlinks);
    assert(inode_at(buf@, 0).blocks == v.blocks);
    assert(inode_at(buf@, 0).indirect == v.indirect);
}

/// A superblock is read back from its stored form, field by field, and is one of this file system if and
/// only if it has the magic number.
pub proof fn law_super_stored(
    v: SuperBlock,
    buf: Vec<u8>,
    bytes: &[u8],
    w: SuperBlock,
    ok: bool,
    k: int,
)
    requires
        call_ensures(SuperBlock::as_buf, (&v,), buf),
        bytes@ == buf@,
        call_ensures(SuperBlock::from_buf, (bytes,), w),
        call_ensures(SuperBlock::check, (&w,), ok),
        0 <= k < 32,
    ensures
        w.magic == v.magic && w.blocks == v.blocks && w.unused_blocks == v.unused_blocks,
        w.info.0@[k] == v.info.0@[k],
        ok <==> v.magic == 0x2f8d_be2a,
        buf@.len() == 44,
        buf@[0] + 0x100 * buf@[1] + 0x1_0000 * buf@[2] + 0x100_0000 * buf@[3] == v.magic,
        buf@[4] + 0x100 * buf@[5] + 0x1_0000 * buf@[6] + 0x100_0000 * buf@[7] == v.blocks,
        buf@[8] + 0x100 * buf@[9] + 0x1_0000 * buf@[10] + 0x100_0000 * buf@[11] == v.unused_blocks,
        buf@[12 + k] == v.info.0@[k],
{
    assert(w@ == v@);
    assert(super_at(buf@, 0).magic == v.magic);
    assert(super_at(buf@, 0).blocks == v.blocks);
    assert(super_at(buf@, 0).unused == v.unused_blocks);
    assert(super_at(buf@, 0).info[k] == v.info.0@[k]);
}

/// An entry is read back from its stored form: the number of the inode, then the field of the name.
pub proof fn law_entry_stored(v: DiskEntry, buf: Vec<u8>, bytes: &[u8], w: DiskEntry, k: int)
    requires
        call_ensures(DiskEntry::as_buf, (&v,), buf),
        bytes@ == buf@,
        call_ensures(DiskEntry::from_buf, (bytes,), w),
        0 <= k < 256,
    ensures
        w.id == v.id,
        w.name.0@[k] == v.name.0@[k],
        buf@.len() == 260,
        buf@[0] + 0x100 * buf@[1] + 0x1_0000 * buf@[2] + 0x100_0000 * buf@[3] == v.id,
        buf@[4 + k] == v.name.0@[k],
{
    assert(buf@.subrange(4, 260)[k] == buf@[4 + k]);
}

/// A new inode has its type and nothing else.
pub proof fn law_new_inode(f: DiskINode, d: DiskINode, l: DiskINode, k: int)
    requires
        call_ensures(DiskINode::new_file, (), f),
        call_ensures(DiskINode::new_dir, (), d),
        call_ensures(DiskINode::new_symlink, (), l),
        0 <= k < 12,
    ensures
        f.type_ == FileType::File && d.type_ == FileType::Dir && l.type_ == FileType::SymLink,
        f.size == 0 && f.nlinks == 0 && f.blocks == 0 && f.direct[k] == 0 && f.indirect == 0,
        d.size == 0 && d.nlinks == 0 && d.blocks == 0 && d.direct[k] == 0 && d.indirect == 0,
        l.size == 0 && l.nlinks == 0 && l.blocks == 0 && l.direct[k] == 0 && l.indirect == 0,
        f.db_indirect == 0 && d.db_indirect == 0 && l.db_indirect == 0,
{
    assert(f@.direct[k] == 0 && d@.direct[k] == 0 && l@.direct[k] == 0);
}

/// A type is read back from its number. A number that stands for no type is read as none.
pub proof fn law_tags(t: FileType, tag: u16, u: FileType, n: u16, w: FileType)
    requires
        call_ensures(FileType::tag, (t,), tag),
        call_ensures(FileType::from_tag, (tag,), u),
        call_ensures(FileType::from_tag, (n,), w),
    ensures
        u == t,
        tag <= 3,
        n > 3 ==> w == FileType::Invalid,
{
}

} // verus!

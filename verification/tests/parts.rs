use simplefs::codec::{push_u16, push_u32, read_u16, read_u32};
use simplefs::dirty::Dirty;
use simplefs::names::{Str256, Str32};
use simplefs::structs::{self, DiskEntry, DiskINode, SuperBlock};
use simplefs::util::BlockIter;
use simplefs::vfs;

#[test]
fn integers_are_little_endian() {
    let mut buf = Vec::new();
    push_u16(&mut buf, 0x1234);
    push_u32(&mut buf, 0xdead_beef);
    assert_eq!(buf, [0x34, 0x12, 0xef, 0xbe, 0xad, 0xde]);
    assert_eq!(read_u16(&buf, 0), 0x1234);
    assert_eq!(read_u32(&buf, 2), 0xdead_beef);
}

#[test]
fn an_inode_is_stored_and_loaded() {
    let mut inode = DiskINode::new_symlink();
    inode.size = 70_000;
    inode.nlinks = 3;
    inode.blocks = 18;
    for i in 0..12usize {
        inode.direct[i] = 100 + i as u32;
    }
    inode.indirect = 0x0102_0304;
    inode.db_indirect = 7;
    let buf = inode.as_buf();
    assert_eq!(buf.len(), structs::INODE_LEN);
    assert_eq!(&buf[..12], &[0x70, 0x11, 1, 0, 3, 0, 3, 0, 18, 0, 0, 0]);
    assert_eq!(&buf[60..64], &[4, 3, 2, 1]);
    let again = DiskINode::from_buf(&buf);
    assert_eq!(again.size, 70_000);
    assert_eq!(again.type_, structs::FileType::SymLink);
    assert_eq!(again.nlinks, 3);
    assert_eq!(again.blocks, 18);
    assert_eq!(again.direct, inode.direct);
    assert_eq!(again.indirect, 0x0102_0304);
    assert_eq!(again.db_indirect, 7);
}

#[test]
fn new_inodes_are_empty() {
    for (inode, type_) in [
        (DiskINode::new_file(), structs::FileType::File),
        (DiskINode::new_dir(), structs::FileType::Dir),
        (DiskINode::new_symlink(), structs::FileType::SymLink),
    ] {
        assert_eq!(inode.type_, type_);
        assert_eq!((inode.size, inode.nlinks, inode.blocks, inode.indirect), (0, 0, 0, 0));
    }
}

#[test]
fn a_superblock_is_stored_and_loaded() {
    let sb = SuperBlock {
        magic: structs::MAGIC,
        blocks: 1000,
        unused_blocks: 995,
        info: Str32::from(structs::DEFAULT_INFO),
    };
    let buf = sb.as_buf();
    assert_eq!(buf.len(), structs::SUPER_LEN);
    let again = SuperBlock::from_buf(&buf);
    assert!(again.check());
    assert_eq!(again.blocks, 1000);
    assert_eq!(again.unused_blocks, 995);
    assert_eq!(&again.info.0[..19], b"simple file system\0");
    let other = SuperBlock { magic: structs::MAGIC + 1, ..sb };
    assert!(!other.check());
}

#[test]
fn an_entry_is_stored_and_loaded() {
    let entry = DiskEntry { id: 513, name: Str256::from("name") };
    let buf = entry.as_buf();
    assert_eq!(buf.len(), structs::DIRENT_LEN);
    assert_eq!(&buf[..9], &[1, 2, 0, 0, b'n', b'a', b'm', b'e', 0]);
    let again = DiskEntry::from_buf(&buf);
    assert_eq!(again.id, 513);
    assert!(again.name.is("name"));
    assert!(!again.name.is("nam"));
    assert!(!again.name.is("name\0"));
    assert_eq!(again.name.name(), "name");
}

#[test]
fn types_and_their_numbers() {
    for (type_, tag) in [
        (structs::FileType::Invalid, 0u16),
        (structs::FileType::File, 1),
        (structs::FileType::Dir, 2),
        (structs::FileType::SymLink, 3),
    ] {
        assert_eq!(type_.tag(), tag);
        assert_eq!(structs::FileType::from_tag(tag), type_);
    }
    assert_eq!(structs::FileType::from_tag(9), structs::FileType::Invalid);
    assert_eq!(vfs::FileType::from(structs::FileType::File), vfs::FileType::File);
    assert_eq!(vfs::FileType::from(structs::FileType::Dir), vfs::FileType::Dir);
    assert_eq!(vfs::FileType::from(structs::FileType::SymLink), vfs::FileType::SymLink);
}

#[test]
fn a_changed_value_is_dirty() {
    let mut value = Dirty::new(1u32);
    assert!(!value.dirty());
    *value.get_mut() = 2;
    assert!(value.dirty());
    value.sync();
    assert!(!value.dirty());
    assert_eq!(*value.get(), 2);
    assert!(Dirty::new_dirty(0u32).dirty());
}

#[test]
fn a_range_is_cut_at_block_ends() {
    let mut iter = BlockIter { begin: 0x123, end: 0x2018 };
    let mut parts = Vec::new();
    while let Some(range) = iter.next() {
        parts.push((range.block, range.begin, range.end, range.len()));
    }
    assert_eq!(parts, [(0, 0x123, 0x1000, 0xedd), (1, 0, 0x1000, 0x1000), (2, 0, 0x18, 0x18)]);
    let mut iter = BlockIter { begin: 0x1000, end: 0x2000 };
    let range = iter.next().unwrap();
    assert_eq!((range.block, range.begin, range.end), (1, 0, 0x1000));
    assert!(iter.next().is_none());
    assert!(BlockIter { begin: 5, end: 5 }.next().is_none());
    assert!(BlockIter { begin: 6, end: 5 }.next().is_none());
}

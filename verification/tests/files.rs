use simplefs::device::MemDevice;
use simplefs::fs::{INodeImpl, SimpleFileSystem};
use simplefs::vfs::{FileType, FsError, Metadata, Timespec};

type Fs = SimpleFileSystem<MemDevice>;

fn new_fs(blocks: usize) -> Fs {
    let device = MemDevice::new(vec![0xa5u8; blocks * 4096]);
    match Fs::create(device, blocks * 4096) {
        Ok(fs) => fs,
        Err(e) => panic!("cannot create: {:?}", e),
    }
}

fn root_of(fs: &mut Fs) -> INodeImpl {
    match fs.root_inode() {
        Ok(root) => root,
        Err(e) => panic!("no root: {:?}", e),
    }
}

fn make(dir: &INodeImpl, fs: &mut Fs, name: &str, type_: FileType) -> INodeImpl {
    match dir.create(fs, name, type_, 0o777) {
        Ok(inode) => inode,
        Err(e) => panic!("cannot create {}: {:?}", name, e),
    }
}

fn contents(file: &INodeImpl, fs: &Fs) -> Vec<u8> {
    let size = file.metadata(fs).unwrap().size;
    let mut buf = vec![0x5au8; size];
    assert_eq!(file.read_at(fs, 0, &mut buf), Ok(size));
    buf
}

#[test]
fn create_file() {
    let mut fs = new_fs(64);
    let root = root_of(&mut fs);
    assert_eq!(fs.info().bfree, 59);
    let file = make(&root, &mut fs, "file1", FileType::File);
    assert_eq!(file.number(), 5);
    assert_eq!(fs.info().bfree, 57);
    assert_eq!(
        file.metadata(&fs),
        Ok(Metadata {
            dev: 0,
            inode: 5,
            size: 0,
            blk_size: 4096,
            blocks: 0,
            atime: Timespec { sec: 0, nsec: 0 },
            mtime: Timespec { sec: 0, nsec: 0 },
            ctime: Timespec { sec: 0, nsec: 0 },
            type_: FileType::File,
            mode: 0o777,
            nlinks: 1,
            uid: 0,
            gid: 0,
        })
    );
}

#[test]
fn metadata_of_a_directory_counts_entries() {
    let mut fs = new_fs(64);
    let root = root_of(&mut fs);
    make(&root, &mut fs, "a", FileType::File);
    make(&root, &mut fs, "b", FileType::SymLink);
    let info = root.metadata(&fs).unwrap();
    assert_eq!(info.inode, 1);
    assert_eq!(info.size, 4);
    assert_eq!(info.blocks, 4);
    assert_eq!(info.nlinks, 2);
    assert_eq!(info.type_, FileType::Dir);
}

#[test]
fn what_is_written_is_read_back() {
    let mut fs = new_fs(64);
    let root = root_of(&mut fs);
    let file = make(&root, &mut fs, "f", FileType::File);
    assert_eq!(file.write_at(&mut fs, 0, b"abcdefgh"), Ok(8));
    assert_eq!(file.write_at(&mut fs, 2, b"XY"), Ok(2));
    let mut buf = [0u8; 5];
    assert_eq!(file.read_at(&fs, 1, &mut buf), Ok(5));
    assert_eq!(&buf, b"bXYef");
    assert_eq!(contents(&file, &fs), b"abXYefgh");
}

#[test]
fn reading_stops_at_the_end_of_the_file() {
    let mut fs = new_fs(64);
    let root = root_of(&mut fs);
    let file = make(&root, &mut fs, "f", FileType::File);
    assert_eq!(file.write_at(&mut fs, 0, b"abc"), Ok(3));
    let mut buf = [9u8; 4];
    assert_eq!(file.read_at(&fs, 1, &mut buf), Ok(2));
    assert_eq!(buf, [b'b', b'c', 9, 9]);
    assert_eq!(file.read_at(&fs, 3, &mut buf), Ok(0));
    assert_eq!(file.read_at(&fs, 100_000, &mut buf), Ok(0));
    assert_eq!(buf, [b'b', b'c', 9, 9]);
}

#[test]
fn a_gap_in_new_blocks_is_zero() {
    let mut fs = new_fs(64);
    let root = root_of(&mut fs);
    let file = make(&root, &mut fs, "f", FileType::File);
    assert_eq!(file.write_at(&mut fs, 5000, b"end"), Ok(3));
    let mut expected = vec![0u8; 5000];
    expected.extend_from_slice(b"end");
    assert_eq!(contents(&file, &fs), expected);
    assert_eq!(file.metadata(&fs).unwrap().blocks, 2);
    assert_eq!(fs.info().bfree, 55);
}

#[test]
fn a_write_may_span_blocks() {
    let mut fs = new_fs(64);
    let root = root_of(&mut fs);
    let file = make(&root, &mut fs, "f", FileType::File);
    let bytes: Vec<u8> = (0..10_000u32).map(|i| (i % 251) as u8).collect();
    assert_eq!(file.write_at(&mut fs, 1, &bytes), Ok(10_000));
    let all = contents(&file, &fs);
    assert_eq!(all.len(), 10_001);
    assert_eq!(all[0], 0);
    assert_eq!(&all[1..], &bytes[..]);
}

#[test]
fn resize() {
    let mut fs = new_fs(64);
    let root = root_of(&mut fs);
    let file = make(&root, &mut fs, "f", FileType::File);
    assert_eq!(file.write_at(&mut fs, 0, b"hello"), Ok(5));
    assert_eq!(file.resize(&mut fs, 0x1234), Ok(()));
    assert_eq!(file.metadata(&fs).unwrap().size, 0x1234);
    let all = contents(&file, &fs);
    assert_eq!(&all[..5], b"hello");
    assert!(all[5..].iter().all(|b| *b == 0));
    assert_eq!(fs.info().bfree, 55);
    assert_eq!(file.resize(&mut fs, 2), Ok(()));
    assert_eq!(contents(&file, &fs), b"he");
    assert_eq!(fs.info().bfree, 56);
    assert_eq!(file.resize(&mut fs, 0), Ok(()));
    assert_eq!(fs.info().bfree, 57);
}

#[test]
fn resizing_within_a_block_uncovers_what_it_holds() {
    let mut fs = new_fs(64);
    let root = root_of(&mut fs);
    let file = make(&root, &mut fs, "f", FileType::File);
    assert_eq!(file.write_at(&mut fs, 0, b"hello"), Ok(5));
    assert_eq!(file.resize(&mut fs, 1), Ok(()));
    assert_eq!(file.resize(&mut fs, 4), Ok(()));
    assert_eq!(contents(&file, &fs), b"hell");
}

#[test]
fn resizing_too_far_is_refused() {
    let mut fs = new_fs(64);
    let root = root_of(&mut fs);
    let file = make(&root, &mut fs, "f", FileType::File);
    assert_eq!(file.resize(&mut fs, 0x800_0001), Err(FsError::InvalidParam));
    assert_eq!(file.write_at(&mut fs, 0x800_0000, b"x"), Err(FsError::InvalidParam));
    assert_eq!(file.metadata(&fs).unwrap().size, 0);
}

#[test]
fn directories_are_not_read_as_files() {
    let mut fs = new_fs(64);
    let root = root_of(&mut fs);
    let mut buf = [7u8; 3];
    assert_eq!(root.read_at(&fs, 0, &mut buf), Err(FsError::NotFile));
    assert_eq!(buf, [7u8; 3]);
    assert_eq!(root.write_at(&mut fs, 0, b"x"), Err(FsError::NotFile));
    assert_eq!(root.resize(&mut fs, 0), Err(FsError::NotFile));
}

#[test]
fn a_symbolic_link_holds_bytes() {
    let mut fs = new_fs(64);
    let root = root_of(&mut fs);
    let link = make(&root, &mut fs, "l", FileType::SymLink);
    assert_eq!(link.write_at(&mut fs, 0, b"/target"), Ok(7));
    assert_eq!(contents(&link, &fs), b"/target");
    assert_eq!(link.metadata(&fs).unwrap().type_, FileType::SymLink);
    assert_eq!(link.chmod(0o600), Ok(()));
    assert_eq!(link.metadata(&fs).unwrap().mode, 0o777);
}

#[test]
fn a_large_file_uses_an_indirect_block() {
    let mut fs = new_fs(128);
    let root = root_of(&mut fs);
    let file = make(&root, &mut fs, "f", FileType::File);
    let free = fs.info().bfree;
    assert_eq!(file.resize(&mut fs, 11 * 4096), Ok(()));
    assert_eq!(fs.info().bfree, free - 11);
    let bytes: Vec<u8> = (0..40 * 4096u32).map(|i| (i / 7 % 256) as u8).collect();
    assert_eq!(file.write_at(&mut fs, 0, &bytes), Ok(bytes.len()));
    assert_eq!(fs.info().bfree, free - 41);
    assert_eq!(contents(&file, &fs), bytes);
    assert_eq!(file.get_disk_block_id(&fs, 0), Ok(7));
    assert_eq!(file.get_disk_block_id(&fs, 10), Ok(17));
    assert_eq!(file.get_disk_block_id(&fs, 11), Ok(19));
    assert_eq!(file.get_disk_block_id(&fs, 12), Ok(20));
    assert_eq!(file.get_disk_block_id(&fs, 39), Ok(47));
    assert_eq!(file.get_disk_block_id(&fs, 40), Err(FsError::InvalidParam));
    assert_eq!(file.resize(&mut fs, 12 * 4096), Ok(()));
    assert_eq!(fs.info().bfree, free - 13);
    assert_eq!(contents(&file, &fs), &bytes[..12 * 4096]);
    assert_eq!(file.resize(&mut fs, 11 * 4096), Ok(()));
    assert_eq!(fs.info().bfree, free - 11);
    assert_eq!(contents(&file, &fs), &bytes[..11 * 4096]);
}

#[test]
fn whether_a_length_fits_is_told() {
    let mut fs = new_fs(32);
    let root = root_of(&mut fs);
    let file = make(&root, &mut fs, "f", FileType::File);
    assert_eq!(fs.info().bfree, 25);
    assert!(file.fits_len(&fs, 24 * 4096));
    assert!(!file.fits_len(&fs, 24 * 4096 + 1));
    assert!(file.fits_len(&fs, 0));
    assert!(!file.fits_len(&fs, 1037 * 4096));
    assert!(root.fits_entry(&fs, 24));
    assert!(!root.fits_entry(&fs, 25));
    assert!(!root.fits_entry(&fs, usize::MAX));
    assert_eq!(file.resize(&mut fs, 24 * 4096), Ok(()));
    assert_eq!(fs.info().bfree, 0);
    assert!(!root.fits_entry(&fs, 0));
}

#[test]
fn files_do_not_disturb_each_other() {
    let mut fs = new_fs(64);
    let root = root_of(&mut fs);
    let a = make(&root, &mut fs, "a", FileType::File);
    let b = make(&root, &mut fs, "b", FileType::File);
    for i in 0..6usize {
        assert_eq!(a.write_at(&mut fs, i * 3000, &vec![1u8; 3000]), Ok(3000));
        assert_eq!(b.write_at(&mut fs, i * 2000, &vec![2u8; 2000]), Ok(2000));
    }
    assert_eq!(contents(&a, &fs), vec![1u8; 18_000]);
    assert_eq!(contents(&b, &fs), vec![2u8; 12_000]);
    let mut seen = Vec::new();
    for i in 0..5usize {
        seen.push(a.get_disk_block_id(&fs, i).unwrap());
    }
    for i in 0..3usize {
        seen.push(b.get_disk_block_id(&fs, i).unwrap());
    }
    seen.sort();
    seen.dedup();
    assert_eq!(seen.len(), 8);
    for block in seen {
        assert!(fs.in_use(block));
    }
    assert!(!fs.in_use(63));
    assert!(!fs.in_use(100_000));
}

#[test]
fn blocks_are_taken_from_the_lowest_and_given_back() {
    let mut fs = new_fs(64);
    assert_eq!(fs.alloc_block(), Some(5));
    assert_eq!(fs.alloc_block(), Some(6));
    assert_eq!(fs.info().bfree, 57);
    fs.free_block(5);
    assert_eq!(fs.info().bfree, 58);
    assert!(!fs.in_use(5));
    assert_eq!(fs.alloc_block(), Some(5));
    fs.free_block(6);
    fs.free_block(5);
    assert_eq!(fs.info().bfree, 59);
}

#[test]
fn no_block_is_taken_when_none_is_free() {
    let mut fs = new_fs(16);
    for i in 5..16usize {
        assert_eq!(fs.alloc_block(), Some(i));
    }
    assert_eq!(fs.alloc_block(), None);
    assert_eq!(fs.info().bfree, 0);
}

#[test]
fn a_handle_keeps_a_removed_file() {
    let mut fs = new_fs(64);
    let root = root_of(&mut fs);
    let file = make(&root, &mut fs, "f", FileType::File);
    assert_eq!(file.write_at(&mut fs, 0, b"still here"), Ok(10));
    let again = root.find(&mut fs, "f").ok().unwrap();
    assert_eq!(again.number(), file.number());
    assert_eq!(root.unlink(&mut fs, "f"), Ok(()));
    assert_eq!(contents(&again, &fs), b"still here");
    assert_eq!(file.metadata(&fs).unwrap().nlinks, 0);
    assert_eq!(fs.info().bfree, 57);
    assert_eq!(again.drop(&mut fs), Ok(()));
    assert_eq!(fs.info().bfree, 57);
    assert_eq!(contents(&file, &fs), b"still here");
    assert_eq!(file.drop(&mut fs), Ok(()));
    assert_eq!(fs.info().bfree, 59);
}

#[test]
fn a_dropped_file_is_loaded_again() {
    let mut fs = new_fs(64);
    let root = root_of(&mut fs);
    let file = make(&root, &mut fs, "f", FileType::File);
    assert_eq!(file.write_at(&mut fs, 4090, b"0123456789"), Ok(10));
    assert_eq!(file.drop(&mut fs), Ok(()));
    let again = root.find(&mut fs, "f").ok().unwrap();
    let all = contents(&again, &fs);
    assert_eq!(all.len(), 4100);
    assert_eq!(&all[4090..], b"0123456789");
    assert_eq!(again.metadata(&fs).unwrap().nlinks, 1);
}

#[test]
fn free_blocks_are_counted() {
    let mut fs = new_fs(64);
    let root = root_of(&mut fs);
    let file = make(&root, &mut fs, "f", FileType::File);
    let counted = |fs: &Fs| (0..64usize).filter(|b| !fs.in_use(*b)).count();
    for len in [0usize, 5000, 60_000, 49_152, 45_056, 1] {
        assert_eq!(file.resize(&mut fs, len), Ok(()));
        assert_eq!(fs.info().bfree, counted(&fs));
    }
}

#[test]
fn what_a_file_can_take_is_told() {
    let mut fs = new_fs(16);
    let root = root_of(&mut fs);
    let file = make(&root, &mut fs, "f", FileType::File);
    assert_eq!(fs.info().bfree, 9);
    assert!(file.can_extend(&fs, 9 * 4096));
    assert!(!file.can_extend(&fs, 9 * 4096 + 1));
    assert!(file.can_extend(&fs, 0x800_0001));
    assert!(file.can_resize(&fs, 9 * 4096));
    assert!(!file.can_resize(&fs, 10 * 4096));
    assert!(file.can_resize(&fs, 0x800_0001));
    assert!(root.can_resize(&fs, 10 * 4096));
    assert!(fs.has_spare(file.number()));
}

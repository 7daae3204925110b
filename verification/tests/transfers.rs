use std::cell::Cell;
use std::rc::Rc;

use simplefs::device::{Device, MemDevice};
use simplefs::fs::{INodeImpl, SimpleFileSystem};
use simplefs::vfs::{FileType, FsError};

/// A device in memory that counts the transfers.
struct Counting {
    inner: MemDevice,
    reads: Rc<Cell<usize>>,
    writes: Rc<Cell<usize>>,
}

impl Device for Counting {
    fn read_at(&self, offset: usize, buf: &mut [u8]) -> Option<usize> {
        self.reads.set(self.reads.get() + 1);
        self.inner.read_at(offset, buf)
    }

    fn write_at(&mut self, offset: usize, buf: &[u8]) -> Option<usize> {
        self.writes.set(self.writes.get() + 1);
        self.inner.write_at(offset, buf)
    }
}

type Fs = SimpleFileSystem<Counting>;

/// A file system of 128 blocks with its root directory, and what counts the writes.
fn counted() -> (Fs, INodeImpl, Rc<Cell<usize>>) {
    let writes = Rc::new(Cell::new(0));
    let device = Counting {
        inner: MemDevice::new(vec![0u8; 128 * 4096]),
        reads: Rc::new(Cell::new(0)),
        writes: writes.clone(),
    };
    let mut fs = match Fs::create(device, 128 * 4096) {
        Ok(fs) => fs,
        Err(e) => panic!("cannot create: {:?}", e),
    };
    let root = fs.root_inode().ok().unwrap();
    (fs, root, writes)
}

#[test]
fn syncing_a_clean_file_system_writes_nothing() {
    let (mut fs, root, writes) = counted();
    let file = root.create(&mut fs, "f", FileType::File, 0).ok().unwrap();
    assert_eq!(file.write_at(&mut fs, 0, b"abc"), Ok(3));
    let before = writes.get();
    assert_eq!(fs.sync(), Ok(()));
    assert!(writes.get() > before);
    let after = writes.get();
    assert_eq!(fs.sync(), Ok(()));
    assert_eq!(file.sync_all(&mut fs), Ok(()));
    assert_eq!(file.sync_data(&mut fs), Ok(()));
    assert_eq!(root.sync_all(&mut fs), Ok(()));
    assert_eq!(writes.get(), after);
    let device = match fs.drop() {
        Ok(device) => device,
        Err(e) => panic!("cannot write back: {:?}", e),
    };
    assert_eq!(device.writes.get(), after);
}

#[test]
fn syncing_a_changed_file_writes_its_inode_once() {
    let (mut fs, root, writes) = counted();
    let file = root.create(&mut fs, "f", FileType::File, 0).ok().unwrap();
    assert_eq!(fs.sync(), Ok(()));
    assert_eq!(file.resize(&mut fs, 10), Ok(()));
    let before = writes.get();
    assert_eq!(file.sync_data(&mut fs), Ok(()));
    assert_eq!(writes.get(), before + 1);
    assert_eq!(file.sync_all(&mut fs), Ok(()));
    assert_eq!(writes.get(), before + 1);
}

#[test]
fn resizing_without_new_blocks_writes_nothing() {
    let (mut fs, root, writes) = counted();
    let file = root.create(&mut fs, "f", FileType::File, 0).ok().unwrap();
    assert_eq!(file.resize(&mut fs, 20 * 4096), Ok(()));
    let before = writes.get();
    assert_eq!(file.resize(&mut fs, 20 * 4096), Ok(()));
    assert_eq!(file.resize(&mut fs, 19 * 4096 + 1), Ok(()));
    assert_eq!(file.resize(&mut fs, 14 * 4096), Ok(()));
    assert_eq!(file.resize(&mut fs, 3), Ok(()));
    assert_eq!(file.resize(&mut fs, 0), Ok(()));
    assert_eq!(file.resize(&mut fs, 0x800_0001), Err(FsError::InvalidParam));
    assert_eq!(writes.get(), before);
}

#[test]
fn what_is_refused_writes_nothing() {
    let (mut fs, root, writes) = counted();
    let dir = root.create(&mut fs, "dir", FileType::Dir, 0).ok().unwrap();
    let file = dir.create(&mut fs, "file", FileType::File, 0).ok().unwrap();
    let before = writes.get();
    let info = fs.info();
    assert_eq!(root.create(&mut fs, "dir", FileType::File, 0).err(), Some(FsError::EntryExist));
    assert_eq!(file.create(&mut fs, "x", FileType::File, 0).err(), Some(FsError::NotDir));
    assert_eq!(root.find(&mut fs, "none").err(), Some(FsError::EntryNotFound));
    assert_eq!(root.unlink(&mut fs, "dir"), Err(FsError::DirNotEmpty));
    assert_eq!(root.unlink(&mut fs, "."), Err(FsError::IsDir));
    assert_eq!(root.link(&mut fs, "x", Some(&dir)), Err(FsError::IsDir));
    assert_eq!(root.link(&mut fs, "x", None), Err(FsError::NotSameFs));
    assert_eq!(root.move_(&mut fs, "none", Some(&dir), "x"), Err(FsError::EntryNotFound));
    assert_eq!(root.move_(&mut fs, "dir", None, "x"), Err(FsError::NotSameFs));
    assert_eq!(dir.resize(&mut fs, 0), Err(FsError::NotFile));
    assert_eq!(dir.write_at(&mut fs, 0, b"x"), Err(FsError::NotFile));
    assert_eq!(writes.get(), before);
    assert_eq!(fs.info(), info);
}

#[test]
fn looking_up_and_giving_back_a_clean_handle_write_nothing() {
    let (mut fs, root, writes) = counted();
    let file = root.create(&mut fs, "f", FileType::File, 0).ok().unwrap();
    let again = root.find(&mut fs, "f").ok().unwrap();
    let before = writes.get();
    // Another handle is left, so that nothing is written back though the inode has changed.
    assert_eq!(again.drop(&mut fs), Ok(()));
    assert_eq!(writes.get(), before);
    assert_eq!(file.drop(&mut fs), Ok(()));
    assert_eq!(writes.get(), before + 1);
    let file = root.find(&mut fs, "f").ok().unwrap();
    assert_eq!(fs.root_inode().ok().unwrap().drop(&mut fs), Ok(()));
    assert_eq!(file.drop(&mut fs), Ok(()));
    assert_eq!(writes.get(), before + 1);
}

/// A device in memory that can be told to fail, or to take only the first bytes of a write into
/// block 0 or 2.
struct Weak {
    inner: MemDevice,
    dead: Rc<Cell<bool>>,
    limit: Rc<Cell<usize>>,
}

impl Device for Weak {
    fn read_at(&self, offset: usize, buf: &mut [u8]) -> Option<usize> {
        if self.dead.get() {
            return None;
        }
        self.inner.read_at(offset, buf)
    }

    fn write_at(&mut self, offset: usize, buf: &[u8]) -> Option<usize> {
        if self.dead.get() {
            return None;
        }
        if offset == 0 || offset == 2 * 4096 {
            let n = buf.len().min(self.limit.get());
            return self.inner.write_at(offset, &buf[..n]);
        }
        self.inner.write_at(offset, buf)
    }
}

type WeakFs = SimpleFileSystem<Weak>;

fn weak() -> (WeakFs, Rc<Cell<bool>>, Rc<Cell<usize>>) {
    let dead = Rc::new(Cell::new(false));
    let limit = Rc::new(Cell::new(4096));
    let inner = MemDevice::new(vec![0xa5u8; 128 * 4096]);
    let device = Weak { inner, dead: dead.clone(), limit: limit.clone() };
    match WeakFs::create(device, 128 * 4096) {
        Ok(fs) => (fs, dead, limit),
        Err(e) => panic!("cannot create: {:?}", e),
    }
}

fn bytes_of(fs: WeakFs) -> Vec<u8> {
    match fs.drop() {
        Ok(device) => device.inner.bytes().clone(),
        Err(e) => panic!("cannot write back: {:?}", e),
    }
}

#[test]
fn how_much_of_the_superblock_was_written_is_not_looked_at() {
    let (mut fs, _, limit) = weak();
    limit.set(6);
    assert_eq!(fs.sync(), Ok(()));
    limit.set(4096);
    // Nothing is marked as changed any more, so that nothing is written.
    assert_eq!(fs.sync(), Ok(()));
    let root = fs.root_inode().ok().unwrap();
    assert_eq!(root.get_entry(&fs, 1), Ok(String::from("..")));
    assert_eq!(root.drop(&mut fs), Ok(()));
    assert_eq!(fs.info().bfree, 123);
    let bytes = bytes_of(fs);
    assert_eq!(&bytes[0..8], &[0x2a, 0xbe, 0x8d, 0x2f, 128, 0, 0xa5, 0xa5]);
    assert!(bytes[8..4096].iter().all(|b| *b == 0xa5));
    assert_eq!(&bytes[2 * 4096..2 * 4096 + 3], &[0x07, 0xff, 0xff]);
    assert!(bytes[2 * 4096 + 6..3 * 4096].iter().all(|b| *b == 0xa5));
}

#[test]
fn a_device_that_refuses_the_superblock_fails_the_sync() {
    let (mut fs, dead, _) = weak();
    dead.set(true);
    assert_eq!(fs.sync(), Err(FsError::DeviceError));
}

#[test]
fn what_lies_behind_superblock_and_inodes_is_kept() {
    let (mut fs, _, _) = weak();
    let root = fs.root_inode().ok().unwrap();
    let file = root.create(&mut fs, "f", FileType::File, 0).ok().unwrap();
    let id = file.number();
    assert_eq!(file.sync_all(&mut fs), Ok(()));
    assert_eq!(file.drop(&mut fs), Ok(()));
    let bytes = bytes_of(fs);
    assert!(bytes[44..4096].iter().all(|b| *b == 0xa5));
    assert!(bytes[4096 + 68..2 * 4096].iter().all(|b| *b == 0xa5));
    assert_eq!(&bytes[id * 4096..id * 4096 + 8], &[0, 0, 0, 0, 1, 0, 1, 0]);
    assert!(bytes[id * 4096 + 68..(id + 1) * 4096].iter().all(|b| *b == 0xa5));
}

#[test]
fn free_blocks_keep_what_they_hold() {
    let (mut fs, _, _) = weak();
    let root = fs.root_inode().ok().unwrap();
    let dir = root.create(&mut fs, "dir", FileType::Dir, 0).ok().unwrap();
    let file = root.create(&mut fs, "f", FileType::File, 0).ok().unwrap();
    assert_eq!(file.write_at(&mut fs, 0, &[1u8; 5000]), Ok(5000));
    assert_eq!(root.link(&mut fs, "g", Some(&file)), Ok(()));
    assert_eq!(root.move_(&mut fs, "g", Some(&dir), "h"), Ok(()));
    assert_eq!(root.unlink(&mut fs, "f"), Ok(()));
    let free: Vec<usize> = (0..128).filter(|b| !fs.in_use(*b)).collect();
    let highest = (0..128).filter(|b| fs.in_use(*b)).max().unwrap();
    let bytes = bytes_of(fs);
    assert!(free.len() > 100);
    for b in free.into_iter().filter(|b| *b > highest) {
        assert!(bytes[b * 4096..(b + 1) * 4096].iter().all(|x| *x == 0xa5));
    }
}

#[test]
fn a_failing_device_is_asked_only_where_it_is_needed() {
    let (mut fs, dead, _) = weak();
    let root = fs.root_inode().ok().unwrap();
    let dir = root.create(&mut fs, "dir", FileType::Dir, 0).ok().unwrap();
    let file = root.create(&mut fs, "f", FileType::File, 0).ok().unwrap();
    let kept = root.create(&mut fs, "kept", FileType::File, 0).ok().unwrap();
    let gone = root.create(&mut fs, "gone", FileType::Dir, 0).ok().unwrap();
    assert_eq!(root.unlink(&mut fs, "gone"), Ok(()));
    assert_eq!(file.write_at(&mut fs, 0, &[1u8; 12 * 4096]), Ok(12 * 4096));
    assert_eq!(kept.sync_all(&mut fs), Ok(()));
    dead.set(true);
    assert_eq!(file.find(&mut fs, "x").err(), Some(FsError::NotDir));
    assert_eq!(file.get_entry(&fs, 0), Err(FsError::NotDir));
    assert_eq!(dir.get_entry(&fs, 2), Err(FsError::EntryNotFound));
    assert_eq!(file.create(&mut fs, "x", FileType::File, 0).err(), Some(FsError::NotDir));
    assert_eq!(gone.create(&mut fs, "x", FileType::File, 0).err(), Some(FsError::DirRemoved));
    assert_eq!(gone.link(&mut fs, "x", Some(&file)), Err(FsError::DirRemoved));
    assert_eq!(gone.unlink(&mut fs, "x"), Err(FsError::DirRemoved));
    assert_eq!(root.unlink(&mut fs, ".."), Err(FsError::IsDir));
    assert_eq!(root.move_(&mut fs, "f", None, "x"), Err(FsError::NotSameFs));
    assert_eq!(root.move_(&mut fs, "f", Some(&gone), "x"), Err(FsError::DirRemoved));
    assert_eq!(root.move_(&mut fs, "f", Some(&file), "x"), Err(FsError::NotDir));
    assert_eq!(fs.root_inode().ok().unwrap().number(), 1);
    assert_eq!(kept.drop(&mut fs), Ok(()));
    assert_eq!(file.resize(&mut fs, 3), Ok(()));
    assert_eq!(file.read_at(&fs, 3, &mut [0u8; 4]), Ok(0));
    // These need the device.
    assert_eq!(root.find(&mut fs, "dir").err(), Some(FsError::DeviceError));
    assert_eq!(dir.get_entry(&fs, 1), Err(FsError::DeviceError));
    assert_eq!(file.drop(&mut fs), Err(FsError::DeviceError));
}

#[test]
fn handles_share_one_state() {
    let (mut fs, root, _) = counted();
    let file = root.create(&mut fs, "f", FileType::File, 0).ok().unwrap();
    let again = root.find(&mut fs, "f").ok().unwrap();
    assert_eq!(file.write_at(&mut fs, 0, b"abc"), Ok(3));
    assert_eq!(again.metadata(&fs).unwrap().size, 3);
    assert_eq!(again.resize(&mut fs, 1), Ok(()));
    assert_eq!(file.metadata(&fs).unwrap().size, 1);
    let mut buf = [0u8; 4];
    assert_eq!(file.read_at(&fs, 0, &mut buf), Ok(1));
    assert_eq!(buf[0], b'a');
}

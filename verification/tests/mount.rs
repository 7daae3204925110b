use std::cell::Cell;

use simplefs::device::{read_block, write_block, Device, MemDevice};
use simplefs::fs::{INodeImpl, SimpleFileSystem};
use simplefs::vfs::{FileType, FsError, FsInfo};

type Fs = SimpleFileSystem<MemDevice>;

fn made(blocks: usize) -> Fs {
    let device = MemDevice::new(vec![0xa5u8; blocks * 4096]);
    match Fs::create(device, blocks * 4096) {
        Ok(fs) => fs,
        Err(e) => panic!("cannot create: {:?}", e),
    }
}

fn opened(device: MemDevice) -> Fs {
    match Fs::open(device) {
        Ok(fs) => fs,
        Err(e) => panic!("cannot open: {:?}", e),
    }
}

fn ended(fs: Fs) -> MemDevice {
    match fs.drop() {
        Ok(device) => device,
        Err(e) => panic!("cannot write back: {:?}", e),
    }
}

fn file_in(dir: &INodeImpl, fs: &mut Fs, name: &str) -> INodeImpl {
    dir.find(fs, name).ok().unwrap()
}

#[test]
fn info_of_a_new_file_system() {
    let fs = made(100);
    assert_eq!(
        fs.info(),
        FsInfo {
            bsize: 4096,
            frsize: 4096,
            blocks: 100,
            bfree: 95,
            bavail: 95,
            files: 100,
            ffree: 95,
            namemax: 255,
        }
    );
}

#[test]
fn a_file_system_has_no_more_blocks_than_its_map() {
    let blocks = 32_770usize;
    let device = MemDevice::new(vec![0u8; blocks * 4096]);
    let fs = Fs::create(device, blocks * 4096).ok().unwrap();
    assert_eq!(fs.info().blocks, 32_768);
    assert_eq!(fs.info().bfree, 32_763);
}

#[test]
fn create_then_reopen() {
    let device = ended(made(64));
    let mut fs = opened(device);
    assert_eq!(fs.info().blocks, 64);
    assert_eq!(fs.info().bfree, 59);
    let root = fs.root_inode().ok().unwrap();
    assert_eq!(root.number(), 1);
    assert_eq!(root.get_entry(&fs, 0), Ok(String::from(".")));
    assert_eq!(root.get_entry(&fs, 1), Ok(String::from("..")));
    assert_eq!(root.get_entry(&fs, 2), Err(FsError::EntryNotFound));
    assert_eq!(root.metadata(&fs).unwrap().nlinks, 2);
}

#[test]
fn the_layout_on_the_device() {
    let device = ended(made(64));
    let bytes = device.bytes();
    // superblock
    assert_eq!(&bytes[0..4], &[0x2a, 0xbe, 0x8d, 0x2f]);
    assert_eq!(&bytes[4..8], &[64, 0, 0, 0]);
    assert_eq!(&bytes[8..12], &[59, 0, 0, 0]);
    assert_eq!(&bytes[12..30], b"simple file system");
    assert_eq!(&bytes[30..44], &[0u8; 14]);
    // inode of the root directory
    assert_eq!(&bytes[4096..4100], &[0, 2, 0, 0]);
    assert_eq!(&bytes[4100..4102], &[2, 0]);
    assert_eq!(&bytes[4102..4104], &[2, 0]);
    assert_eq!(&bytes[4104..4108], &[2, 0, 0, 0]);
    assert_eq!(&bytes[4108..4112], &[3, 0, 0, 0]);
    assert_eq!(&bytes[4112..4116], &[4, 0, 0, 0]);
    assert!(bytes[4116..4164].iter().all(|b| *b == 0));
    // free map: blocks 5 to 63
    let map = &bytes[2 * 4096..3 * 4096];
    assert_eq!(map[0], 0b0000_0111);
    assert!(map[1..8].iter().all(|b| *b == 0xff));
    assert!(map[8..].iter().all(|b| *b == 0));
    // entries of the root directory
    assert_eq!(&bytes[3 * 4096..3 * 4096 + 6], &[1, 0, 0, 0, b'.', 0]);
    assert_eq!(&bytes[4 * 4096..4 * 4096 + 7], &[1, 0, 0, 0, b'.', b'.', 0]);
}

#[test]
fn files_are_there_after_reopening() {
    let mut fs = made(128);
    let root = fs.root_inode().ok().unwrap();
    let dir = root.create(&mut fs, "dir", FileType::Dir, 0).ok().unwrap();
    let file = dir.create(&mut fs, "file", FileType::File, 0).ok().unwrap();
    let bytes: Vec<u8> = (0..60_000u32).map(|i| (i % 253) as u8).collect();
    assert_eq!(file.write_at(&mut fs, 0, &bytes), Ok(60_000));
    assert_eq!(root.link(&mut fs, "other", Some(&file)), Ok(()));
    let info = fs.info();
    let id = file.number();
    let mut fs = opened(ended(fs));
    assert_eq!(fs.info(), info);
    let root = fs.root_inode().ok().unwrap();
    let dir = file_in(&root, &mut fs, "dir");
    let file = file_in(&dir, &mut fs, "file");
    assert_eq!(file.number(), id);
    assert_eq!(file.metadata(&fs).unwrap().nlinks, 2);
    let mut buf = vec![0u8; 60_000];
    assert_eq!(file.read_at(&fs, 0, &mut buf), Ok(60_000));
    assert_eq!(buf, bytes);
    let other = file_in(&root, &mut fs, "other");
    assert_eq!(other.number(), id);
    let more = root.create(&mut fs, "more", FileType::File, 0).ok().unwrap();
    assert!(more.number() > id);
}

#[test]
fn syncing_twice_changes_nothing_more() {
    let mut fs = made(64);
    let root = fs.root_inode().ok().unwrap();
    let file = root.create(&mut fs, "f", FileType::File, 0).ok().unwrap();
    assert_eq!(fs.sync(), Ok(()));
    assert_eq!(file.sync_all(&mut fs), Ok(()));
    assert_eq!(file.sync_data(&mut fs), Ok(()));
    assert_eq!(fs.sync(), Ok(()));
    assert_eq!(file.drop(&mut fs), Ok(()));
    assert_eq!(fs.sync(), Ok(()));
    let mut fs = opened(ended(fs));
    let root = fs.root_inode().ok().unwrap();
    assert!(root.find(&mut fs, "f").is_ok());
}

#[test]
fn what_is_not_synced_is_not_on_the_device() {
    let mut fs = made(64);
    assert_eq!(fs.sync(), Ok(()));
    let root = fs.root_inode().ok().unwrap();
    let file = root.create(&mut fs, "f", FileType::File, 0).ok().unwrap();
    assert_eq!(file.sync_all(&mut fs), Ok(()));
    assert_eq!(fs.info().bfree, 57);
    assert_eq!(fs.sync(), Ok(()));
    let fs = opened(ended(fs));
    assert_eq!(fs.info().bfree, 57);
}

#[test]
fn another_file_system_is_refused() {
    let device = MemDevice::new(vec![0u8; 64 * 4096]);
    assert!(matches!(Fs::open(device), Err(FsError::WrongFs)));
    let mut bytes = ended(made(64)).bytes().clone();
    bytes[0] = 0x2b;
    assert!(matches!(Fs::open(MemDevice::new(bytes)), Err(FsError::WrongFs)));
}

#[test]
fn a_device_that_is_too_small_fails() {
    assert!(matches!(Fs::open(MemDevice::new(vec![0u8; 10])), Err(FsError::DeviceError)));
    let bytes = ended(made(64)).bytes()[..2 * 4096].to_vec();
    assert!(matches!(Fs::open(MemDevice::new(bytes)), Err(FsError::DeviceError)));
}

#[test]
fn transfers_within_a_block() {
    let mut device = MemDevice::new(vec![0u8; 2 * 4096]);
    assert_eq!(write_block(&mut device, 1, 4, b"abc"), Ok(()));
    assert_eq!(&device.bytes()[4096 + 3..4096 + 8], b"\0abc\0");
    let mut buf = [0u8; 4];
    assert_eq!(read_block(&device, 1, 5, &mut buf), Ok(()));
    assert_eq!(&buf, b"bc\0\0");
    assert_eq!(read_block(&device, 2, 0, &mut buf), Err(FsError::DeviceError));
    assert_eq!(write_block(&mut device, 2, 0, b"x"), Err(FsError::DeviceError));
    assert_eq!(device.read_at(8190, &mut buf), None);
    assert_eq!(device.write_at(8190, b"12"), Some(2));
}

/// A device that fails after a number of transfers, and that may do only part of the last one.
struct Flaky {
    inner: MemDevice,
    left: Cell<usize>,
    short: bool,
}

impl Flaky {
    fn serve(&self) -> bool {
        let left = self.left.get();
        if left == 0 {
            return false;
        }
        self.left.set(left - 1);
        true
    }
}

impl Device for Flaky {
    fn read_at(&self, offset: usize, buf: &mut [u8]) -> Option<usize> {
        if self.serve() {
            self.inner.read_at(offset, buf)
        } else if self.short {
            Some(0)
        } else {
            None
        }
    }

    fn write_at(&mut self, offset: usize, buf: &[u8]) -> Option<usize> {
        if self.serve() {
            self.inner.write_at(offset, buf)
        } else if self.short {
            Some(0)
        } else {
            None
        }
    }
}

fn session(device: Flaky) -> Result<(), FsError> {
    let mut fs = SimpleFileSystem::create(device, 64 * 4096)?;
    let root = fs.root_inode()?;
    let dir = root.create(&mut fs, "dir", FileType::Dir, 0)?;
    let file = dir.create(&mut fs, "file", FileType::File, 0)?;
    file.write_at(&mut fs, 0, &[3u8; 60_000])?;
    let mut buf = [0u8; 100];
    file.read_at(&fs, 59_000, &mut buf)?;
    file.resize(&mut fs, 10)?;
    root.link(&mut fs, "link", Some(&file))?;
    root.move_(&mut fs, "link", Some(&dir), "moved")?;
    dir.get_entry(&fs, 2)?;
    dir.unlink(&mut fs, "file")?;
    dir.unlink(&mut fs, "moved")?;
    file.drop(&mut fs)?;
    fs.sync()?;
    fs.drop()?;
    Ok(())
}

#[test]
fn a_failing_device_is_reported() {
    for short in [false, true] {
        let mut left = 0usize;
        loop {
            let inner = MemDevice::new(vec![0u8; 64 * 4096]);
            match session(Flaky { inner, left: Cell::new(left), short }) {
                Ok(()) => break,
                Err(e) => assert_eq!(e, FsError::DeviceError),
            }
            left += 1;
        }
        assert!(left > 20);
    }
}

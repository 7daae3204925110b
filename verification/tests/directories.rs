use simplefs::device::MemDevice;
use simplefs::fs::{INodeImpl, SimpleFileSystem};
use simplefs::vfs::{FileType, FsError};

type Fs = SimpleFileSystem<MemDevice>;

fn new_fs(blocks: usize) -> Fs {
    let device = MemDevice::new(vec![0xa5u8; blocks * 4096]);
    match Fs::create(device, blocks * 4096) {
        Ok(fs) => fs,
        Err(e) => panic!("cannot create: {:?}", e),
    }
}

fn root_of(fs: &mut Fs) -> INodeImpl {
    match fs.root_inode() {
        Ok(root) => root,
        Err(e) => panic!("no root: {:?}", e),
    }
}

fn make(dir: &INodeImpl, fs: &mut Fs, name: &str, type_: FileType) -> INodeImpl {
    match dir.create(fs, name, type_, 0o777) {
        Ok(inode) => inode,
        Err(e) => panic!("cannot create {}: {:?}", name, e),
    }
}

fn list(dir: &INodeImpl, fs: &Fs) -> Vec<String> {
    let mut names = Vec::new();
    loop {
        match dir.get_entry(fs, names.len()) {
            Ok(name) => names.push(name),
            Err(e) => {
                assert_eq!(e, FsError::EntryNotFound);
                return names;
            }
        }
    }
}

fn found(dir: &INodeImpl, fs: &mut Fs, name: &str) -> Option<usize> {
    match dir.find(fs, name) {
        Ok(inode) => {
            let id = inode.number();
            assert_eq!(inode.drop(fs), Ok(()));
            Some(id)
        }
        Err(e) => {
            assert_eq!(e, FsError::EntryNotFound);
            None
        }
    }
}

fn create_error(dir: &INodeImpl, fs: &mut Fs, name: &str, type_: FileType) -> Option<FsError> {
    dir.create(fs, name, type_, 0).err()
}

fn nlinks(inode: &INodeImpl, fs: &Fs) -> usize {
    inode.metadata(fs).unwrap().nlinks
}

#[test]
fn create_then_lookup() {
    let mut fs = new_fs(64);
    let root = root_of(&mut fs);
    assert_eq!(found(&root, &mut fs, "."), Some(1));
    assert_eq!(found(&root, &mut fs, ".."), Some(1));
    let file1 = make(&root, &mut fs, "file1", FileType::File);
    assert_eq!(found(&root, &mut fs, "file1"), Some(file1.number()));
    assert_eq!(found(&root, &mut fs, "file2"), None);
    let dir1 = make(&root, &mut fs, "dir1", FileType::Dir);
    let file2 = make(&dir1, &mut fs, "file2", FileType::File);
    assert_eq!(found(&dir1, &mut fs, "file2"), Some(file2.number()));
    assert_eq!(found(&dir1, &mut fs, "."), Some(dir1.number()));
    assert_eq!(found(&dir1, &mut fs, ".."), Some(1));
    assert_eq!(found(&root, &mut fs, "file2"), None);
    assert_eq!(list(&root, &fs), [".", "..", "file1", "dir1"]);
    assert_eq!(list(&dir1, &fs), [".", "..", "file2"]);
}

#[test]
fn lookup_in_a_file_is_refused() {
    let mut fs = new_fs(64);
    let root = root_of(&mut fs);
    let file = make(&root, &mut fs, "f", FileType::File);
    assert!(matches!(file.find(&mut fs, "x"), Err(FsError::NotDir)));
    assert_eq!(file.get_entry(&fs, 0), Err(FsError::NotDir));
    assert_eq!(root.get_entry(&fs, 3), Err(FsError::EntryNotFound));
    assert_eq!(root.get_entry(&fs, 2), Ok(String::from("f")));
}

#[test]
fn creation_is_refused() {
    let mut fs = new_fs(64);
    let root = root_of(&mut fs);
    let file = make(&root, &mut fs, "f", FileType::File);
    let dir = make(&root, &mut fs, "d", FileType::Dir);
    assert_eq!(create_error(&file, &mut fs, "x", FileType::File), Some(FsError::NotDir));
    assert_eq!(create_error(&root, &mut fs, "f", FileType::Dir), Some(FsError::EntryExist));
    assert_eq!(create_error(&root, &mut fs, ".", FileType::Dir), Some(FsError::EntryExist));
    assert_eq!(create_error(&root, &mut fs, "x", FileType::Socket), Some(FsError::InvalidParam));
    assert_eq!(create_error(&root, &mut fs, "x", FileType::CharDevice), Some(FsError::InvalidParam));
    assert_eq!(root.unlink(&mut fs, "d"), Ok(()));
    assert_eq!(create_error(&dir, &mut fs, "x", FileType::File), Some(FsError::DirRemoved));
    assert_eq!(list(&root, &fs), [".", "..", "f"]);
}

#[test]
fn creation_without_space_is_refused() {
    let mut fs = new_fs(16);
    let root = root_of(&mut fs);
    let file = make(&root, &mut fs, "f", FileType::File);
    assert_eq!(file.resize(&mut fs, 9 * 4096), Ok(()));
    assert_eq!(fs.info().bfree, 0);
    for type_ in [FileType::File, FileType::SymLink, FileType::Dir] {
        assert_eq!(create_error(&root, &mut fs, "x", type_), Some(FsError::NoDeviceSpace));
    }
    assert_eq!(list(&root, &fs), [".", "..", "f"]);
}

#[test]
fn link_counts() {
    let mut fs = new_fs(64);
    let root = root_of(&mut fs);
    assert_eq!(nlinks(&root, &fs), 2);
    let file1 = make(&root, &mut fs, "file1", FileType::File);
    assert_eq!(nlinks(&file1, &fs), 1);
    assert_eq!(nlinks(&root, &fs), 2);
    let dir1 = make(&root, &mut fs, "dir1", FileType::Dir);
    assert_eq!(nlinks(&dir1, &fs), 2);
    assert_eq!(nlinks(&root, &fs), 3);
    assert_eq!(root.move_(&mut fs, "dir1", Some(&root), "dir_1"), Ok(()));
    assert_eq!(nlinks(&dir1, &fs), 2);
    assert_eq!(nlinks(&root, &fs), 3);
    assert_eq!(dir1.link(&mut fs, "file1_", Some(&file1)), Ok(()));
    assert_eq!(nlinks(&dir1, &fs), 2);
    assert_eq!(nlinks(&file1, &fs), 2);
    let dir2 = make(&root, &mut fs, "dir2", FileType::Dir);
    assert_eq!(nlinks(&root, &fs), 4);
    assert_eq!(root.move_(&mut fs, "dir_1", Some(&dir2), "dir_1"), Ok(()));
    assert_eq!(nlinks(&root, &fs), 3);
    assert_eq!(nlinks(&dir2, &fs), 3);
    assert_eq!(dir2.unlink(&mut fs, "dir_1"), Err(FsError::DirNotEmpty));
    assert_eq!(dir1.unlink(&mut fs, "file1_"), Ok(()));
    assert_eq!(nlinks(&file1, &fs), 1);
    assert_eq!(root.unlink(&mut fs, "file1"), Ok(()));
    assert_eq!(nlinks(&file1, &fs), 0);
    assert_eq!(dir2.unlink(&mut fs, "dir_1"), Ok(()));
    assert_eq!(nlinks(&dir1, &fs), 0);
    assert_eq!(nlinks(&dir2, &fs), 2);
}

#[test]
fn hard_link() {
    let mut fs = new_fs(64);
    let root = root_of(&mut fs);
    let file1 = make(&root, &mut fs, "file1", FileType::File);
    assert_eq!(root.link(&mut fs, "file2", Some(&file1)), Ok(()));
    let file2 = root.find(&mut fs, "file2").ok().unwrap();
    assert_eq!(file1.number(), file2.number());
    assert_eq!(file1.write_at(&mut fs, 0, b"shared"), Ok(6));
    let mut buf = [0u8; 6];
    assert_eq!(file2.read_at(&fs, 0, &mut buf), Ok(6));
    assert_eq!(&buf, b"shared");
    assert_eq!(root.unlink(&mut fs, "file1"), Ok(()));
    assert_eq!(found(&root, &mut fs, "file1"), None);
    assert_eq!(found(&root, &mut fs, "file2"), Some(file1.number()));
}

#[test]
fn linking_is_refused() {
    let mut fs = new_fs(64);
    let root = root_of(&mut fs);
    let file = make(&root, &mut fs, "f", FileType::File);
    let dir = make(&root, &mut fs, "d", FileType::Dir);
    assert_eq!(file.link(&mut fs, "x", Some(&file)), Err(FsError::NotDir));
    assert_eq!(root.link(&mut fs, "d", Some(&file)), Err(FsError::EntryExist));
    assert_eq!(root.link(&mut fs, "x", None), Err(FsError::NotSameFs));
    assert_eq!(root.link(&mut fs, "x", Some(&dir)), Err(FsError::IsDir));
    assert_eq!(root.unlink(&mut fs, "d"), Ok(()));
    assert_eq!(dir.link(&mut fs, "x", Some(&file)), Err(FsError::DirRemoved));
    assert_eq!(nlinks(&file, &fs), 1);
}

#[test]
fn removal_is_refused() {
    let mut fs = new_fs(64);
    let root = root_of(&mut fs);
    let file = make(&root, &mut fs, "f", FileType::File);
    let dir = make(&root, &mut fs, "d", FileType::Dir);
    let sub = make(&dir, &mut fs, "s", FileType::Dir);
    assert_eq!(file.unlink(&mut fs, "x"), Err(FsError::NotDir));
    assert_eq!(root.unlink(&mut fs, "."), Err(FsError::IsDir));
    assert_eq!(root.unlink(&mut fs, ".."), Err(FsError::IsDir));
    assert_eq!(root.unlink(&mut fs, "x"), Err(FsError::EntryNotFound));
    assert_eq!(root.unlink(&mut fs, "d"), Err(FsError::DirNotEmpty));
    assert_eq!(dir.unlink(&mut fs, "s"), Ok(()));
    assert_eq!(sub.unlink(&mut fs, "x"), Err(FsError::DirRemoved));
    assert_eq!(root.unlink(&mut fs, "d"), Ok(()));
    assert_eq!(list(&root, &fs), [".", "..", "f"]);
}

#[test]
fn a_refused_removal_of_a_closed_directory_changes_nothing() {
    let mut fs = new_fs(64);
    let root = root_of(&mut fs);
    let dir = make(&root, &mut fs, "d", FileType::Dir);
    let sub = make(&dir, &mut fs, "s", FileType::File);
    assert_eq!(sub.drop(&mut fs), Ok(()));
    assert_eq!(dir.drop(&mut fs), Ok(()));
    let free = fs.info().bfree;
    assert_eq!(root.unlink(&mut fs, "d"), Err(FsError::DirNotEmpty));
    assert_eq!(fs.info().bfree, free);
    let dir = root.find(&mut fs, "d").ok().unwrap();
    assert_eq!(list(&dir, &fs), [".", "..", "s"]);
}

#[test]
fn the_last_entry_takes_the_place_of_a_removed_one() {
    let mut fs = new_fs(64);
    let root = root_of(&mut fs);
    for name in ["a", "b", "c", "d"] {
        make(&root, &mut fs, name, FileType::File);
    }
    let ids: Vec<Option<usize>> = ["a", "c", "d"].iter().map(|n| found(&root, &mut fs, n)).collect();
    assert_eq!(root.unlink(&mut fs, "b"), Ok(()));
    assert_eq!(list(&root, &fs), [".", "..", "a", "d", "c"]);
    let after: Vec<Option<usize>> = ["a", "c", "d"].iter().map(|n| found(&root, &mut fs, n)).collect();
    assert_eq!(ids, after);
    assert_eq!(found(&root, &mut fs, "b"), None);
    assert_eq!(root.unlink(&mut fs, "c"), Ok(()));
    assert_eq!(list(&root, &fs), [".", "..", "a", "d"]);
}

#[test]
fn renaming_keeps_the_place() {
    let mut fs = new_fs(64);
    let root = root_of(&mut fs);
    let a = make(&root, &mut fs, "a", FileType::File);
    let b = make(&root, &mut fs, "b", FileType::File);
    assert_eq!(root.move_(&mut fs, "a", Some(&root), "z"), Ok(()));
    assert_eq!(list(&root, &fs), [".", "..", "z", "b"]);
    assert_eq!(found(&root, &mut fs, "z"), Some(a.number()));
    assert_eq!(found(&root, &mut fs, "a"), None);
    assert_eq!(found(&root, &mut fs, "b"), Some(b.number()));
}

#[test]
fn moving_to_another_directory() {
    let mut fs = new_fs(64);
    let root = root_of(&mut fs);
    let a = make(&root, &mut fs, "a", FileType::File);
    assert_eq!(a.write_at(&mut fs, 0, b"data"), Ok(4));
    let dir = make(&root, &mut fs, "d", FileType::Dir);
    let free = fs.info().bfree;
    assert_eq!(root.move_(&mut fs, "a", Some(&dir), "b"), Ok(()));
    assert_eq!(fs.info().bfree, free);
    assert_eq!(list(&root, &fs), [".", "..", "d"]);
    assert_eq!(list(&dir, &fs), [".", "..", "b"]);
    assert_eq!(found(&dir, &mut fs, "b"), Some(a.number()));
    assert_eq!(nlinks(&a, &fs), 1);
    let mut buf = [0u8; 4];
    assert_eq!(a.read_at(&fs, 0, &mut buf), Ok(4));
    assert_eq!(&buf, b"data");
}

#[test]
fn a_moved_directory_keeps_its_entry_for_the_old_parent() {
    let mut fs = new_fs(64);
    let root = root_of(&mut fs);
    let a = make(&root, &mut fs, "a", FileType::Dir);
    let b = make(&root, &mut fs, "b", FileType::Dir);
    assert_eq!(a.drop(&mut fs), Ok(()));
    assert_eq!(root.move_(&mut fs, "a", Some(&b), "a"), Ok(()));
    let a = b.find(&mut fs, "a").ok().unwrap();
    assert_eq!(found(&a, &mut fs, ".."), Some(1));
    assert_eq!(nlinks(&root, &fs), 3);
    assert_eq!(nlinks(&b, &fs), 3);
}

#[test]
fn moving_is_refused() {
    let mut fs = new_fs(64);
    let root = root_of(&mut fs);
    let file = make(&root, &mut fs, "f", FileType::File);
    let dir = make(&root, &mut fs, "d", FileType::Dir);
    let gone = make(&root, &mut fs, "g", FileType::Dir);
    assert_eq!(root.unlink(&mut fs, "g"), Ok(()));
    assert_eq!(file.move_(&mut fs, "x", Some(&root), "y"), Err(FsError::NotDir));
    assert_eq!(gone.move_(&mut fs, "x", Some(&root), "y"), Err(FsError::DirRemoved));
    assert_eq!(root.move_(&mut fs, ".", Some(&root), "y"), Err(FsError::IsDir));
    assert_eq!(root.move_(&mut fs, "..", Some(&root), "y"), Err(FsError::IsDir));
    assert_eq!(root.move_(&mut fs, "f", None, "y"), Err(FsError::NotSameFs));
    assert_eq!(root.move_(&mut fs, "f", Some(&file), "y"), Err(FsError::NotDir));
    assert_eq!(root.move_(&mut fs, "f", Some(&gone), "y"), Err(FsError::DirRemoved));
    assert_eq!(root.move_(&mut fs, "f", Some(&root), "d"), Err(FsError::EntryExist));
    assert_eq!(root.move_(&mut fs, "x", Some(&dir), "y"), Err(FsError::EntryNotFound));
    assert_eq!(root.move_(&mut fs, "x", Some(&dir), ".."), Err(FsError::EntryExist));
    assert_eq!(list(&root, &fs), [".", "..", "f", "d"]);
    assert_eq!(list(&dir, &fs), [".", ".."]);
}

#[test]
fn creation_is_undone_by_removal() {
    let mut fs = new_fs(64);
    let root = root_of(&mut fs);
    make(&root, &mut fs, "keep", FileType::File);
    for type_ in [FileType::File, FileType::SymLink, FileType::Dir] {
        let free = fs.info().bfree;
        let inode = make(&root, &mut fs, "x", type_);
        let id = inode.number();
        assert_eq!(inode.drop(&mut fs), Ok(()));
        assert!(fs.in_use(id));
        assert_eq!(root.unlink(&mut fs, "x"), Ok(()));
        assert_eq!(fs.info().bfree, free);
        assert!(!fs.in_use(id));
        assert_eq!(list(&root, &fs), [".", "..", "keep"]);
        assert_eq!(nlinks(&root, &fs), 2);
    }
}

#[test]
fn a_directory_keeps_its_indirect_block() {
    let mut fs = new_fs(128);
    let root = root_of(&mut fs);
    for i in 0..9usize {
        let file = make(&root, &mut fs, &format!("f{}", i), FileType::File);
        assert_eq!(file.drop(&mut fs), Ok(()));
    }
    let free = fs.info().bfree;
    let file = make(&root, &mut fs, "f9", FileType::File);
    assert_eq!(fs.info().bfree, free - 3);
    assert_eq!(file.drop(&mut fs), Ok(()));
    assert_eq!(root.unlink(&mut fs, "f9"), Ok(()));
    assert_eq!(fs.info().bfree, free - 1);
}

#[test]
fn a_directory_of_many_entries() {
    let mut fs = new_fs(256);
    let root = root_of(&mut fs);
    let mut ids = Vec::new();
    for i in 0..50usize {
        let file = make(&root, &mut fs, &format!("file{}", i), FileType::File);
        ids.push(file.number());
        assert_eq!(file.drop(&mut fs), Ok(()));
    }
    for i in (0..50usize).step_by(2) {
        assert_eq!(root.unlink(&mut fs, &format!("file{}", i)), Ok(()));
    }
    for i in 0..50usize {
        let expected = if i % 2 == 0 { None } else { Some(ids[i]) };
        assert_eq!(found(&root, &mut fs, &format!("file{}", i)), expected);
    }
    assert_eq!(root.metadata(&fs).unwrap().size, 27);
}

#[test]
fn long_names() {
    let mut fs = new_fs(64);
    let root = root_of(&mut fs);
    let name = "n".repeat(255);
    let file = make(&root, &mut fs, &name, FileType::File);
    assert_eq!(found(&root, &mut fs, &name), Some(file.number()));
    assert_eq!(found(&root, &mut fs, &"n".repeat(254)), None);
    assert_eq!(root.get_entry(&fs, 2), Ok(name));
}

#[test]
fn names_may_hold_any_characters() {
    let mut fs = new_fs(64);
    let root = root_of(&mut fs);
    let file = make(&root, &mut fs, "Größe 目录 🗂", FileType::File);
    assert_eq!(found(&root, &mut fs, "Größe 目录 🗂"), Some(file.number()));
    assert_eq!(root.get_entry(&fs, 2), Ok(String::from("Größe 目录 🗂")));
}

#[test]
fn a_zero_byte_ends_a_name() {
    let mut fs = new_fs(64);
    let root = root_of(&mut fs);
    let file = make(&root, &mut fs, "a\0b", FileType::File);
    assert_eq!(root.get_entry(&fs, 2), Ok(String::from("a")));
    assert_eq!(found(&root, &mut fs, "a\0b"), None);
    assert_eq!(found(&root, &mut fs, "a"), Some(file.number()));
}

#[test]
fn what_a_directory_can_take_is_told() {
    let mut fs = new_fs(16);
    let root = root_of(&mut fs);
    let file = make(&root, &mut fs, "f", FileType::File);
    let dir = make(&root, &mut fs, "d", FileType::Dir);
    assert_eq!(fs.info().bfree, 5);
    let long = "n".repeat(256);
    assert_eq!(root.can_create(&fs, "x", FileType::Dir), Ok(true));
    assert_eq!(root.can_create(&fs, &long, FileType::File), Ok(false));
    assert_eq!(root.can_create(&fs, &long, FileType::Socket), Ok(true));
    assert_eq!(file.resize(&mut fs, 2 * 4096), Ok(()));
    assert_eq!(root.can_create(&fs, "x", FileType::Dir), Ok(false));
    assert_eq!(root.can_create(&fs, "d", FileType::Dir), Ok(true));
    assert_eq!(root.can_create(&fs, "x", FileType::File), Ok(true));
    assert_eq!(root.can_link(&fs, "x", &file), Ok(true));
    assert_eq!(root.can_link(&fs, &long, &file), Ok(false));
    assert_eq!(root.can_move(&fs, "f", &dir, "x"), Ok(true));
    assert_eq!(root.can_move(&fs, "f", &dir, &long), Ok(false));
    assert_eq!(root.can_unlink(&fs, "f"), Ok(true));
    assert_eq!(file.resize(&mut fs, 5 * 4096), Ok(()));
    assert_eq!(root.can_create(&fs, "x", FileType::File), Ok(true));
    assert_eq!(root.can_link(&fs, "x", &file), Ok(false));
    assert_eq!(root.can_move(&fs, "f", &dir, "x"), Ok(false));
    assert_eq!(root.can_move(&fs, "f", &root, "x"), Ok(true));
    assert_eq!(root.get_file_inode_id(&fs, "f"), Ok(Some(file.number())));
    assert_eq!(root.get_file_inode_id(&fs, "x"), Ok(None));
}

fn sorted(mut names: Vec<String>) -> Vec<String> {
    names.sort();
    names
}

#[test]
fn moving_there_and_back() {
    let mut fs = new_fs(128);
    let root = root_of(&mut fs);
    let dir = make(&root, &mut fs, "dir", FileType::Dir);
    make(&root, &mut fs, "a", FileType::File);
    make(&root, &mut fs, "sub", FileType::Dir);
    make(&root, &mut fs, "z", FileType::File);
    make(&dir, &mut fs, "in", FileType::File);
    let here = list(&root, &fs);
    let there = list(&dir, &fs);
    let state = |fs: &Fs| (nlinks(&root, fs), nlinks(&dir, fs), fs.info());
    let before = state(&fs);
    for name in ["a", "sub", "z"] {
        let id = found(&root, &mut fs, name);
        assert_eq!(root.move_(&mut fs, name, Some(&dir), "moved"), Ok(()));
        assert_eq!(found(&root, &mut fs, name), None);
        assert_eq!(found(&dir, &mut fs, "moved"), id);
        assert_eq!(dir.move_(&mut fs, "moved", Some(&root), name), Ok(()));
        assert_eq!(found(&root, &mut fs, name), id);
        assert_eq!(sorted(list(&root, &fs)), sorted(here.clone()));
        assert_eq!(list(&dir, &fs), there);
        assert_eq!(state(&fs), before);
    }
}

#[test]
fn names_stay_distinct() {
    let mut fs = new_fs(256);
    let root = root_of(&mut fs);
    let dir = make(&root, &mut fs, "dir", FileType::Dir);
    let mut handles = Vec::new();
    for step in 0..60usize {
        let name = format!("n{}", step * 7 % 11);
        let other = format!("n{}", step * 5 % 11);
        let here = if step % 2 == 0 { &root } else { &dir };
        match step % 4 {
            0 | 1 => {
                if let Ok(h) = here.create(&mut fs, &name, FileType::File, 0) {
                    handles.push(h);
                }
            }
            2 => {
                let _ = here.move_(&mut fs, &name, Some(&dir), &other);
            }
            _ => {
                if let Some(h) = handles.last() {
                    let _ = here.link(&mut fs, &other, Some(h));
                }
                if step % 3 == 0 {
                    let _ = here.unlink(&mut fs, &name);
                }
            }
        }
        for d in [&root, &dir] {
            let mut names = sorted(list(d, &fs));
            let all = names.len();
            names.dedup();
            assert_eq!(names.len(), all);
        }
    }
    assert!(list(&root, &fs).len() > 3);
    assert!(list(&dir, &fs).len() > 3);
}

#[test]
fn creating_writing_and_removing_leaves_no_trace() {
    let mut fs = new_fs(128);
    let root = root_of(&mut fs);
    make(&root, &mut fs, "kept", FileType::File);
    let info = fs.info();
    let names = list(&root, &fs);
    let file = make(&root, &mut fs, "f", FileType::File);
    assert_eq!(file.write_at(&mut fs, 3, &vec![7u8; 90_000]), Ok(90_000));
    assert_eq!(file.resize(&mut fs, 70_000), Ok(()));
    assert_eq!(file.write_at(&mut fs, 100_000, b"end"), Ok(3));
    assert!(fs.info().bfree < info.bfree - 24);
    assert_eq!(root.unlink(&mut fs, "f"), Ok(()));
    assert_eq!(list(&root, &fs), names);
    assert_eq!(file.drop(&mut fs), Ok(()));
    assert_eq!(fs.info(), info);
}

#[test]
fn what_can_be_reached() {
    let mut fs = new_fs(128);
    let root = root_of(&mut fs);
    assert_eq!(fs.is_reachable(1), Ok(true));
    assert_eq!(fs.is_reachable(2), Ok(false));
    let dir = make(&root, &mut fs, "dir", FileType::Dir);
    let sub = make(&dir, &mut fs, "sub", FileType::Dir);
    for i in 0..15 {
        make(&sub, &mut fs, &format!("f{}", i), FileType::File);
    }
    let last = make(&sub, &mut fs, "last", FileType::File);
    let (dir_id, sub_id, last_id) = (dir.number(), sub.number(), last.number());
    for id in [dir_id, sub_id, last_id] {
        assert!(fs.is_held(id));
        assert_eq!(fs.is_reachable(id), Ok(true));
    }
    assert_eq!(last.drop(&mut fs), Ok(()));
    assert_eq!(sub.drop(&mut fs), Ok(()));
    assert!(!fs.is_held(last_id));
    assert_eq!(fs.is_reachable(last_id), Ok(true));
    assert_eq!(fs.is_reachable(40_000), Ok(false));
    // What has no name left is held, not reached.
    let lone = make(&root, &mut fs, "lone", FileType::Dir);
    assert_eq!(root.unlink(&mut fs, "lone"), Ok(()));
    assert!(fs.is_held(lone.number()));
    assert_eq!(fs.is_reachable(lone.number()), Ok(false));
    assert_eq!(found(&lone, &mut fs, ".."), Some(1));
}

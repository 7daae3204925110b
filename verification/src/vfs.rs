//! What a file system shows to its callers.

use vstd::prelude::*;

use crate::structs;

verus! {

/// Why an operation failed.
#[derive(Debug, Copy, Clone, PartialEq, Eq, Structural)]
pub enum FsError {
    /// the operation is for files and symbolic links
    NotFile,
    /// the operation is not for directories
    IsDir,
    /// the operation is for directories
    NotDir,
    /// no entry of that name
    EntryNotFound,
    /// an entry of that name exists
    EntryExist,
    /// the inode belongs to another file system
    NotSameFs,
    /// an argument is out of range
    InvalidParam,
    /// no free block is left
    NoDeviceSpace,
    /// the directory has been removed
    DirRemoved,
    /// the directory has entries
    DirNotEmpty,
    /// the device holds another file system
    WrongFs,
    /// the device did not serve a transfer in full
    DeviceError,
}

/// Type of a file.
#[derive(Debug, Copy, Clone, PartialEq, Eq, Structural)]
pub enum FileType {
    File,
    Dir,
    SymLink,
    CharDevice,
    BlockDevice,
    NamedPipe,
    Socket,
}

impl FileType {
    /// The type of an inode on disk, seen from outside. `Invalid` has no counterpart.
    pub fn from(t: structs::FileType) -> (r: FileType)
        requires
            t != structs::FileType::Invalid,
        ensures
            r == outer_type(t),
    {
        match t {
            structs::FileType::File => FileType::File,
            structs::FileType::SymLink => FileType::SymLink,
            _ => FileType::Dir,
        }
    }
}

/// The type of an inode on disk, seen from outside.
pub open spec fn outer_type(t: structs::FileType) -> FileType {
    match t {
        structs::FileType::File => FileType::File,
        structs::FileType::SymLink => FileType::SymLink,
        _ => FileType::Dir,
    }
}

/// A point in time.
#[derive(Debug, Copy, Clone, PartialEq, Eq, Structural)]
pub struct Timespec {
    pub sec: i64,
    pub nsec: i32,
}

/// What is known of a file.
#[derive(Debug, Copy, Clone, PartialEq, Eq, Structural)]
pub struct Metadata {
    /// device number
    pub dev: usize,
    /// inode number
    pub inode: usize,
    /// size in bytes; for a directory the number of entries
    pub size: usize,
    /// size of a block
    pub blk_size: usize,
    /// number of blocks
    pub blocks: usize,
    pub atime: Timespec,
    pub mtime: Timespec,
    pub ctime: Timespec,
    /// type of the file
    pub type_: FileType,
    /// permission bits
    pub mode: u16,
    /// number of hard links
    pub nlinks: usize,
    pub uid: usize,
    pub gid: usize,
}

/// What is known of a file system.
#[derive(Debug, Copy, Clone, PartialEq, Eq, Structural)]
pub struct FsInfo {
    /// size of a block
    pub bsize: usize,
    /// size of a fragment
    pub frsize: usize,
    /// number of blocks
    pub blocks: usize,
    /// number of free blocks
    pub bfree: usize,
    /// number of free blocks for ordinary users
    pub bavail: usize,
    /// number of inodes
    pub files: usize,
    /// number of free inodes
    pub ffree: usize,
    /// longest file name
    pub namemax: usize,
}

/// Files, directories and symbolic links keep their type when they are shown.
pub proof fn law_shown_type(t: structs::FileType, r: FileType)
    requires
        t != structs::FileType::Invalid,
        call_ensures(FileType::from, (t,), r),
    ensures
        r == FileType::File <==> t == structs::FileType::File,
        r == FileType::Dir <==> t == structs::FileType::Dir,
        r == FileType::SymLink <==> t == structs::FileType::SymLink,
{
}

} // verus!

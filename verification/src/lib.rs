//! A simple file system on a block device.

pub mod calls;
pub mod codec;
pub mod device;
pub mod dir;
pub mod dirty;
pub mod entries;
pub mod freemap;
pub mod fs;
pub mod inode;
pub mod laws;
pub mod layout;
pub mod listing;
pub mod model;
pub mod names;
pub mod naming;
pub mod ops;
pub mod reach;
pub mod states;
pub mod storage;
pub mod structs;
pub mod tree;
pub mod util;
pub mod vfs;

# simplefs

A simple file system on a block device, written and proved in Verus.

The device is cut into blocks of 4096 bytes. Block 0 holds the superblock, block 1 the inode of the
root directory, block 2 the map of free blocks. An inode lies in a block of its own and names the
blocks of its file: twelve directly, the others through one indirect block. A directory has one block
for each of its entries; the first two are for itself and its parent.

## Layout

- `src/codec.rs`, `src/names.rs`, `src/structs.rs`: what is stored, as bytes.
- `src/device.rs`: devices, and a device in memory.
- `src/freemap.rs`: the map of free blocks, on top of `bitvec`.
- `src/dirty.rs`, `src/util.rs`, `src/vfs.rs`: small parts and the types that callers see.
- `src/model.rs`: the parts of a mounted file system and when they fit together; the files that they
  make up.
- `src/tree.rs`: directories and links, and when they fit together.
- `src/fs.rs`: the mounted file system.
- `src/inode.rs`, `src/dir.rs`: blocks of a file, entries of a directory.
- `src/ops.rs`, `src/entries.rs`: what can be done with files and with entries.
- `src/reach.rs`: which files can be reached from the root directory.
- `src/laws.rs`: what holds of the file system as a whole.
- `src/storage.rs`: keys, modes and outcomes of storage that an enclave protects.
- `app/`: handles that share a file system, the locks and the protected files of an enclave.

## Contracts

The contracts speak of two views of a mounted file system. `raw()` is its parts: superblock, free
map, inodes in memory, blocks of the device. `tree()` is its files. `wf()` says that both are in
order; every operation keeps it. A device that does not serve a transfer in full makes an operation
fail with `DeviceError`, after which nothing is said of the files; only when the superblock and the
free map are written back, how much of them the device took is not looked at. An operation that is
refused for another reason, or that has nothing to write, leaves the device as it was.

What an operation asks for beyond that, such as room on the device, is told by a query: `can_create`
for `create`, and so on. Looking for the parent of a directory asks that the parent is still there:
a directory that has been moved keeps its entry for the old one. It is there if `is_held` or
`is_reachable` says so.

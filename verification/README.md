# mydisk

Layered file-system stores for a small teaching kernel, verified with Verus.

Every layer keeps, for each inode, a sequence of blocks, read and written a block at a
time over the layer below it. The interface a disk offers to the layers above is
`common::Stackable`; the in-memory disk and the kernel's disk implement it, and the
file systems offer the same operations as methods of their own.

- `src/common.rs`: blocks, errors, the layer interface, little-endian helpers.
- `src/ramdisk.rs`: an in-memory disk of 32 blocks.
- `src/fat.rs`: a FAT file system: superblock with the free-list head, inode table,
  allocation table; contracts over the files it holds (`FsView`).
- `src/simplefs.rs`: each inode owns an equal run of the disk; a row per inode
  records how many blocks are written.
- `src/treedisk.rs` and `src/treeview.rs`: a tree store: each inode is a tree of
  indirect blocks, free blocks are kept in a linked list of free-list blocks.
  `treeview` defines when a store is sound (every block serves one place) and what it
  holds, and proves that writes keep it sound and change only the written block.
- `src/clock.rs`: a write-back block cache with clock replacement over a store.
- `src/sd_driver.rs`: an SD card driver that queues its calls on a bounded queue.
- `src/upcalls.rs`: the decisions of an event loop with two upcalls.

`app/` holds what stays outside verification: the C interface (`inode_store_t`), the
disk handed in by the kernel, interrupt setup, and the event loop itself.

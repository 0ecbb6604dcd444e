//! A FAT file system layered over a disk.
//!
//! Disk layout (block numbers on the disk below, inode 0 of it):
//! block 0 is the superblock (the head of the free list), then the inode table
//! (8 bytes per inode: the first data block and the number of blocks, as
//! little-endian `i32`, `-1` meaning unset), then the FAT (4 bytes per data block:
//! the next data block of the file, `-1` ending a file), then the data blocks.
use vstd::prelude::*;

use crate::common::{
    block_sized, lemma_le_window, le_bytes, le_i32_at, le_u32_at, lemma_i32_bits, lemma_le_splice, read_i32_le, splice,
    write_u32_le, zero_block, Block, Error, IsDisk, Stackable, BLOCK_SIZE,
};

verus! {

/// Width in bytes of the superblock's free-list head.
pub const SUPERBLOCK_WIDTH: usize = 4;

/// Width in bytes of one inode table entry.
pub const INODE_TABLE_ENTRY_WIDTH: usize = 8;

/// Width in bytes of one FAT entry.
pub const FAT_TABLE_ENTRY_WIDTH: usize = 4;

/// The FAT value that ends a file.
pub const NULL_POINTER: i32 = -1;

/// Number of blocks taken by the superblock.
pub const SUPERBLOCK_BLOCK_SIZE: u32 = 1;

/// In-memory copy of the superblock: the free-list head (`-1` when nothing is left).
pub struct Superblock {
    pub fat_head_value: i32,
    pub disk_block_index: u32,
}

/// Where the inode table lies on the disk.
pub struct InodeTable {
    pub num_blocks: u32,
    pub disk_block_index: u32,
}

/// Where the FAT lies on the disk.
pub struct FatTable {
    pub num_blocks: u32,
    pub disk_block_index: u32,
}

/// In-memory snapshot of a FAT file system over the disk `below`.
pub struct FS<T: Stackable> {
    pub below: T,
    pub below_ino: u32,
    pub num_inodes: u32,
    pub num_data_blocks: u32,
    pub superblock: Superblock,
    pub inode_table: InodeTable,
    pub fat_table: FatTable,
}

/// `a / b` rounded up.
pub open spec fn ceil_div(a: int, b: int) -> int {
    (a + b - 1) / b
}

/// Blocks needed by the inode table of `num_inodes` inodes.
pub open spec fn inode_table_blocks(num_inodes: int) -> int {
    ceil_div(num_inodes * INODE_TABLE_ENTRY_WIDTH, BLOCK_SIZE as int)
}

/// Blocks needed by the FAT of a disk of `disk` blocks with an inode table of `it`
/// blocks: the least `y` with `y >= (4 * disk - 4 * it - 4) / 516`.
pub open spec fn fat_table_blocks(disk: int, it: int) -> int {
    ceil_div(4 * disk - 4 * it - 4, 516)
}

/// The free-list head recorded in the superblock, the first block of `disk`.
pub open spec fn stored_head(disk: Seq<Seq<i8>>) -> i32 {
    le_i32_at(disk[0], 0)
}

/// The disk sizes and inode counts on which a file system can be laid out and opened.
pub open spec fn geometry_ok(disk: int, num_inodes: int) -> bool {
    let it = inode_table_blocks(num_inodes);
    &&& 0 <= num_inodes
    &&& num_inodes * 8 <= u32::MAX
    &&& disk >= it + 1
    &&& 4 * disk <= u32::MAX
    &&& disk > fat_table_blocks(disk, it) + 1 + it
}

/// The disk sizes and inode counts on which a file system can be laid out.
pub open spec fn format_ok(disk: int, num_inodes: int) -> bool {
    &&& 0 <= num_inodes
    &&& num_inodes * 8 <= u32::MAX
    &&& disk >= inode_table_blocks(num_inodes) + 1
    &&& 4 * disk <= u32::MAX
}

proof fn lemma_fat_table_fits(disk: int, it: int)
    requires
        disk >= it + 1,
        it >= 0,
    ensures
        0 <= fat_table_blocks(disk, it) <= disk - 1 - it,
        4 * (disk - 1 - it - fat_table_blocks(disk, it)) <= 512 * fat_table_blocks(disk, it),
        128 * fat_table_blocks(disk, it) <= disk + 128,
{
    let x = disk - 1 - it;
    let y = fat_table_blocks(disk, it);
    assert(y == (4 * x + 515) / 516);
    assert(516 * y <= 4 * x + 515 && 4 * x + 515 < 516 * y + 516) by (nonlinear_arith)
        requires
            y == (4 * x + 515) / 516,
            x >= 0,
    ;
}

proof fn lemma_inode_table_fits(num_inodes: int)
    requires
        num_inodes >= 0,
    ensures
        0 <= inode_table_blocks(num_inodes),
        8 * num_inodes <= 512 * inode_table_blocks(num_inodes),
{
    let y = inode_table_blocks(num_inodes);
    assert(y == (8 * num_inodes + 511) / 512);
}

impl<T: Stackable> FS<T> {
    /// The disk below, as seen through inode 0.
    pub open spec fn disk(&self) -> Seq<Seq<i8>> {
        self.below.blocks(0)
    }

    /// First disk block of the data area.
    pub open spec fn data_start(&self) -> int {
        self.fat_table.disk_block_index + self.fat_table.num_blocks
    }

    /// Well-formedness: the layout matches the disk and the disk is reliable.
    pub open spec fn wf(&self) -> bool {
        let a = self.disk().len() as int;
        let n = self.num_inodes as int;
        let it = self.inode_table.num_blocks as int;
        let ft = self.fat_table.num_blocks as int;
        &&& self.below.inv()
        &&& self.below.reliable()
        &&& geometry_ok(a, n)
        &&& self.superblock.disk_block_index == 0
        &&& self.inode_table.disk_block_index == SUPERBLOCK_BLOCK_SIZE
        &&& it == inode_table_blocks(n)
        &&& self.fat_table.disk_block_index == SUPERBLOCK_BLOCK_SIZE + it
        &&& ft == fat_table_blocks(a, it)
        &&& self.num_data_blocks == a - (ft + 1 + it)
        &&& 8 * n <= 512 * it
        &&& 4 * (self.num_data_blocks as int) <= 512 * ft
        &&& block_sized(self.disk())
    }

    /// Returns the number of blocks needed for the inode table.
    pub fn calc_inode_table(num_inodes: u32) -> (r: u32)
        requires
            num_inodes * INODE_TABLE_ENTRY_WIDTH <= u32::MAX,
        ensures
            r == inode_table_blocks(num_inodes as int),
    {
        let total_bytes_needed_for_inode_table = num_inodes * INODE_TABLE_ENTRY_WIDTH as u32;
        let q = total_bytes_needed_for_inode_table / BLOCK_SIZE as u32;
        if total_bytes_needed_for_inode_table % BLOCK_SIZE as u32 == 0 {
            q
        } else {
            q + 1
        }
    }

    /// Returns the number of blocks on the disk.
    pub fn calc_num_blocks_of_disk(below: &mut T) -> (r: Result<u32, Error>)
        requires
            old(below).inv(),
        ensures
            *final(below) == *old(below),
            r is Ok ==> r->Ok_0 == old(below).blocks(0).len(),
            old(below).reliable() && old(below).blocks(0).len() > 0 ==> r is Ok,
    {
        let num_blocks_of_disk = below.get_size(0)?;
        Ok(num_blocks_of_disk)
    }

    /// Returns the number of data blocks left once the tables are laid out, or
    /// `DiskTooSmall` when none is left.
    pub fn calc_number_of_total_data_blocks(
        num_blocks_needed_for_fat_table: u32,
        num_blocks_for_superblock: u32,
        num_blocks_needed_for_inode_table: u32,
        num_blocks_of_disk: u32,
    ) -> (r: Result<u32, Error>)
        requires
            num_blocks_needed_for_fat_table + num_blocks_for_superblock
                + num_blocks_needed_for_inode_table <= u32::MAX,
        ensures
            ({
                let used = num_blocks_needed_for_fat_table + num_blocks_for_superblock
                    + num_blocks_needed_for_inode_table;
                if num_blocks_of_disk <= used {
                    r == Err::<u32, Error>(Error::DiskTooSmall)
                } else {
                    r == Ok::<u32, Error>((num_blocks_of_disk - used) as u32)
                }
            }),
    {
        if num_blocks_of_disk <= num_blocks_needed_for_fat_table + num_blocks_for_superblock
            + num_blocks_needed_for_inode_table {
            return Err(Error::DiskTooSmall);
        } else {
            return Ok(
                num_blocks_of_disk - (num_blocks_needed_for_fat_table + num_blocks_for_superblock
                    + num_blocks_needed_for_inode_table),
            );
        }
    }

    /// Returns the number of blocks needed for the FAT: with `x` data blocks and `y`
    /// FAT blocks, `x = disk - it - 1 - y` and `y = 4x / 512`, so `y = (4 disk - 4 it - 4) / 516`
    /// rounded up.
    pub fn calc_fat_table(
        num_blocks_of_disk: u32,
        num_blocks_needed_for_inode_table: u32,
        num_blocks_for_superblock: u32,
    ) -> (r: u32)
        requires
            num_blocks_for_superblock >= 1,
            num_blocks_of_disk >= num_blocks_needed_for_inode_table + num_blocks_for_superblock,
            4 * num_blocks_of_disk <= u32::MAX,
        ensures
            r == fat_table_blocks(num_blocks_of_disk as int, num_blocks_needed_for_inode_table as int),
    {
        let numerator: u32 = (4 * num_blocks_of_disk) - (4 * num_blocks_needed_for_inode_table) - 4;
        let q = numerator / 516;
        if numerator % 516 == 0 {
            q
        } else {
            q + 1
        }
    }

    /// Computes the layout from the disk's size and keeps it in memory, together with
    /// the free-list head recorded in the superblock; the disk is expected to have been
    /// laid out by `setup_disk` with the same arguments.
    pub fn new(below: T, below_ino: u32, num_inodes: u32) -> (fs: Self)
        requires
            below.inv(),
            below.reliable(),
            block_sized(below.blocks(0)),
            geometry_ok(below.blocks(0).len() as int, num_inodes as int),
        ensures
            fs.wf(),
            fs.below == below,
            fs.below_ino == below_ino,
            fs.num_inodes == num_inodes,
            fs.superblock.fat_head_value == stored_head(below.blocks(0)),
            fs.superblock.disk_block_index == 0,
            fs.inode_table.num_blocks == inode_table_blocks(num_inodes as int),
            fs.inode_table.disk_block_index == SUPERBLOCK_BLOCK_SIZE,
            fs.fat_table.num_blocks == fat_table_blocks(
                below.blocks(0).len() as int,
                inode_table_blocks(num_inodes as int),
            ),
            fs.fat_table.disk_block_index == SUPERBLOCK_BLOCK_SIZE + inode_table_blocks(
                num_inodes as int,
            ),
    {
        let mut below = below;
        let num_blocks_inode_table = Self::calc_inode_table(num_inodes);
        let num_blocks_superblock: u32 = 1;
        let num_blocks_of_disk = match Self::calc_num_blocks_of_disk(&mut below) {
            Ok(ans) => ans,
            Err(e) => 0,
        };
        proof {
            lemma_inode_table_fits(num_inodes as int);
            lemma_fat_table_fits(num_blocks_of_disk as int, num_blocks_inode_table as int);
        }
        let num_blocks_fat_table = Self::calc_fat_table(
            num_blocks_of_disk,
            num_blocks_inode_table,
            num_blocks_superblock,
        );
        let num_data_blocks = match Self::calc_number_of_total_data_blocks(
            num_blocks_fat_table,
            SUPERBLOCK_BLOCK_SIZE,
            num_blocks_inode_table,
            num_blocks_of_disk,
        ) {
            Ok(n) => n,
            Err(_) => 0,
        };
        let mut block = Block::new();
        let fat_head_value = match below.read(0, 0, &mut block) {
            Ok(_) => read_i32_le(&block, 0),
            Err(_) => 0,
        };
        FS {
            below: below,
            below_ino: below_ino,
            num_inodes: num_inodes,
            num_data_blocks: num_data_blocks,
            superblock: Superblock { fat_head_value: fat_head_value, disk_block_index: 0 },
            inode_table: InodeTable {
                num_blocks: num_blocks_inode_table,
                disk_block_index: SUPERBLOCK_BLOCK_SIZE,
            },
            fat_table: FatTable {
                num_blocks: num_blocks_fat_table,
                disk_block_index: SUPERBLOCK_BLOCK_SIZE + num_blocks_inode_table,
            },
        }
    }
}

/// An entry of index `j < count` lies inside a table of `blocks` blocks of
/// 4-byte entries when `4 * count <= 512 * blocks`.
proof fn lemma_entry_in_table(j: int, count: int, blocks: int)
    requires
        0 <= j < count,
        4 * count <= 512 * blocks,
    ensures
        (j * 4) / 512 < blocks,
        j * 4 <= 4 * count,
{
}

impl<T: Stackable> FS<T> {
    /// Disk block holding the inode table entry of `ino`.
    pub open spec fn inode_block(&self, ino: int) -> int {
        self.inode_table.disk_block_index + (ino * INODE_TABLE_ENTRY_WIDTH) / (BLOCK_SIZE as int)
    }

    /// Byte offset of the inode table entry of `ino` inside its block.
    pub open spec fn inode_byte(ino: int) -> int {
        (ino * INODE_TABLE_ENTRY_WIDTH) % (BLOCK_SIZE as int)
    }

    /// Disk block holding the FAT entry of data block `j`.
    pub open spec fn fat_block(&self, j: int) -> int {
        self.fat_table.disk_block_index + (j * FAT_TABLE_ENTRY_WIDTH) / (BLOCK_SIZE as int)
    }

    /// Byte offset of the FAT entry of data block `j` inside its block.
    pub open spec fn fat_byte(j: int) -> int {
        (j * FAT_TABLE_ENTRY_WIDTH) % (BLOCK_SIZE as int)
    }

    /// First data block of `ino`, as stored in the inode table.
    pub open spec fn head_of(&self, ino: int) -> i32 {
        le_i32_at(self.disk()[self.inode_block(ino)], Self::inode_byte(ino))
    }

    /// Number of blocks of `ino`, as stored in the inode table.
    pub open spec fn size_of(&self, ino: int) -> i32 {
        le_i32_at(self.disk()[self.inode_block(ino)], Self::inode_byte(ino) + 4)
    }

    /// The FAT entry of data block `j`.
    pub open spec fn fat_next(&self, j: int) -> i32 {
        le_i32_at(self.disk()[self.fat_block(j)], Self::fat_byte(j))
    }

    /// The inode table entry of `ino` lies on the disk and its byte offset fits a `u32`.
    pub open spec fn inode_addressable(&self, ino: int) -> bool {
        &&& 0 <= ino
        &&& ino * INODE_TABLE_ENTRY_WIDTH <= u32::MAX
        &&& self.inode_block(ino) < self.disk().len()
    }

    /// The FAT entry of `j` lies on the disk and its byte offset fits a `u32`.
    pub open spec fn fat_addressable(&self, j: int) -> bool {
        &&& 0 <= j
        &&& j * FAT_TABLE_ENTRY_WIDTH <= u32::MAX
        &&& self.fat_block(j) < self.disk().len()
    }

    /// The two snapshots agree on everything but the disk and the free-list head.
    pub open spec fn same_layout(&self, other: &Self) -> bool {
        &&& self.below_ino == other.below_ino
        &&& self.num_inodes == other.num_inodes
        &&& self.num_data_blocks == other.num_data_blocks
        &&& self.superblock.disk_block_index == other.superblock.disk_block_index
        &&& self.inode_table == other.inode_table
        &&& self.fat_table == other.fat_table
    }

    /// Return the block number and offset inside the block within the inode table.
    /// Does not account for the true disk block offset.
    pub fn calc_inode_table_indices(ino: u32) -> (r: (u32, u32))
        requires
            ino * INODE_TABLE_ENTRY_WIDTH <= u32::MAX,
        ensures
            r.0 == (ino * INODE_TABLE_ENTRY_WIDTH) / (BLOCK_SIZE as int),
            r.1 == Self::inode_byte(ino as int),
    {
        let start_byte = ino * INODE_TABLE_ENTRY_WIDTH as u32;
        let inner_block_num = start_byte / BLOCK_SIZE as u32;
        let start_byte_within_block = start_byte % BLOCK_SIZE as u32;
        return (inner_block_num, start_byte_within_block);
    }

    /// Return the block number and offset inside the block within the FAT.
    /// Does not account for the true disk block offset.
    pub fn calc_fat_table_indices(idx: u32) -> (r: (u32, u32))
        requires
            idx * FAT_TABLE_ENTRY_WIDTH <= u32::MAX,
        ensures
            r.0 == (idx * FAT_TABLE_ENTRY_WIDTH) / (BLOCK_SIZE as int),
            r.1 == Self::fat_byte(idx as int),
    {
        let start_byte = idx * FAT_TABLE_ENTRY_WIDTH as u32;
        let inner_block_num = start_byte / BLOCK_SIZE as u32;
        let start_byte_within_block = start_byte % BLOCK_SIZE as u32;
        return (inner_block_num, start_byte_within_block);
    }

    /// Return the next data block after data block `idx` in the FAT (`-1` for a
    /// negative `idx`).
    pub fn get_fat_table_info(&mut self, idx: i32) -> (r: i32)
        requires
            old(self).wf(),
            idx < 0 || old(self).fat_addressable(idx as int),
        ensures
            *final(self) == *old(self),
            r == (if idx < 0 {
                NULL_POINTER
            } else {
                old(self).fat_next(idx as int)
            }),
    {
        if idx < 0 {
            return NULL_POINTER;
        }
        let (inner_block_num, start_byte_within_block) = Self::calc_fat_table_indices(idx as u32);
        let mut block = Block::new();
        let _ = self.below.read(0, self.fat_table.disk_block_index + inner_block_num, &mut block);
        let next = read_i32_le(&block, start_byte_within_block as usize);
        if next == NULL_POINTER {
            return NULL_POINTER;
        }
        return next;
    }

    /// Update the FAT entry of data block `idx` to `next`.
    pub fn update_fat_table_info(&mut self, idx: u32, next: i32)
        requires
            old(self).wf(),
            old(self).fat_addressable(idx as int),
        ensures
            final(self).wf(),
            final(self).same_layout(old(self)),
            final(self).superblock == old(self).superblock,
            final(self).disk() == old(self).disk().update(
                old(self).fat_block(idx as int),
                splice(
                    old(self).disk()[old(self).fat_block(idx as int)],
                    Self::fat_byte(idx as int),
                    le_bytes(next as u32),
                ),
            ),
    {
        let (inner_block_num, start_byte_within_block) = Self::calc_fat_table_indices(idx);
        let mut block = Block::new();
        let _ = self.below.read(0, self.fat_table.disk_block_index + inner_block_num, &mut block);
        write_u32_le(&mut block, start_byte_within_block as usize, next as u32);
        let _ = self.below.write(0, self.fat_table.disk_block_index + inner_block_num, &block);
    }

    /// Return the first data block and the number of blocks of `ino`.
    pub fn get_inode_info(&mut self, ino: u32) -> (r: Result<(i32, i32), Error>)
        requires
            old(self).wf(),
            old(self).inode_addressable(ino as int),
        ensures
            *final(self) == *old(self),
            r == Ok::<(i32, i32), Error>((old(self).head_of(ino as int), old(self).size_of(ino as int))),
    {
        let (inner_block_num, start_byte_within_block) = Self::calc_inode_table_indices(ino);
        let mut block = Block::new();
        let _ = self.below.read(0, self.inode_table.disk_block_index + inner_block_num, &mut block);
        let beg = start_byte_within_block as usize;
        let end = start_byte_within_block as usize + SUPERBLOCK_WIDTH;
        let head = read_i32_le(&block, beg);
        let size = read_i32_le(&block, end);
        return Ok((head, size));
    }

    /// Set the first data block and the number of blocks of `ino`.
    pub fn update_inode_info(&mut self, ino: u32, head: u32, size: u32)
        requires
            old(self).wf(),
            old(self).inode_addressable(ino as int),
        ensures
            final(self).wf(),
            final(self).same_layout(old(self)),
            final(self).superblock == old(self).superblock,
            final(self).disk() == old(self).disk().update(
                old(self).inode_block(ino as int),
                splice(
                    splice(
                        old(self).disk()[old(self).inode_block(ino as int)],
                        Self::inode_byte(ino as int),
                        le_bytes(head),
                    ),
                    Self::inode_byte(ino as int) + 4,
                    le_bytes(size),
                ),
            ),
    {
        let (inner_block_num, start_byte_within_block) = Self::calc_inode_table_indices(ino);
        let mut block = Block::new();
        let _ = self.below.read(0, self.inode_table.disk_block_index + inner_block_num, &mut block);
        let beg = start_byte_within_block as usize;
        let end = start_byte_within_block as usize + SUPERBLOCK_WIDTH;
        write_u32_le(&mut block, beg, head);
        write_u32_le(&mut block, end, size);
        let _ = self.below.write(0, self.inode_table.disk_block_index + inner_block_num, &block);
    }

    /// The free-list head after `cur` is handed out.
    pub open spec fn next_free_head(&self, cur: i32) -> i32 {
        if cur < 0 {
            NULL_POINTER
        } else {
            self.fat_next(cur as int)
        }
    }

    /// Hands out the head of the free list, advancing the head to its FAT entry and
    /// storing the new head in the superblock. Fails with `UnknownFailure` when the head
    /// is `-1` and with `OutOfSpace` when it lies past the data area.
    pub fn get_and_update_superblock(&mut self) -> (r: Result<u32, Error>)
        requires
            old(self).wf(),
        ensures
            final(self).wf(),
            final(self).same_layout(old(self)),
            ({
                let cur = old(self).superblock.fat_head_value;
                if cur == NULL_POINTER {
                    r == Err::<u32, Error>(Error::UnknownFailure) && *final(self) == *old(self)
                } else if cur >= old(self).num_data_blocks {
                    r == Err::<u32, Error>(Error::OutOfSpace) && *final(self) == *old(self)
                } else {
                    let new_head = old(self).next_free_head(cur);
                    &&& r == Ok::<u32, Error>(cur as u32)
                    &&& final(self).superblock.fat_head_value == new_head
                    &&& stored_head(final(self).disk()) == new_head
                    &&& final(self).disk() == old(self).disk().update(
                        0,
                        splice(old(self).disk()[0], 0, le_bytes(new_head as u32)),
                    )
                }
            }),
    {
        let cur_head = self.superblock.fat_head_value;
        if cur_head == NULL_POINTER {
            return Err(Error::UnknownFailure);
        } else if cur_head >= self.num_data_blocks as i32 {
            return Err(Error::OutOfSpace);
        }
        let mut block = Block::new();
        let _ = self.below.read(0, 0, &mut block);
        proof {
            if cur_head >= 0 {
                lemma_entry_in_table(cur_head as int, self.num_data_blocks as int, self.fat_table.num_blocks as int);
            }
        }
        let new_head = self.get_fat_table_info(cur_head);
        proof {
            lemma_le_splice(block@, 0, new_head as u32);
            assert((new_head as u32) as i32 == new_head) by (bit_vector);
        }
        write_u32_le(&mut block, 0, new_head as u32);
        let _ = self.below.write(0, 0, &block);
        self.superblock.fat_head_value = new_head;
        Ok(cur_head as u32)
    }

    /// Number of blocks of `ino` as stored in its inode table entry; fails when the
    /// entry is unset.
    pub fn get_size(&mut self, ino: u32) -> (r: Result<u32, Error>)
        requires
            old(self).wf(),
            old(self).inode_addressable(ino as int),
        ensures
            *final(self) == *old(self),
            r == (if old(self).size_of(ino as int) <= -1 {
                Err::<u32, Error>(Error::UnknownFailure)
            } else {
                Ok::<u32, Error>(old(self).size_of(ino as int) as u32)
            }),
    {
        let (_, size) = self.get_inode_info(ino)?;
        if size <= -1 {
            return Err(Error::UnknownFailure);
        }
        return Ok(size as u32);
    }

    /// Overwrites the number of blocks stored in the inode table entry of `ino`, leaving
    /// its first data block and the FAT as they are.
    pub fn set_size(&mut self, ino: u32, size: u32) -> (r: Result<i32, Error>)
        requires
            old(self).wf(),
            old(self).inode_addressable(ino as int),
        ensures
            r is Ok,
            final(self).wf(),
            final(self).same_layout(old(self)),
            final(self).superblock == old(self).superblock,
            final(self).disk() == old(self).disk().update(
                old(self).inode_block(ino as int),
                splice(
                    old(self).disk()[old(self).inode_block(ino as int)],
                    Self::inode_byte(ino as int) + 4,
                    le_bytes(size),
                ),
            ),
    {
        let (inner_block_num, start_byte_within_block) = Self::calc_inode_table_indices(ino);
        let mut block = Block::new();
        let _ = self.below.read(0, self.inode_table.disk_block_index + inner_block_num, &mut block);
        let beg = start_byte_within_block as usize + SUPERBLOCK_WIDTH;
        write_u32_le(&mut block, beg, size);
        self.below.write(0, self.inode_table.disk_block_index + inner_block_num, &block)
    }
}

/// A block whose every byte is `-1`: inode table entries that are all unset.
pub open spec fn unset_block() -> Seq<i8> {
    Seq::new(BLOCK_SIZE as nat, |i: int| -1i8)
}

/// Block `k` of the initial FAT: entry `i` holds `128 k + i + 1`, so that every data
/// block is chained to the next.
pub open spec fn fat_init_block(k: int) -> Seq<i8> {
    Seq::new(BLOCK_SIZE as nat, |i: int| le_bytes((128 * k + i / 4 + 1) as u32)[i % 4])
}

/// The disk `d` once laid out for `num_inodes` inodes: a zero superblock, an inode
/// table of unset entries, and a FAT chaining every data block to the next; the data
/// area is left as it was.
pub open spec fn formatted(d: Seq<Seq<i8>>, num_inodes: int) -> Seq<Seq<i8>> {
    let it = inode_table_blocks(num_inodes);
    let ft = fat_table_blocks(d.len() as int, it);
    Seq::new(
        d.len(),
        |b: int|
            if b == 0 {
                zero_block()
            } else if b < 1 + it {
                unset_block()
            } else if b < 1 + it + ft {
                fat_init_block(b - 1 - it)
            } else {
                d[b]
            },
    )
}

proof fn lemma_unset_bytes()
    ensures
        le_bytes(0xffffffffu32) =~= seq![-1i8, -1i8, -1i8, -1i8],
{
    assert((0xffffffffu32 & 0xffu32) as u8 as i8 == -1i8) by (bit_vector);
    assert(((0xffffffffu32 >> 8u32) & 0xffu32) as u8 as i8 == -1i8) by (bit_vector);
    assert(((0xffffffffu32 >> 16u32) & 0xffu32) as u8 as i8 == -1i8) by (bit_vector);
    assert(((0xffffffffu32 >> 24u32) & 0xffu32) as u8 as i8 == -1i8) by (bit_vector);
}

fn unset_table_block() -> (b: Block)
    ensures
        b@ == unset_block(),
{
    let mut inode_table_data = Block::new();
    let minus_one: i32 = -1;
    let mut i: usize = 0;
    proof {
        lemma_unset_bytes();
        assert(minus_one as u32 == 0xffffffffu32) by (bit_vector)
            requires
                minus_one == -1i32,
        ;
    }
    while i < BLOCK_SIZE / SUPERBLOCK_WIDTH
        invariant
            i <= BLOCK_SIZE / SUPERBLOCK_WIDTH,
            minus_one as u32 == 0xffffffffu32,
            le_bytes(0xffffffffu32) =~= seq![-1i8, -1i8, -1i8, -1i8],
            inode_table_data@.len() == BLOCK_SIZE,
            forall|k: int|
                0 <= k < BLOCK_SIZE ==> #[trigger] inode_table_data@[k] == (if k < 4 * i {
                    -1i8
                } else {
                    0i8
                }),
        decreases BLOCK_SIZE / SUPERBLOCK_WIDTH - i,
    {
        write_u32_le(&mut inode_table_data, i * SUPERBLOCK_WIDTH, minus_one as u32);
        i = i + 1;
    }
    assert(inode_table_data@ =~= unset_block());
    inode_table_data
}

fn fat_table_init_block(k: u32) -> (b: Block)
    requires
        128 * k + 128 <= u32::MAX,
    ensures
        b@ == fat_init_block(k as int),
{
    let mut fat_table_data = Block::new();
    let end = BLOCK_SIZE / SUPERBLOCK_WIDTH;
    let mut i: usize = 0;
    while i < end
        invariant
            end == BLOCK_SIZE / SUPERBLOCK_WIDTH,
            i <= end,
            fat_table_data@.len() == BLOCK_SIZE,
            128 * k + 128 <= u32::MAX,
            forall|j: int|
                0 <= j < BLOCK_SIZE ==> #[trigger] fat_table_data@[j] == (if j < 4 * i {
                    le_bytes((128 * k + j / 4 + 1) as u32)[j % 4]
                } else {
                    0i8
                }),
        decreases end - i,
    {
        let v: u32 = 128 * k + i as u32 + 1;
        write_u32_le(&mut fat_table_data, i * SUPERBLOCK_WIDTH, v);
        assert forall|j: int| 4 * i <= j < 4 * i + 4 implies #[trigger] le_bytes((128 * k + j / 4 + 1) as u32) == le_bytes(v) by {
            assert(j / 4 == i);
        }
        i = i + 1;
    }
    assert(fat_table_data@ =~= fat_init_block(k as int));
    fat_table_data
}

impl<T: Stackable> FS<T> {
    /// Lays the file system out on `below`: a zero superblock, an inode table whose
    /// entries are all unset, and a FAT chaining every data block to the next. The
    /// first failure of the disk is passed on at once; a disk that does not fail is
    /// always laid out.
    pub fn setup_disk(below: &mut T, below_ino: u32, num_inodes: u32) -> (r: Result<i32, Error>)
        requires
            old(below).inv(),
            format_ok(old(below).blocks(0).len() as int, num_inodes as int),
        ensures
            final(below).inv(),
            old(below).reliable() ==> final(below).reliable() && r == Ok::<i32, Error>(0),
            r is Ok ==> r == Ok::<i32, Error>(0) && final(below).blocks(0) == formatted(
                old(below).blocks(0),
                num_inodes as int,
            ),
    {
        let ghost d0 = below.blocks(0);
        let ghost a = d0.len() as int;
        let ghost rel = below.reliable();
        let superblock_data = Block::new();
        below.write(0, 0, &superblock_data)?;
        let inode_table_data = unset_table_block();
        let num_blocks_needed_for_inode_table = Self::calc_inode_table(num_inodes);
        let ghost it = num_blocks_needed_for_inode_table as int;
        proof {
            lemma_fat_table_fits(a, it);
        }
        let beg = SUPERBLOCK_BLOCK_SIZE as usize;
        let end = (SUPERBLOCK_BLOCK_SIZE + num_blocks_needed_for_inode_table) as usize;
        let mut block_num = beg;
        while block_num < end
            invariant
                beg == 1,
                end == 1 + it,
                beg <= block_num <= end,
                end <= a,
                4 * a <= u32::MAX,
                it == inode_table_blocks(num_inodes as int),
                a == d0.len(),
                inode_table_data@ == unset_block(),
                below.inv(),
                rel == old(below).reliable(),
                rel ==> below.reliable(),
                below.blocks(0).len() == a,
                forall|b: int|
                    0 <= b < a ==> #[trigger] below.blocks(0)[b] == (if b == 0 {
                        zero_block()
                    } else if b < block_num {
                        unset_block()
                    } else {
                        d0[b]
                    }),
            decreases end - block_num,
        {
            below.write(0, block_num as u32, &inode_table_data)?;
            block_num = block_num + 1;
        }
        let num_blocks_of_disk = Self::calc_num_blocks_of_disk(below)?;
        let num_blocks_needed_for_fat_table = Self::calc_fat_table(
            num_blocks_of_disk,
            num_blocks_needed_for_inode_table,
            1,
        );
        let ghost ft = num_blocks_needed_for_fat_table as int;
        let beg = (SUPERBLOCK_BLOCK_SIZE + num_blocks_needed_for_inode_table) as usize;
        let end = (SUPERBLOCK_BLOCK_SIZE + num_blocks_needed_for_inode_table
            + num_blocks_needed_for_fat_table) as usize;
        let mut block_num = beg;
        while block_num < end
            invariant
                beg == 1 + it,
                end == 1 + it + ft,
                beg <= block_num <= end,
                end <= a,
                4 * a <= u32::MAX,
                128 * ft <= a + 128,
                it == inode_table_blocks(num_inodes as int),
                ft == fat_table_blocks(a, it),
                a == d0.len(),
                below.inv(),
                rel == old(below).reliable(),
                rel ==> below.reliable(),
                below.blocks(0).len() == a,
                forall|b: int|
                    0 <= b < a ==> #[trigger] below.blocks(0)[b] == (if b == 0 {
                        zero_block()
                    } else if b < 1 + it {
                        unset_block()
                    } else if b < block_num {
                        fat_init_block(b - 1 - it)
                    } else {
                        d0[b]
                    }),
            decreases end - block_num,
        {
            let fat_table_data = fat_table_init_block((block_num - beg) as u32);
            below.write(0, block_num as u32, &fat_table_data)?;
            block_num = block_num + 1;
        }
        assert(below.blocks(0) =~= formatted(d0, num_inodes as int));
        Ok(0)
    }
}

/// Lays the file system out on `below` (see `FS::setup_disk`); `-1` on failure.
pub fn fs_create_rs<T: Stackable + IsDisk>(below: &mut T, below_ino: u32, ninodes: u32) -> (r: i32)
    requires
        old(below).inv(),
        format_ok(old(below).blocks(0).len() as int, ninodes as int),
    ensures
        final(below).inv(),
        r == 0 || r == -1,
        old(below).reliable() ==> final(below).reliable() && r == 0,
        r == 0 ==> final(below).blocks(0) == formatted(old(below).blocks(0), ninodes as int),
{
    match FS::setup_disk(below, below_ino, ninodes) {
        Ok(v) => v,
        Err(_) => -1,
    }
}

/// What a FAT file system holds: the blocks of each inode, and how many data blocks
/// are still free.
pub struct FsView {
    pub files: Seq<Seq<Seq<i8>>>,
    pub free: int,
}

impl FsView {
    /// The sizes a FAT file system can reach: no file holds `2^30` blocks or more.
    pub open spec fn wf(&self) -> bool {
        &&& self.free >= 0
        &&& forall|i: int| 0 <= i < self.files.len() ==> (#[trigger] self.files[i]).len() < 0x4000_0000
    }
}

/// The number of blocks a read compares `offset` with: `-1` for an unset inode.
pub open spec fn stored_size(file: Seq<Seq<i8>>) -> i32 {
    if file.len() == 0 {
        -1i32
    } else {
        file.len() as i32
    }
}

/// What reading block `offset` of `ino` gives: the block, or the error reported.
/// An offset of `2^31` or more is seen as negative when compared with the size.
pub open spec fn read_spec(v: FsView, ino: u32, offset: u32) -> Result<Seq<i8>, Error> {
    if ino >= v.files.len() {
        Err(Error::InodeOutOfBounds)
    } else {
        let file = v.files[ino as int];
        if (offset as i32) >= stored_size(file) {
            Err(Error::ReadOffsetTooLarge)
        } else if file.len() == 0 {
            Err(Error::UnitializedInode)
        } else if offset >= file.len() {
            Err(Error::UnknownFailure)
        } else {
            Ok(file[offset as int])
        }
    }
}

/// The result of writing `buf` as block `offset` of `ino`, and what the file system
/// holds afterwards. A write to an empty inode makes `buf` its only block, whatever
/// the offset; a write at the end appends; both take a free block. Writing past the
/// end of a non-empty inode is refused.
pub open spec fn write_spec(v: FsView, ino: u32, offset: u32, buf: Seq<i8>) -> (Result<i32, Error>, FsView) {
    if ino >= v.files.len() {
        (Err(Error::InodeOutOfBounds), v)
    } else {
        let file = v.files[ino as int];
        if file.len() == 0 || offset == file.len() {
            if v.free <= 0 {
                (Err(Error::OutOfSpace), v)
            } else {
                let new_file = if file.len() == 0 { seq![buf] } else { file.push(buf) };
                (Ok(0i32), FsView { files: v.files.update(ino as int, new_file), free: v.free - 1 })
            }
        } else if offset > file.len() {
            (Err(Error::UnknownCase), v)
        } else {
            (Ok(0i32), FsView { files: v.files.update(ino as int, file.update(offset as int, buf)), free: v.free })
        }
    }
}

impl<T: Stackable> FS<T> {
    /// The data block `k` steps down the FAT from data block `head`.
    pub open spec fn chain(&self, head: int, k: nat) -> int
        decreases k,
    {
        if k == 0 {
            head
        } else {
            self.fat_next(self.chain(head, (k - 1) as nat)) as int
        }
    }

    /// The data block holding block `k` of `ino`.
    pub open spec fn block_of(&self, ino: int, k: int) -> int {
        self.chain(self.head_of(ino) as int, k as nat)
    }

    /// Whether block `k` of `ino` exists according to the inode table.
    pub open spec fn in_file(&self, ino: int, k: int) -> bool {
        self.head_of(ino) >= 0 && 0 <= k < self.size_of(ino)
    }

    /// The contents of data block `j`.
    pub open spec fn data(&self, j: int) -> Seq<i8> {
        self.disk()[self.data_start() + j]
    }

    /// The blocks of `ino`, found by following the FAT from its first data block.
    pub open spec fn file(&self, ino: int) -> Seq<Seq<i8>> {
        if self.head_of(ino) < 0 || self.size_of(ino) <= 0 {
            Seq::empty()
        } else {
            Seq::new(self.size_of(ino) as nat, |k: int| self.data(self.block_of(ino, k)))
        }
    }

    /// The inode table entry of `ino` is unset, or describes a chain of handed-out
    /// data blocks ended by `-1`.
    pub open spec fn entry_ok(&self, ino: int) -> bool {
        let h = self.head_of(ino);
        let s = self.size_of(ino);
        let fh = self.superblock.fat_head_value;
        ||| h == -1 && s == -1
        ||| {
            &&& h >= 0
            &&& 1 <= s <= fh
            &&& forall|k: int| 0 <= k < s ==> 0 <= #[trigger] self.block_of(ino, k) < fh
            &&& self.fat_next(self.block_of(ino, s - 1)) == NULL_POINTER
        }
    }

    /// The file system is consistent: the data blocks before the free-list head are
    /// handed out, each to one block of one inode; the FAT chains each free data block
    /// to the next.
    pub open spec fn valid(&self) -> bool {
        let n = self.num_inodes as int;
        let nd = self.num_data_blocks as int;
        let fh = self.superblock.fat_head_value as int;
        &&& self.wf()
        &&& 0 <= fh <= nd
        &&& stored_head(self.disk()) == fh
        &&& forall|j: int| fh <= j < nd ==> #[trigger] self.fat_next(j) == j + 1
        &&& forall|ino: int| 0 <= ino < n ==> #[trigger] self.entry_ok(ino)
        &&& forall|i1: int, k1: int, i2: int, k2: int|
            0 <= i1 < n && 0 <= i2 < n && self.in_file(i1, k1) && self.in_file(i2, k2) && (i1 != i2
                || k1 != k2) ==> #[trigger] self.block_of(i1, k1) != #[trigger] self.block_of(i2, k2)
    }

    /// What the file system holds.
    pub open spec fn view(&self) -> FsView {
        FsView {
            files: Seq::new(self.num_inodes as nat, |ino: int| self.file(ino)),
            free: self.num_data_blocks - self.superblock.fat_head_value,
        }
    }
}

proof fn lemma_i32_of_u32(offset: u32)
    ensures
        offset < 0x8000_0000u32 ==> offset as i32 == offset,
        offset >= 0x8000_0000u32 ==> (offset as i32) < 0,
{
    assert(offset < 0x8000_0000u32 ==> offset as i32 == offset) by (bit_vector);
    assert(offset >= 0x8000_0000u32 ==> (offset as i32) < 0) by (bit_vector);
}

impl<T: Stackable> FS<T> {
    proof fn lemma_entry_addressable(&self, ino: int)
        requires
            self.wf(),
            0 <= ino < self.num_inodes,
        ensures
            self.inode_addressable(ino),
            self.inode_block(ino) < self.fat_table.disk_block_index,
            1 <= self.inode_block(ino),
            Self::inode_byte(ino) + 8 <= BLOCK_SIZE,
            Self::inode_byte(ino) % 4 == 0,
    {
    }

    proof fn lemma_fat_entry_addressable(&self, j: int)
        requires
            self.wf(),
            0 <= j < self.num_data_blocks,
        ensures
            self.fat_addressable(j),
            self.fat_table.disk_block_index <= self.fat_block(j) < self.data_start(),
            Self::fat_byte(j) + 4 <= BLOCK_SIZE,
            Self::fat_byte(j) % 4 == 0,
    {
        lemma_entry_in_table(j, self.num_data_blocks as int, self.fat_table.num_blocks as int);
    }

    /// Read the block at the offset'th block of the ino'th inode.
    pub fn read(&mut self, ino: u32, offset: u32, buf: &mut Block) -> (r: Result<i32, Error>)
        requires
            old(self).valid(),
        ensures
            *final(self) == *old(self),
            match read_spec(old(self).view(), ino, offset) {
                Ok(b) => r == Ok::<i32, Error>(0) && final(buf)@ == b,
                Err(e) => r == Err::<i32, Error>(e) && *final(buf) == *old(buf),
            },
    {
        if ino >= self.num_inodes {
            return Err(Error::InodeOutOfBounds);
        }
        proof {
            self.lemma_entry_addressable(ino as int);
            assert(self.entry_ok(ino as int));
            lemma_i32_of_u32(offset);
        }
        let (head, size) = self.get_inode_info(ino)?;
        if offset as i32 >= size {
            return Err(Error::ReadOffsetTooLarge);
        }
        if head < 0 {
            return Err(Error::UnitializedInode);
        }
        let ghost s0 = *self;
        let mut block_idx = head;
        let mut i: u32 = 0;
        while i < offset
            invariant
                *self == s0,
                *old(self) == s0,
                *buf == *old(buf),
                (offset as i32) < size,
                offset < 0x8000_0000u32 ==> offset as i32 == offset,
                offset >= 0x8000_0000u32 ==> (offset as i32) < 0,
                s0.valid(),
                0 <= ino < s0.num_inodes,
                head == s0.head_of(ino as int),
                size == s0.size_of(ino as int),
                s0.entry_ok(ino as int),
                head >= 0,
                size >= 1,
                i <= offset,
                i < size,
                block_idx == s0.block_of(ino as int, i as int),
            decreases offset - i,
        {
            proof {
                s0.lemma_fat_entry_addressable(block_idx as int);
            }
            let next = self.get_fat_table_info(block_idx);
            assert(next == s0.block_of(ino as int, i + 1));
            if next == NULL_POINTER && i != offset {
                return Err(Error::UnknownFailure);
            }
            block_idx = next;
            i = i + 1;
        }
        let data_block_start_index = self.fat_table.disk_block_index + self.fat_table.num_blocks;
        self.below.read(0, data_block_start_index + block_idx as u32, buf)?;
        Ok(0)
    }
}

impl<T: Stackable> FS<T> {
    proof fn lemma_block_step(&self, ino: int, k: int)
        requires
            k >= 1,
        ensures
            self.block_of(ino, k) == self.fat_next(self.block_of(ino, k - 1)) as int,
    {
        assert((k as nat - 1) as nat == (k - 1) as nat);
    }

    /// Chains agree in two states whose FAT agrees along the chain.
    proof fn lemma_block_agree(&self, t: Self, ino: int, k: int)
        requires
            0 <= k,
            t.head_of(ino) == self.head_of(ino),
            forall|m: int|
                0 <= m < k ==> t.fat_next(#[trigger] self.block_of(ino, m)) == self.fat_next(
                    self.block_of(ino, m),
                ),
        ensures
            t.block_of(ino, k) == self.block_of(ino, k),
        decreases k,
    {
        if k > 0 {
            self.lemma_block_agree(t, ino, k - 1);
            self.lemma_block_step(ino, k);
            t.lemma_block_step(ino, k);
            assert(t.fat_next(self.block_of(ino, k - 1)) == self.fat_next(self.block_of(ino, k - 1)));
        }
    }

    /// Rewriting one FAT entry changes that entry only.
    proof fn lemma_fat_update(&self, t: Self, j: int, v: i32)
        requires
            self.wf(),
            t.wf(),
            t.same_layout(self),
            0 <= j < self.num_data_blocks,
            t.disk() == self.disk().update(
                self.fat_block(j),
                splice(self.disk()[self.fat_block(j)], Self::fat_byte(j), le_bytes(v as u32)),
            ),
        ensures
            t.fat_next(j) == v,
            forall|j2: int|
                0 <= j2 < self.num_data_blocks && j2 != j ==> #[trigger] t.fat_next(j2)
                    == self.fat_next(j2),
            forall|i: int|
                #![trigger t.head_of(i)] #![trigger t.size_of(i)] 0 <= i < self.num_inodes ==> t.head_of(i) == self.head_of(i) && t.size_of(i)
                    == self.size_of(i),
            forall|x: int| 0 <= x < self.num_data_blocks ==> #[trigger] t.data(x) == self.data(x),
            stored_head(t.disk()) == stored_head(self.disk()),
    {
        self.lemma_fat_entry_addressable(j);
        let b = self.fat_block(j);
        lemma_le_splice(self.disk()[b], Self::fat_byte(j), v as u32);
        lemma_i32_bits(v);
        assert forall|j2: int|
            0 <= j2 < self.num_data_blocks && j2 != j implies #[trigger] t.fat_next(j2)
                == self.fat_next(j2) by {
            self.lemma_fat_entry_addressable(j2);
        }
        assert forall|i: int| #![trigger t.head_of(i)] #![trigger t.size_of(i)] 0 <= i < self.num_inodes implies t.head_of(i) == self.head_of(i)
            && t.size_of(i) == self.size_of(i) by {
            self.lemma_entry_addressable(i);
        }
    }

    /// Rewriting one inode table entry changes that entry only.
    proof fn lemma_inode_update(&self, t: Self, ino: int, h: u32, sz: u32)
        requires
            self.wf(),
            t.wf(),
            t.same_layout(self),
            0 <= ino < self.num_inodes,
            t.disk() == self.disk().update(
                self.inode_block(ino),
                splice(
                    splice(self.disk()[self.inode_block(ino)], Self::inode_byte(ino), le_bytes(h)),
                    Self::inode_byte(ino) + 4,
                    le_bytes(sz),
                ),
            ),
        ensures
            t.head_of(ino) == h as i32,
            t.size_of(ino) == sz as i32,
            forall|i: int|
                #![trigger t.head_of(i)] #![trigger t.size_of(i)] 0 <= i < self.num_inodes && i != ino ==> t.head_of(i) == self.head_of(i)
                    && t.size_of(i) == self.size_of(i),
            forall|j: int| 0 <= j < self.num_data_blocks ==> #[trigger] t.fat_next(j) == self.fat_next(j),
            forall|x: int| 0 <= x < self.num_data_blocks ==> #[trigger] t.data(x) == self.data(x),
            stored_head(t.disk()) == stored_head(self.disk()),
    {
        self.lemma_entry_addressable(ino);
        let b = self.inode_block(ino);
        let o = Self::inode_byte(ino);
        let s1 = splice(self.disk()[b], o, le_bytes(h));
        lemma_le_splice(self.disk()[b], o, h);
        lemma_le_splice(s1, o + 4, sz);
        assert forall|i: int|
            #![trigger t.head_of(i)] #![trigger t.size_of(i)] 0 <= i < self.num_inodes && i != ino implies t.head_of(i) == self.head_of(i)
                && t.size_of(i) == self.size_of(i) by {
            self.lemma_entry_addressable(i);
        }
        assert forall|j: int| 0 <= j < self.num_data_blocks implies #[trigger] t.fat_next(j)
            == self.fat_next(j) by {
            self.lemma_fat_entry_addressable(j);
        }
    }

    /// Rewriting block 0 or a data block leaves the tables alone.
    proof fn lemma_block_update(&self, t: Self, b: int, content: Seq<i8>)
        requires
            self.wf(),
            t.wf(),
            t.same_layout(self),
            b == 0 || self.data_start() <= b < self.disk().len(),
            t.disk() == self.disk().update(b, content),
        ensures
            forall|i: int|
                #![trigger t.head_of(i)] #![trigger t.size_of(i)] 0 <= i < self.num_inodes ==> t.head_of(i) == self.head_of(i) && t.size_of(i)
                    == self.size_of(i),
            forall|j: int| 0 <= j < self.num_data_blocks ==> #[trigger] t.fat_next(j) == self.fat_next(j),
            forall|x: int|
                0 <= x < self.num_data_blocks && self.data_start() + x != b ==> #[trigger] t.data(x)
                    == self.data(x),
            b != 0 ==> t.data(b - self.data_start()) == content,
            b != 0 ==> stored_head(t.disk()) == stored_head(self.disk()),
    {
        assert forall|i: int| #![trigger t.head_of(i)] #![trigger t.size_of(i)] 0 <= i < self.num_inodes implies t.head_of(i) == self.head_of(i)
            && t.size_of(i) == self.size_of(i) by {
            self.lemma_entry_addressable(i);
        }
        assert forall|j: int| 0 <= j < self.num_data_blocks implies #[trigger] t.fat_next(j)
            == self.fat_next(j) by {
            self.lemma_fat_entry_addressable(j);
        }
    }

    /// The heads and sizes of all inodes but `ino` agree, and the FAT agrees outside
    /// `e1` and `e2`: the chains of the other inodes then agree, when they avoid `e1`
    /// and `e2`.
    proof fn lemma_other_chains(&self, t: Self, ino: int, e1: int, e2: int)
        requires
            self.valid(),
            t.same_layout(self),
            forall|i: int|
                #![trigger t.head_of(i)] #![trigger t.size_of(i)] 0 <= i < self.num_inodes && i != ino ==> t.head_of(i) == self.head_of(i)
                    && t.size_of(i) == self.size_of(i),
            forall|j: int|
                0 <= j < self.num_data_blocks && j != e1 && j != e2 ==> #[trigger] t.fat_next(j)
                    == self.fat_next(j),
            forall|i: int, k: int|
                0 <= i < self.num_inodes && i != ino && self.in_file(i, k) ==> #[trigger] self.block_of(
                    i,
                    k,
                ) != e1 && self.block_of(i, k) != e2,
        ensures
            forall|i: int, k: int|
                0 <= i < self.num_inodes && i != ino && self.in_file(i, k) ==> #[trigger] t.block_of(i, k)
                    == self.block_of(i, k),
            forall|i: int|
                0 <= i < self.num_inodes && i != ino && self.head_of(i) >= 0 ==> #[trigger] t.fat_next(
                    t.block_of(i, self.size_of(i) - 1),
                ) == self.fat_next(self.block_of(i, self.size_of(i) - 1)),
    {
        assert forall|i: int, k: int|
            0 <= i < self.num_inodes && i != ino && self.in_file(i, k) implies #[trigger] t.block_of(i, k)
                == self.block_of(i, k) by {
            assert(self.entry_ok(i));
            assert forall|m: int| 0 <= m < k implies t.fat_next(#[trigger] self.block_of(i, m))
                == self.fat_next(self.block_of(i, m)) by {
                assert(self.in_file(i, m));
            }
            self.lemma_block_agree(t, i, k);
        }
        assert forall|i: int|
            0 <= i < self.num_inodes && i != ino && self.head_of(i) >= 0 implies #[trigger] t.fat_next(
                t.block_of(i, self.size_of(i) - 1),
            ) == self.fat_next(self.block_of(i, self.size_of(i) - 1)) by {
            assert(self.entry_ok(i));
            assert(self.in_file(i, self.size_of(i) - 1));
            assert(t.block_of(i, self.size_of(i) - 1) == self.block_of(i, self.size_of(i) - 1));
        }
    }
}

impl<T: Stackable> FS<T> {
    /// Overwriting a data block that belongs to block `off` of `ino` replaces that
    /// block of that file only.
    proof fn lemma_overwrite(&self, t: Self, ino: int, off: int, b: Seq<i8>)
        requires
            self.valid(),
            t.wf(),
            t.same_layout(self),
            t.superblock.fat_head_value == self.superblock.fat_head_value,
            stored_head(t.disk()) == t.superblock.fat_head_value,
            0 <= ino < self.num_inodes,
            self.in_file(ino, off),
            forall|i: int|
                #![trigger t.head_of(i)] #![trigger t.size_of(i)] 0 <= i < self.num_inodes ==> t.head_of(i) == self.head_of(i) && t.size_of(i)
                    == self.size_of(i),
            forall|j: int| 0 <= j < self.num_data_blocks ==> #[trigger] t.fat_next(j) == self.fat_next(j),
            forall|x: int|
                0 <= x < self.num_data_blocks && x != self.block_of(ino, off) ==> #[trigger] t.data(x)
                    == self.data(x),
            t.data(self.block_of(ino, off)) == b,
        ensures
            t.valid(),
            t.view() == (FsView {
                files: self.view().files.update(ino, self.file(ino).update(off, b)),
                free: self.view().free,
            }),
    {
        assert forall|i: int, k: int|
            0 <= i < self.num_inodes && i != -1 && self.in_file(i, k) implies #[trigger] self.block_of(
                i,
                k,
            ) != -1 && self.block_of(i, k) != -1 by {
            assert(self.entry_ok(i));
        }
        self.lemma_other_chains(t, -1, -1, -1);
        assert forall|ino2: int| 0 <= ino2 < self.num_inodes implies #[trigger] t.entry_ok(ino2) by {
            assert(self.entry_ok(ino2));
            if self.head_of(ino2) >= 0 {
                assert forall|k: int| 0 <= k < t.size_of(ino2) implies 0 <= #[trigger] t.block_of(ino2, k)
                    < t.superblock.fat_head_value by {
                    assert(self.in_file(ino2, k));
                }
            }
        }
        assert forall|i1: int, k1: int, i2: int, k2: int|
            0 <= i1 < self.num_inodes && 0 <= i2 < self.num_inodes && t.in_file(i1, k1) && t.in_file(
                i2,
                k2,
            ) && (i1 != i2 || k1 != k2) implies #[trigger] t.block_of(i1, k1) != #[trigger] t.block_of(
            i2,
            k2,
        ) by {
            assert(self.in_file(i1, k1));
            assert(self.in_file(i2, k2));
            assert(self.block_of(i1, k1) != self.block_of(i2, k2));
        }
        let expected = self.view().files.update(ino, self.file(ino).update(off, b));
        assert forall|i: int| 0 <= i < self.num_inodes implies #[trigger] t.file(i) == expected[i] by {
            assert(self.entry_ok(i));
            if self.head_of(i) >= 0 {
                assert forall|k: int| 0 <= k < t.size_of(i) implies #[trigger] t.data(t.block_of(i, k))
                    == (if i == ino && k == off { b } else { self.data(self.block_of(i, k)) }) by {
                    assert(self.in_file(i, k));
                    assert(self.in_file(ino, off));
                    assert(0 <= self.block_of(i, k) < self.superblock.fat_head_value);
                }
                assert(t.file(i) =~= expected[i]);
            } else {
                assert(t.file(i) =~= expected[i]);
            }
        }
        assert(t.view().files =~= expected);
    }

    /// Handing the free-list head `nb` to an unset inode as its only block.
    proof fn lemma_first_block(&self, t: Self, ino: int, nb: int, b: Seq<i8>)
        requires
            self.valid(),
            t.wf(),
            t.same_layout(self),
            nb == self.superblock.fat_head_value,
            nb < self.num_data_blocks,
            t.superblock.fat_head_value == nb + 1,
            stored_head(t.disk()) == t.superblock.fat_head_value,
            0 <= ino < self.num_inodes,
            self.head_of(ino) == -1 && self.size_of(ino) == -1,
            t.head_of(ino) == nb,
            t.size_of(ino) == 1,
            forall|i: int|
                #![trigger t.head_of(i)] #![trigger t.size_of(i)] 0 <= i < self.num_inodes && i != ino ==> t.head_of(i) == self.head_of(i)
                    && t.size_of(i) == self.size_of(i),
            t.fat_next(nb) == NULL_POINTER,
            forall|j: int|
                0 <= j < self.num_data_blocks && j != nb ==> #[trigger] t.fat_next(j) == self.fat_next(j),
            t.data(nb) == b,
            forall|x: int| 0 <= x < self.num_data_blocks && x != nb ==> #[trigger] t.data(x) == self.data(x),
        ensures
            t.valid(),
            t.view() == (FsView {
                files: self.view().files.update(ino, seq![b]),
                free: self.view().free - 1,
            }),
            t.block_of(ino, 0) == nb,
    {
        assert forall|i: int, k: int|
            0 <= i < self.num_inodes && i != ino && self.in_file(i, k) implies #[trigger] self.block_of(
                i,
                k,
            ) != nb && self.block_of(i, k) != nb by {
            assert(self.entry_ok(i));
        }
        self.lemma_other_chains(t, ino, nb, nb);
        assert(t.block_of(ino, 0) == nb);
        assert forall|ino2: int| 0 <= ino2 < self.num_inodes implies #[trigger] t.entry_ok(ino2) by {
            assert(self.entry_ok(ino2));
            if ino2 != ino && self.head_of(ino2) >= 0 {
                assert forall|k: int| 0 <= k < t.size_of(ino2) implies 0 <= #[trigger] t.block_of(ino2, k)
                    < t.superblock.fat_head_value by {
                    assert(self.in_file(ino2, k));
                }
            }
            if ino2 == ino {
                assert forall|k: int| 0 <= k < t.size_of(ino2) implies 0 <= #[trigger] t.block_of(ino2, k)
                    < t.superblock.fat_head_value by {
                    assert(k == 0);
                }
            }
        }
        assert forall|j: int|
            t.superblock.fat_head_value <= j < t.num_data_blocks implies #[trigger] t.fat_next(j) == j
            + 1 by {
            assert(self.fat_next(j) == j + 1);
        }
        assert forall|i1: int, k1: int, i2: int, k2: int|
            0 <= i1 < self.num_inodes && 0 <= i2 < self.num_inodes && t.in_file(i1, k1) && t.in_file(
                i2,
                k2,
            ) && (i1 != i2 || k1 != k2) implies #[trigger] t.block_of(i1, k1) != #[trigger] t.block_of(
            i2,
            k2,
        ) by {
            if i1 != ino && i2 != ino {
                assert(self.in_file(i1, k1));
                assert(self.in_file(i2, k2));
                assert(self.block_of(i1, k1) != self.block_of(i2, k2));
            } else if i1 == ino {
                assert(k1 == 0);
                assert(self.in_file(i2, k2));
                assert(self.entry_ok(i2));
            } else {
                assert(k2 == 0);
                assert(self.in_file(i1, k1));
                assert(self.entry_ok(i1));
            }
        }
        let expected = self.view().files.update(ino, seq![b]);
        assert forall|i: int| 0 <= i < self.num_inodes implies #[trigger] t.file(i) == expected[i] by {
            assert(self.entry_ok(i));
            if i == ino {
                assert(t.file(i) =~= expected[i]);
            } else if self.head_of(i) >= 0 {
                assert forall|k: int| 0 <= k < t.size_of(i) implies #[trigger] t.data(t.block_of(i, k))
                    == self.data(self.block_of(i, k)) by {
                    assert(self.in_file(i, k));
                }
                assert(t.file(i) =~= expected[i]);
            } else {
                assert(t.file(i) =~= expected[i]);
            }
        }
        assert(t.view().files =~= expected);
    }

    /// Appending the free-list head `nb` after the last block of `ino`.
    proof fn lemma_append(&self, t: Self, ino: int, nb: int, b: Seq<i8>)
        requires
            self.valid(),
            t.wf(),
            t.same_layout(self),
            nb == self.superblock.fat_head_value,
            nb < self.num_data_blocks,
            t.superblock.fat_head_value == nb + 1,
            stored_head(t.disk()) == t.superblock.fat_head_value,
            0 <= ino < self.num_inodes,
            self.head_of(ino) >= 0,
            t.head_of(ino) == self.head_of(ino),
            t.size_of(ino) == self.size_of(ino) + 1,
            forall|i: int|
                #![trigger t.head_of(i)] #![trigger t.size_of(i)] 0 <= i < self.num_inodes && i != ino ==> t.head_of(i) == self.head_of(i)
                    && t.size_of(i) == self.size_of(i),
            t.fat_next(self.block_of(ino, self.size_of(ino) - 1)) == nb,
            t.fat_next(nb) == NULL_POINTER,
            forall|j: int|
                0 <= j < self.num_data_blocks && j != nb && j != self.block_of(ino, self.size_of(ino) - 1)
                    ==> #[trigger] t.fat_next(j) == self.fat_next(j),
            t.data(nb) == b,
            forall|x: int| 0 <= x < self.num_data_blocks && x != nb ==> #[trigger] t.data(x) == self.data(x),
        ensures
            t.valid(),
            t.view() == (FsView {
                files: self.view().files.update(ino, self.file(ino).push(b)),
                free: self.view().free - 1,
            }),
            t.block_of(ino, self.size_of(ino) as int) == nb,
    {
        let sz = self.size_of(ino) as int;
        let last = self.block_of(ino, sz - 1);
        assert(self.entry_ok(ino));
        assert(self.in_file(ino, sz - 1));
        assert forall|i: int, k: int|
            0 <= i < self.num_inodes && i != ino && self.in_file(i, k) implies #[trigger] self.block_of(
                i,
                k,
            ) != nb && self.block_of(i, k) != last by {
            assert(self.entry_ok(i));
            assert(self.block_of(i, k) != self.block_of(ino, sz - 1));
        }
        self.lemma_other_chains(t, ino, nb, last);
        assert forall|k: int| 0 <= k < sz implies #[trigger] t.block_of(ino, k) == self.block_of(ino, k) by {
            assert forall|m: int| 0 <= m < k implies t.fat_next(#[trigger] self.block_of(ino, m))
                == self.fat_next(self.block_of(ino, m)) by {
                assert(self.in_file(ino, m));
                assert(self.block_of(ino, m) != self.block_of(ino, sz - 1));
            }
            self.lemma_block_agree(t, ino, k);
        }
        assert(t.block_of(ino, sz - 1) == last);
        t.lemma_block_step(ino, sz);
        assert(t.block_of(ino, sz) == nb);
        assert forall|ino2: int| 0 <= ino2 < self.num_inodes implies #[trigger] t.entry_ok(ino2) by {
            assert(self.entry_ok(ino2));
            if ino2 != ino && self.head_of(ino2) >= 0 {
                assert forall|k: int| 0 <= k < t.size_of(ino2) implies 0 <= #[trigger] t.block_of(ino2, k)
                    < t.superblock.fat_head_value by {
                    assert(self.in_file(ino2, k));
                }
            }
            if ino2 == ino {
                assert forall|k: int| 0 <= k < t.size_of(ino2) implies 0 <= #[trigger] t.block_of(ino2, k)
                    < t.superblock.fat_head_value by {
                    if k < sz {
                        assert(self.in_file(ino, k));
                    }
                }
            }
        }
        assert forall|j: int|
            t.superblock.fat_head_value <= j < t.num_data_blocks implies #[trigger] t.fat_next(j) == j
            + 1 by {
            assert(self.fat_next(j) == j + 1);
        }
        assert forall|i1: int, k1: int, i2: int, k2: int|
            0 <= i1 < self.num_inodes && 0 <= i2 < self.num_inodes && t.in_file(i1, k1) && t.in_file(
                i2,
                k2,
            ) && (i1 != i2 || k1 != k2) implies #[trigger] t.block_of(i1, k1) != #[trigger] t.block_of(
            i2,
            k2,
        ) by {
            let a1 = i1 == ino && k1 == sz;
            let a2 = i2 == ino && k2 == sz;
            if !a1 && !a2 {
                assert(self.in_file(i1, k1));
                assert(self.in_file(i2, k2));
                assert(self.block_of(i1, k1) != self.block_of(i2, k2));
            } else if a1 {
                assert(self.in_file(i2, k2));
                assert(self.entry_ok(i2));
            } else {
                assert(self.in_file(i1, k1));
                assert(self.entry_ok(i1));
            }
        }
        let expected = self.view().files.update(ino, self.file(ino).push(b));
        assert forall|i: int| 0 <= i < self.num_inodes implies #[trigger] t.file(i) == expected[i] by {
            assert(self.entry_ok(i));
            if i == ino {
                assert forall|k: int| 0 <= k < sz implies #[trigger] t.data(t.block_of(i, k))
                    == self.data(self.block_of(i, k)) by {
                    assert(self.in_file(i, k));
                }
                assert(t.file(i) =~= expected[i]);
            } else if self.head_of(i) >= 0 {
                assert forall|k: int| 0 <= k < t.size_of(i) implies #[trigger] t.data(t.block_of(i, k))
                    == self.data(self.block_of(i, k)) by {
                    assert(self.in_file(i, k));
                }
                assert(t.file(i) =~= expected[i]);
            } else {
                assert(t.file(i) =~= expected[i]);
            }
        }
        assert(t.view().files =~= expected);
    }
}

impl<T: Stackable> FS<T> {
    /// Gives an unset inode its first block.
    fn write_first_block(&mut self, ino: u32, offset: u32, buf: &Block) -> (r: Result<i32, Error>)
        requires
            old(self).valid(),
            ino < old(self).num_inodes,
            old(self).head_of(ino as int) < 0 && old(self).size_of(ino as int) < 0,
        ensures
            final(self).valid(),
            final(self).same_layout(old(self)),
            (r, final(self).view()) == write_spec(old(self).view(), ino, offset, buf@),
            r is Err ==> *final(self) == *old(self),
            r is Ok ==> final(self).block_of(ino as int, 0) == old(self).superblock.fat_head_value,
    {
        let ghost s0 = *self;
        proof {
            self.lemma_entry_addressable(ino as int);
            assert(self.entry_ok(ino as int));
        }
        let new_block_idx = self.get_and_update_superblock()?;
        let ghost s1 = *self;
        proof {
            s0.lemma_block_update(s1, 0, s1.disk()[0]);
            assert(s0.fat_next(new_block_idx as int) == new_block_idx + 1);
        }
        self.update_inode_info(ino, new_block_idx as u32, 1);
        let ghost s2 = *self;
        proof {
            s1.lemma_inode_update(s2, ino as int, new_block_idx, 1);
            lemma_i32_of_u32(new_block_idx);
            lemma_i32_of_u32(1);
            s1.lemma_fat_entry_addressable(new_block_idx as int);
        }
        self.update_fat_table_info(new_block_idx, NULL_POINTER);
        let ghost s3 = *self;
        proof {
            s2.lemma_fat_update(s3, new_block_idx as int, NULL_POINTER);
        }
        let target = self.fat_table.disk_block_index + self.fat_table.num_blocks + new_block_idx;
        let res = self.below.write(0, target, buf);
        proof {
            s3.lemma_block_update(*self, target as int, buf@);
            s0.lemma_first_block(*self, ino as int, new_block_idx as int, buf@);
        }
        res?;
        Ok(0)
    }

    /// Overwrites block `offset < size` of `ino`.
    fn write_existing_block(&mut self, ino: u32, offset: u32, buf: &Block) -> (r: Result<i32, Error>)
        requires
            old(self).valid(),
            ino < old(self).num_inodes,
            old(self).head_of(ino as int) >= 0,
            offset < old(self).size_of(ino as int),
        ensures
            final(self).valid(),
            final(self).same_layout(old(self)),
            (r, final(self).view()) == write_spec(old(self).view(), ino, offset, buf@),
            r is Err ==> *final(self) == *old(self),
    {
        let ghost s0 = *self;
        proof {
            self.lemma_entry_addressable(ino as int);
            assert(self.entry_ok(ino as int));
        }
        let (head, size) = self.get_inode_info(ino)?;
        let mut block_idx = head;
        let mut i: u32 = 0;
        while i < offset
            invariant
                *self == s0,
                s0.valid(),
                0 <= ino < s0.num_inodes,
                head == s0.head_of(ino as int),
                size == s0.size_of(ino as int),
                s0.entry_ok(ino as int),
                head >= 0,
                size >= 1,
                offset < size,
                i <= offset,
                block_idx == s0.block_of(ino as int, i as int),
            decreases offset - i,
        {
            proof {
                assert(s0.in_file(ino as int, i as int));
                s0.lemma_fat_entry_addressable(block_idx as int);
                s0.lemma_block_step(ino as int, i + 1);
            }
            let next = self.get_fat_table_info(block_idx);
            block_idx = next;
            i = i + 1;
        }
        proof {
            assert(s0.in_file(ino as int, offset as int));
        }
        let target = self.fat_table.disk_block_index + self.fat_table.num_blocks + block_idx as u32;
        let res = self.below.write(0, target, buf);
        proof {
            s0.lemma_block_update(*self, target as int, buf@);
            s0.lemma_overwrite(*self, ino as int, offset as int, buf@);
        }
        res?;
        Ok(0)
    }

    /// Appends a block to `ino`, whose size is `offset`.
    fn write_next_block(&mut self, ino: u32, offset: u32, buf: &Block) -> (r: Result<i32, Error>)
        requires
            old(self).valid(),
            ino < old(self).num_inodes,
            old(self).head_of(ino as int) >= 0,
            offset == old(self).size_of(ino as int),
        ensures
            final(self).valid(),
            final(self).same_layout(old(self)),
            (r, final(self).view()) == write_spec(old(self).view(), ino, offset, buf@),
            r is Err ==> *final(self) == *old(self),
            r is Ok ==> final(self).block_of(ino as int, offset as int) == old(self).superblock.fat_head_value,
    {
        let ghost s0 = *self;
        proof {
            self.lemma_entry_addressable(ino as int);
            assert(self.entry_ok(ino as int));
        }
        let (head, size) = self.get_inode_info(ino)?;
        let mut last_block_idx = head;
        let mut i: u32 = 0;
        while i < offset - 1
            invariant
                *self == s0,
                s0.valid(),
                0 <= ino < s0.num_inodes,
                head == s0.head_of(ino as int),
                size == s0.size_of(ino as int),
                s0.entry_ok(ino as int),
                head >= 0,
                size >= 1,
                offset == size,
                i <= offset - 1,
                last_block_idx == s0.block_of(ino as int, i as int),
            decreases offset - 1 - i,
        {
            proof {
                assert(s0.in_file(ino as int, i as int));
                s0.lemma_fat_entry_addressable(last_block_idx as int);
                s0.lemma_block_step(ino as int, i + 1);
            }
            let next = self.get_fat_table_info(last_block_idx);
            last_block_idx = next;
            i = i + 1;
        }
        proof {
            assert(s0.in_file(ino as int, size - 1));
        }
        let new_block_idx = self.get_and_update_superblock()?;
        let ghost s1 = *self;
        proof {
            s0.lemma_block_update(s1, 0, s1.disk()[0]);
            assert(s0.fat_next(new_block_idx as int) == new_block_idx + 1);
            lemma_i32_bits(head);
            lemma_i32_of_u32((size as u32 + 1) as u32);
        }
        self.update_inode_info(ino, head as u32, size as u32 + 1);
        let ghost s2 = *self;
        proof {
            s1.lemma_inode_update(s2, ino as int, head as u32, (size as u32 + 1) as u32);
            s2.lemma_fat_entry_addressable(last_block_idx as int);
            lemma_i32_of_u32(new_block_idx);
        }
        self.update_fat_table_info(last_block_idx as u32, new_block_idx as i32);
        let ghost s3 = *self;
        proof {
            s2.lemma_fat_update(s3, last_block_idx as int, new_block_idx as i32);
            s3.lemma_fat_entry_addressable(new_block_idx as int);
        }
        self.update_fat_table_info(new_block_idx, NULL_POINTER);
        let ghost s4 = *self;
        proof {
            s3.lemma_fat_update(s4, new_block_idx as int, NULL_POINTER);
        }
        let target = self.fat_table.disk_block_index + self.fat_table.num_blocks + new_block_idx;
        let res = self.below.write(0, target, buf);
        proof {
            s4.lemma_block_update(*self, target as int, buf@);
            s0.lemma_append(*self, ino as int, new_block_idx as int, buf@);
        }
        res?;
        Ok(0)
    }

    /// Write the block at the offset'th block of the ino'th inode.
    /// If offset < size, then overwrite the block at offset.
    /// If offset == size, then append the block at offset from freelist, updating the
    /// superblock, inode table, and fat table. Update size.
    /// If offset > size, then return an error.
    /// Finally, if the ino has never been written, initialize it.
    pub fn write(&mut self, ino: u32, offset: u32, buf: &Block) -> (r: Result<i32, Error>)
        requires
            old(self).valid(),
        ensures
            final(self).valid(),
            final(self).same_layout(old(self)),
            (r, final(self).view()) == write_spec(old(self).view(), ino, offset, buf@),
            r is Err ==> *final(self) == *old(self),
            r is Ok && ino < old(self).num_inodes && old(self).head_of(ino as int) < 0 ==> final(self).block_of(
                ino as int,
                0,
            ) == old(self).superblock.fat_head_value,
            r is Ok && ino < old(self).num_inodes && old(self).head_of(ino as int) >= 0 && offset == old(
                self,
            ).size_of(ino as int) ==> final(self).block_of(ino as int, offset as int)
                == old(self).superblock.fat_head_value,
    {
        if ino >= self.num_inodes {
            return Err(Error::InodeOutOfBounds);
        }
        proof {
            self.lemma_entry_addressable(ino as int);
            assert(self.entry_ok(ino as int));
        }
        let (head, size) = self.get_inode_info(ino)?;
        proof {
            lemma_i32_bits(size);
            lemma_i32_of_u32(size as u32);
        }
        if head < 0 && size < 0 {
            self.write_first_block(ino, offset, buf)
        } else if offset > size as u32 {
            return Err(Error::UnknownCase);
        } else if offset < size as u32 {
            self.write_existing_block(ino, offset, buf)
        } else if offset == size as u32 {
            self.write_next_block(ino, offset, buf)
        } else {
            return Err(Error::UnknownCase);
        }
    }
}

proof fn lemma_unset_entry(beg: int)
    requires
        0 <= beg,
        beg + 4 <= BLOCK_SIZE,
    ensures
        le_i32_at(unset_block(), beg) == -1i32,
{
    lemma_unset_bytes();
    lemma_le_window(unset_block(), beg, 0xffffffffu32);
    assert(0xffffffffu32 as i32 == -1i32) by (bit_vector);
}

impl<T: Stackable> FS<T> {
    /// A consistent file system never holds `2^30` blocks in one file.
    pub proof fn lemma_valid_view(&self)
        requires
            self.valid(),
        ensures
            self.view().wf(),
    {
        assert forall|i: int| 0 <= i < self.view().files.len() implies (
        #[trigger] self.view().files[i]).len() < 0x4000_0000 by {
            assert(self.entry_ok(i));
        }
    }
}

/// A disk laid out by `setup_disk` and opened by `FS::new` is a consistent file
/// system in which every inode is empty and every data block is free.
pub proof fn law_formatted_fs_is_empty<T: Stackable>(fs: FS<T>, d: Seq<Seq<i8>>)
    requires
        fs.wf(),
        fs.superblock.fat_head_value == stored_head(fs.disk()),
        fs.disk() == formatted(d, fs.num_inodes as int),
    ensures
        fs.superblock.fat_head_value == 0,
        forall|ino: int| 0 <= ino < fs.num_inodes ==> #[trigger] fs.head_of(ino) == -1 && fs.size_of(ino) == -1,
        fs.valid(),
        fs.view() == (FsView {
            files: Seq::new(fs.num_inodes as nat, |i: int| Seq::<Seq<i8>>::empty()),
            free: fs.num_data_blocks as int,
        }),
{
    assert(fs.disk()[0] == zero_block());
    assert(crate::common::ubyte(0i8) == 0u32) by (bit_vector);
    assert((0u32 | (0u32 << 8u32) | (0u32 << 16u32) | (0u32 << 24u32)) as i32 == 0i32) by (bit_vector);
    assert(fs.superblock.fat_head_value == 0);
    assert forall|ino: int| 0 <= ino < fs.num_inodes implies #[trigger] fs.head_of(ino) == -1 && fs.size_of(ino) == -1 by {
        fs.lemma_entry_addressable(ino);
        lemma_unset_entry(FS::<T>::inode_byte(ino));
        lemma_unset_entry(FS::<T>::inode_byte(ino) + 4);
    }
    assert forall|ino: int| 0 <= ino < fs.num_inodes implies #[trigger] fs.entry_ok(ino) by {
        assert(fs.head_of(ino) == -1 && fs.size_of(ino) == -1);
    }
    assert forall|j: int| 0 <= j < fs.num_data_blocks implies #[trigger] fs.fat_next(j) == j + 1 by {
        fs.lemma_fat_entry_addressable(j);
        let beg = FS::<T>::fat_byte(j);
        let q = j / 128;
        assert(beg == 4 * (j % 128));
        assert(fs.fat_block(j) == fs.fat_table.disk_block_index + q);
        assert(fs.disk()[fs.fat_block(j)] == fat_init_block(q));
        assert forall|t: int| 0 <= t < 4 implies #[trigger] fat_init_block(q)[beg + t] == le_bytes(
            (j + 1) as u32,
        )[t] by {
            assert((beg + t) / 4 == j % 128);
            assert((beg + t) % 4 == t);
            assert(128 * q + j % 128 == j);
        }
        lemma_le_window(fat_init_block(q), beg, (j + 1) as u32);
    }
    assert forall|i1: int, k1: int, i2: int, k2: int|
        0 <= i1 < fs.num_inodes && 0 <= i2 < fs.num_inodes && fs.in_file(i1, k1) && fs.in_file(i2, k2)
            && (i1 != i2 || k1 != k2) implies #[trigger] fs.block_of(i1, k1) != #[trigger] fs.block_of(
        i2,
        k2,
    ) by {
        assert(fs.entry_ok(i1));
    }
    assert forall|ino: int| 0 <= ino < fs.num_inodes implies #[trigger] fs.file(ino) == Seq::<
        Seq<i8>,
    >::empty() by {
        assert(fs.entry_ok(ino));
    }
    assert(fs.view().files =~= Seq::new(fs.num_inodes as nat, |i: int| Seq::<Seq<i8>>::empty()));
}

/// Opening again, with `FS::new`, the disk of a consistent file system gives a
/// consistent file system that holds the same files and the same free blocks: the
/// free-list head is the one recorded on the disk.
pub proof fn law_reopen<T: Stackable>(fs: FS<T>, fs2: FS<T>)
    requires
        fs.valid(),
        fs2.wf(),
        fs2.num_inodes == fs.num_inodes,
        fs2.disk() == fs.disk(),
        fs2.superblock.fat_head_value == stored_head(fs2.disk()),
    ensures
        fs2.valid(),
        fs2.view() == fs.view(),
{
    assert(fs2.superblock.fat_head_value == fs.superblock.fat_head_value);
    assert(fs2.inode_table == fs.inode_table);
    assert(fs2.fat_table == fs.fat_table);
    assert(fs2.num_data_blocks == fs.num_data_blocks);
    assert forall|ino: int, k: int| #[trigger] fs2.block_of(ino, k) == fs.block_of(ino, k) by {
        assert(fs2.head_of(ino) == fs.head_of(ino));
        lemma_chain_same(fs, fs2, fs.head_of(ino) as int, k as nat);
    }
    assert forall|j: int| #[trigger] fs2.fat_next(j) == fs.fat_next(j) by {}
    assert forall|ino: int| #[trigger] fs2.size_of(ino) == fs.size_of(ino) && fs2.head_of(ino) == fs.head_of(ino) by {}
    assert forall|ino: int| 0 <= ino < fs.num_inodes implies #[trigger] fs2.file(ino) == fs.file(ino) by {
        if fs.head_of(ino) >= 0 && fs.size_of(ino) > 0 {
            assert(fs2.file(ino) =~= fs.file(ino));
        }
    }
    assert forall|ino: int| 0 <= ino < fs.num_inodes implies #[trigger] fs2.entry_ok(ino) by {
        assert(fs.entry_ok(ino));
    }
    assert forall|i1: int, k1: int, i2: int, k2: int|
        0 <= i1 < fs.num_inodes && 0 <= i2 < fs.num_inodes && fs2.in_file(i1, k1) && fs2.in_file(i2, k2)
            && (i1 != i2 || k1 != k2) implies #[trigger] fs2.block_of(i1, k1) != #[trigger] fs2.block_of(
        i2,
        k2,
    ) by {
        assert(fs.in_file(i1, k1) && fs.in_file(i2, k2));
    }
    assert(fs2.view().files =~= fs.view().files);
}

proof fn lemma_chain_same<T: Stackable>(fs: FS<T>, fs2: FS<T>, h: int, k: nat)
    requires
        fs2.disk() == fs.disk(),
        fs2.fat_table == fs.fat_table,
    ensures
        fs2.chain(h, k) == fs.chain(h, k),
    decreases k,
{
    if k > 0 {
        lemma_chain_same(fs, fs2, h, (k - 1) as nat);
    }
}

/// Writing any block of a never-written inode initialises it, whatever the offset:
/// while a free block is left, the write succeeds, the inode then holds exactly the
/// written block, one free block fewer remains, every other inode is untouched, and
/// reading block 0 gives the block back.
pub proof fn law_first_write_initialises(v: FsView, ino: u32, offset: u32, buf: Seq<i8>, other: int)
    requires
        ino < v.files.len(),
        v.files[ino as int].len() == 0,
        v.free > 0,
    ensures
        ({
            let (r, v2) = write_spec(v, ino, offset, buf);
            &&& r == Ok::<i32, Error>(0)
            &&& v2.files.len() == v.files.len()
            &&& v2.files[ino as int] =~= seq![buf]
            &&& v2.free == v.free - 1
            &&& 0 <= other < v.files.len() && other != ino ==> v2.files[other] == v.files[other]
            &&& read_spec(v2, ino, 0) == Ok::<Seq<i8>, Error>(buf)
        }),
{
}

/// After a successful write, reading the written block gives back what was written:
/// at `offset`, or at 0 when the inode was empty.
pub proof fn law_read_after_write(v: FsView, ino: u32, offset: u32, buf: Seq<i8>)
    requires
        v.wf(),
        write_spec(v, ino, offset, buf).0 is Ok,
    ensures
        ({
            let v2 = write_spec(v, ino, offset, buf).1;
            let at = if v.files[ino as int].len() == 0 { 0u32 } else { offset };
            read_spec(v2, ino, at) == Ok::<Seq<i8>, Error>(buf)
        }),
{
    let file = v.files[ino as int];
    assert(file.len() < 0x4000_0000);
    lemma_i32_of_u32(offset);
    lemma_i32_of_u32(0);
    lemma_i32_of_u32((file.len() + 1) as u32);
    lemma_i32_of_u32(file.len() as u32);
}

/// A write changes no other inode.
pub proof fn law_write_keeps_other_files(v: FsView, ino: u32, offset: u32, buf: Seq<i8>, other: int)
    requires
        0 <= other < v.files.len(),
        other != ino,
    ensures
        write_spec(v, ino, offset, buf).1.files[other] == v.files[other],
        write_spec(v, ino, offset, buf).1.files.len() == v.files.len(),
{
}

/// A write changes no other block of the inode it writes.
pub proof fn law_write_keeps_other_blocks(v: FsView, ino: u32, offset: u32, buf: Seq<i8>, k: int)
    requires
        ino < v.files.len(),
        0 <= k < v.files[ino as int].len(),
        k != offset,
        write_spec(v, ino, offset, buf).0 is Ok,
    ensures
        write_spec(v, ino, offset, buf).1.files[ino as int][k] == v.files[ino as int][k],
{
}

/// A failed write changes nothing; a successful one never shrinks a file, and takes a
/// free block exactly when the file grows.
pub proof fn law_write_growth(v: FsView, ino: u32, offset: u32, buf: Seq<i8>)
    requires
        ino < v.files.len(),
    ensures
        ({
            let (r, v2) = write_spec(v, ino, offset, buf);
            &&& r is Err ==> v2 == v
            &&& r is Ok ==> v2.files[ino as int].len() >= v.files[ino as int].len()
            &&& r is Ok ==> v2.free == v.free - (v2.files[ino as int].len() - v.files[ino as int].len())
            &&& r is Ok ==> v2.files[ino as int].len() <= v.files[ino as int].len() + 1
        }),
{
}

/// Writing to an empty inode, or at the end of a file, fails with `OutOfSpace` exactly
/// when no free block is left.
pub proof fn law_out_of_space(v: FsView, ino: u32, offset: u32, buf: Seq<i8>)
    requires
        ino < v.files.len(),
        v.files[ino as int].len() == 0 || offset == v.files[ino as int].len(),
    ensures
        (write_spec(v, ino, offset, buf).0 == Err::<i32, Error>(Error::OutOfSpace)) <==> v.free <= 0,
{
}

impl<T: Stackable> FS<T> {
    /// An inode table entry reads back as it was last set.
    pub proof fn law_inode_entry_round_trip(&self, t: Self, ino: int, head: u32, size: u32)
        requires
            self.wf(),
            self.inode_addressable(ino),
            t.same_layout(self),
            t.disk() == self.disk().update(
                self.inode_block(ino),
                splice(
                    splice(self.disk()[self.inode_block(ino)], Self::inode_byte(ino), le_bytes(head)),
                    Self::inode_byte(ino) + 4,
                    le_bytes(size),
                ),
            ),
        ensures
            t.head_of(ino) == head as i32,
            t.size_of(ino) == size as i32,
    {
        let b = self.inode_block(ino);
        let o = Self::inode_byte(ino);
        let s1 = splice(self.disk()[b], o, le_bytes(head));
        lemma_le_splice(self.disk()[b], o, head);
        lemma_le_splice(s1, o + 4, size);
    }

    /// The size stored by `set_size` is the one `get_size` reports.
    pub proof fn law_size_round_trip(&self, t: Self, ino: int, size: u32)
        requires
            self.wf(),
            self.inode_addressable(ino),
            t.same_layout(self),
            t.disk() == self.disk().update(
                self.inode_block(ino),
                splice(self.disk()[self.inode_block(ino)], Self::inode_byte(ino) + 4, le_bytes(size)),
            ),
        ensures
            t.size_of(ino) == size as i32,
            t.head_of(ino) == self.head_of(ino),
    {
        let b = self.inode_block(ino);
        let o = Self::inode_byte(ino);
        lemma_le_splice(self.disk()[b], o + 4, size);
    }

    /// A FAT entry reads back as it was last set.
    pub proof fn law_fat_entry_round_trip(&self, t: Self, j: int, next: i32)
        requires
            self.wf(),
            self.fat_addressable(j),
            t.same_layout(self),
            t.disk() == self.disk().update(
                self.fat_block(j),
                splice(self.disk()[self.fat_block(j)], Self::fat_byte(j), le_bytes(next as u32)),
            ),
        ensures
            t.fat_next(j) == next,
    {
        lemma_le_splice(self.disk()[self.fat_block(j)], Self::fat_byte(j), next as u32);
        lemma_i32_bits(next);
    }
}

/// Whether a file system of `num_inodes` inodes can be laid out and opened on a disk of
/// `disk` blocks.
pub fn geometry_fits(disk: u32, num_inodes: u32) -> (r: bool)
    ensures
        r == geometry_ok(disk as int, num_inodes as int),
{
    if num_inodes as u64 * 8 > u32::MAX as u64 || disk as u64 * 4 > u32::MAX as u64 {
        return false;
    }
    let it = FS::<crate::ramdisk::RamFS>::calc_inode_table(num_inodes);
    if disk < it || disk - it < 1 {
        return false;
    }
    let fat = FS::<crate::ramdisk::RamFS>::calc_fat_table(disk, it, 1);
    proof {
        lemma_fat_table_fits(disk as int, it as int);
    }
    disk - it - 1 > fat
}

/// Opens the file system laid out on `below` (see `FS::new`).
pub fn fs_init_rs<T: Stackable + IsDisk>(below: T, below_ino: u32, num_inodes: u32) -> (fs: FS<T>)
    requires
        below.inv(),
        below.reliable(),
        block_sized(below.blocks(0)),
        geometry_ok(below.blocks(0).len() as int, num_inodes as int),
    ensures
        fs.wf(),
        fs.below == below,
        fs.below_ino == below_ino,
        fs.num_inodes == num_inodes,
        fs.superblock.fat_head_value == stored_head(below.blocks(0)),
{
    FS::new(below, below_ino, num_inodes)
}

} // verus!

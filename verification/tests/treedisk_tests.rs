use mydisk::common::{Block, Stackable};
use mydisk::ramdisk::RamFS;
use mydisk::treedisk::{
    log_shift_r, setup_freelist, treedisk_create, treedisk_init, TreeDisk, TreediskSnapshot,
};

fn word(b: &Block, i: usize) -> u32 {
    let s = &b.bytes[4 * i..4 * i + 4];
    u32::from_le_bytes([s[0] as u8, s[1] as u8, s[2] as u8, s[3] as u8])
}

fn filled(tag: i8) -> Block {
    let mut b = Block::new();
    for (k, x) in b.bytes.iter_mut().enumerate() {
        *x = tag.wrapping_add(k as i8);
    }
    b
}

fn store() -> TreeDisk<RamFS> {
    let mut ram = RamFS::new();
    assert_eq!(treedisk_create(&mut ram, 0, 64), 0);
    treedisk_init(ram, 0)
}

fn block_at(td: &TreeDisk<RamFS>, n: u32) -> Block {
    let mut b = Block::new();
    td.below.read(0, n, &mut b).unwrap();
    b
}

#[test]
fn log_shift_r_values() {
    assert_eq!(log_shift_r(0x8000_0000, 31), 1);
    assert_eq!(log_shift_r(1000, 3), 125);
    assert_eq!(log_shift_r(0xffff_ffff, 32), 0);
    assert_eq!(log_shift_r(5, 40), 0);
    assert_eq!(log_shift_r(7, 0), 7);
}

#[test]
fn treedisk_init_computes_log_rpb() {
    let td = treedisk_init(RamFS::new(), 3);
    assert_eq!(td.log_rpb, 7);
    assert_eq!(td.below_ino, 3);
    assert_eq!(td.ninodes, 0);
}

// A fresh store on 32 blocks with 64 inodes: one inode block, a free list in block 2
// listing blocks 3 to 31.
#[test]
fn treedisk_create_lays_out_superblock_and_free_list() {
    let td = store();
    let sb = block_at(&td, 0);
    assert_eq!(word(&sb, 0), 1);
    assert_eq!(word(&sb, 1), 2);
    let inodes = block_at(&td, 1);
    assert!(inodes.bytes.iter().all(|&x| x == 0));
    let fl = block_at(&td, 2);
    assert_eq!(word(&fl, 0), 0);
    for m in 1..30 {
        assert_eq!(word(&fl, m), 2 + m as u32);
    }
    for m in 30..128 {
        assert_eq!(word(&fl, m), 0);
    }
}

#[test]
fn treedisk_create_refuses_small_disk() {
    let mut ram = RamFS::new();
    // 31 inode blocks need 33 blocks.
    assert_eq!(treedisk_create(&mut ram, 0, 31 * 64), -1);
    let mut b = Block::new();
    ram.read(0, 0, &mut b).unwrap();
    assert!(b.bytes.iter().all(|&x| x == 0));
}

#[test]
fn treedisk_create_keeps_existing_store() {
    let mut td = store();
    assert_eq!(td.treedisk_write(0, 0, &filled(1)), 0);
    let mut ram = td.below;
    assert_eq!(treedisk_create(&mut ram, 0, 128), 0);
    let td = treedisk_init(ram, 0);
    let sb = block_at(&td, 0);
    assert_eq!(word(&sb, 0), 1);
    let mut out = Block::new();
    assert_eq!(td.treedisk_read(0, 0, &mut out), 0);
    assert_eq!(out.bytes, filled(1).bytes);
}

#[test]
fn setup_freelist_single_block() {
    let mut ram = RamFS::new();
    assert_eq!(setup_freelist(&mut ram, 0, 5, 10), Some(5));
    let mut b = Block::new();
    ram.read(0, 5, &mut b).unwrap();
    assert_eq!(word(&b, 0), 0);
    assert_eq!(word(&b, 1), 6);
    assert_eq!(word(&b, 4), 9);
    assert_eq!(word(&b, 5), 0);
    assert_eq!(setup_freelist(&mut ram, 0, 10, 10), Some(0));
}

#[test]
fn treedisk_snapshot_of_inodes() {
    let td = store();
    let mut snap = TreediskSnapshot {
        superblock: Block::new(),
        inodeblock: Block::new(),
        inode_blockno: 0,
        inode: 0,
    };
    assert_eq!(td.treedisk_get_snapshot(&mut snap, 5), 0);
    assert_eq!(snap.inode_blockno, 1);
    assert_eq!(snap.inode, 5);
    assert_eq!(word(&snap.superblock, 1), 2);
    assert_eq!(td.treedisk_get_snapshot(&mut snap, 64), -1);
}

#[test]
fn treedisk_sizes() {
    let mut td = store();
    assert_eq!(td.treedisk_getsize(0), 0);
    assert_eq!(td.treedisk_getsize(63), 0);
    assert_eq!(td.treedisk_getsize(64), -1);
    assert_eq!(td.treedisk_setsize(0, 10), -1);
    assert_eq!(td.treedisk_getsize(0), 0);
}

#[test]
fn treedisk_read_errors() {
    let mut td = store();
    let mut out = filled(9);
    assert_eq!(td.treedisk_read(0, 0, &mut out), -1);
    assert_eq!(td.treedisk_read(64, 0, &mut out), -1);
    assert_eq!(td.treedisk_write(0, 0, &filled(1)), 0);
    assert_eq!(td.treedisk_read(0, 1, &mut out), -1);
    assert_eq!(td.treedisk_write(64, 0, &filled(1)), -1);
}

// The first write of a fresh inode takes the last free entry, block 31, as its only
// block, which is also its root.
#[test]
fn treedisk_first_write_takes_last_free_entry() {
    let mut td = store();
    let d = filled(7);
    assert_eq!(td.treedisk_write(0, 0, &d), 0);
    let inodes = block_at(&td, 1);
    assert_eq!(word(&inodes, 0), 31);
    assert_eq!(word(&inodes, 1), 1);
    assert_eq!(block_at(&td, 31).bytes, d.bytes);
    assert_eq!(word(&block_at(&td, 2), 29), 0);
    let mut out = Block::new();
    assert_eq!(td.treedisk_read(0, 0, &mut out), 0);
    assert_eq!(out.bytes, d.bytes);
    assert_eq!(td.treedisk_getsize(0), 1);
}

// A second block makes the tree grow a level: a new top block (30) over the old root,
// then a data block (29) below it.
#[test]
fn treedisk_growth_keeps_old_blocks() {
    let mut td = store();
    assert_eq!(td.treedisk_write(0, 0, &filled(1)), 0);
    assert_eq!(td.treedisk_write(0, 1, &filled(2)), 0);
    let inodes = block_at(&td, 1);
    assert_eq!(word(&inodes, 0), 30);
    assert_eq!(word(&inodes, 1), 2);
    let top = block_at(&td, 30);
    assert_eq!(word(&top, 0), 31);
    assert_eq!(word(&top, 1), 29);
    assert_eq!(word(&top, 2), 0);
    let mut out = Block::new();
    assert_eq!(td.treedisk_read(0, 0, &mut out), 0);
    assert_eq!(out.bytes, filled(1).bytes);
    assert_eq!(td.treedisk_read(0, 1, &mut out), 0);
    assert_eq!(out.bytes, filled(2).bytes);
    assert_eq!(td.treedisk_getsize(0), 2);
}

// A write past the end leaves a hole that reads as zeroes.
#[test]
fn treedisk_hole_reads_zero() {
    let mut td = store();
    assert_eq!(td.treedisk_write(1, 3, &filled(5)), 0);
    assert_eq!(td.treedisk_getsize(1), 4);
    let mut out = filled(9);
    assert_eq!(td.treedisk_read(1, 1, &mut out), 0);
    assert!(out.bytes.iter().all(|&x| x == 0));
    assert_eq!(td.treedisk_read(1, 3, &mut out), 0);
    assert_eq!(out.bytes, filled(5).bytes);
    // root 31, data block 30 at entry 3
    let inodes = block_at(&td, 1);
    assert_eq!(word(&inodes, 2), 31);
    assert_eq!(word(&block_at(&td, 31), 3), 30);
}

// A write far out builds two levels at once; other inodes are untouched.
#[test]
fn treedisk_far_write_and_other_inodes() {
    let mut td = store();
    assert_eq!(td.treedisk_write(0, 0, &filled(1)), 0);
    assert_eq!(td.treedisk_write(2, 200, &filled(3)), 0);
    assert_eq!(td.treedisk_getsize(2), 201);
    let mut out = Block::new();
    assert_eq!(td.treedisk_read(2, 200, &mut out), 0);
    assert_eq!(out.bytes, filled(3).bytes);
    assert_eq!(td.treedisk_read(2, 100, &mut out), 0);
    assert!(out.bytes.iter().all(|&x| x == 0));
    assert_eq!(td.treedisk_read(0, 0, &mut out), 0);
    assert_eq!(out.bytes, filled(1).bytes);
    assert_eq!(td.treedisk_getsize(0), 1);
}

// Overwriting a block takes nothing off the free list.
#[test]
fn treedisk_overwrite_in_place() {
    let mut td = store();
    assert_eq!(td.treedisk_write(0, 0, &filled(1)), 0);
    assert_eq!(td.treedisk_write(0, 0, &filled(4)), 0);
    assert_eq!(word(&block_at(&td, 1), 0), 31);
    assert_eq!(word(&block_at(&td, 2), 28), 30);
    let mut out = Block::new();
    assert_eq!(td.treedisk_read(0, 0, &mut out), 0);
    assert_eq!(out.bytes, filled(4).bytes);
}

// Once the entries of the free-list block are used up, the block itself is handed out
// and the superblock's free list ends.
#[test]
fn treedisk_free_list_block_is_handed_out_last() {
    let mut td = store();
    for o in 0..30u32 {
        assert_eq!(td.treedisk_write(o, 0, &filled(o as i8)), 0);
    }
    assert_eq!(word(&block_at(&td, 0), 1), 0);
    let inodes = block_at(&td, 1);
    assert_eq!(word(&inodes, 2 * 29), 2);
    let mut out = Block::new();
    for o in 0..30u32 {
        assert_eq!(td.treedisk_read(o, 0, &mut out), 0);
        assert_eq!(out.bytes, filled(o as i8).bytes);
    }
}

// A disk whose reads of one block fail; everything else goes to a RAM disk.
struct FlakyDisk {
    ram: RamFS,
    bad: u32,
    size_fails: bool,
}

impl Stackable for FlakyDisk {
    fn get_size(&self, ino: u32) -> Result<u32, mydisk::common::Error> {
        if self.size_fails {
            Err(mydisk::common::Error::UnknownFailure)
        } else {
            self.ram.get_size(ino)
        }
    }
    fn set_size(&mut self, ino: u32, size: u32) -> Result<i32, mydisk::common::Error> {
        self.ram.set_size(ino, size)
    }
    fn read(&self, ino: u32, offset: u32, buf: &mut Block) -> Result<i32, mydisk::common::Error> {
        if offset == self.bad {
            Err(mydisk::common::Error::UnknownFailure)
        } else {
            self.ram.read(ino, offset, buf)
        }
    }
    fn write(&mut self, ino: u32, offset: u32, buf: &Block) -> Result<i32, mydisk::common::Error> {
        self.ram.write(ino, offset, buf)
    }
}

// When the disk cannot read the superblock or the inode block, reads, sizes and writes
// give -1 and the disk is left as it was.
#[test]
fn treedisk_failing_disk_reads_fail() {
    let mut td = store();
    assert_eq!(td.treedisk_write(3, 0, &filled(4)), 0);
    for bad in [0u32, 1u32] {
        let flaky = FlakyDisk { ram: td.below, bad, size_fails: false };
        let mut ftd = treedisk_init(flaky, 0);
        let mut out = Block::new();
        assert_eq!(ftd.treedisk_read(3, 0, &mut out), -1);
        assert_eq!(ftd.treedisk_getsize(3), -1);
        assert_eq!(ftd.treedisk_write(3, 1, &filled(5)), -1);
        td = treedisk_init(ftd.below.ram, 0);
    }
    let mut out = Block::new();
    assert_eq!(td.treedisk_read(3, 0, &mut out), 0);
    assert_eq!(out.bytes, filled(4).bytes);
    assert_eq!(td.treedisk_getsize(3), 1);
}

// Formatting a disk whose superblock cannot be read fails and writes nothing.
#[test]
fn treedisk_create_failing_superblock() {
    let mut flaky = FlakyDisk { ram: RamFS::new(), bad: 0, size_fails: false };
    assert_eq!(treedisk_create(&mut flaky, 0, 64), -1);
    let mut b = Block::new();
    for n in 0..32u32 {
        flaky.ram.read(0, n, &mut b).unwrap();
        assert!(b.bytes.iter().all(|&x| x == 0));
    }
}

// When the size of the disk cannot be had, a formatted disk is still recognised (0, and
// nothing written), and an unformatted one is left as it is (-1).
#[test]
fn treedisk_create_unknown_size() {
    let mut ram = RamFS::new();
    assert_eq!(treedisk_create(&mut ram, 0, 64), 0);
    let mut flaky = FlakyDisk { ram, bad: 100, size_fails: true };
    assert_eq!(treedisk_create(&mut flaky, 0, 64), 0);
    let mut fresh = FlakyDisk { ram: RamFS::new(), bad: 100, size_fails: true };
    assert_eq!(treedisk_create(&mut fresh, 0, 64), -1);
    let mut b = Block::new();
    fresh.ram.read(0, 0, &mut b).unwrap();
    assert!(b.bytes.iter().all(|&x| x == 0));
}

// A write whose free-list block cannot be read stops with -1.
#[test]
fn treedisk_write_fails_when_free_list_unreadable() {
    let td = store();
    let mut sb = Block::new();
    td.below.read(0, 0, &mut sb).unwrap();
    let head = word(&sb, 1);
    let mut ftd = treedisk_init(FlakyDisk { ram: td.below, bad: head, size_fails: false }, 0);
    assert_eq!(ftd.treedisk_write(0, 0, &filled(1)), -1);
}

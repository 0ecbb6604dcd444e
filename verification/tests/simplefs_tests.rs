use mydisk::common::{Block, Error};
use mydisk::ramdisk::RamFS;
use mydisk::simplefs::{SimpleFS, SUGGESTED_ROW_WIDTH};

fn filled(tag: i8) -> Block {
    let mut b = Block::new();
    for (k, x) in b.bytes.iter_mut().enumerate() {
        *x = tag.wrapping_add(k as i8);
    }
    b
}

fn fs() -> SimpleFS<RamFS> {
    let mut ram = RamFS::new();
    assert!(matches!(SimpleFS::<RamFS>::setup_disk(&mut ram, 0, 4), Ok(0)));
    SimpleFS::new(ram, 0, 4)
}

#[test]
fn simplefs_metadata() {
    let m = SimpleFS::<RamFS>::compute_metadata(4).unwrap();
    assert_eq!(m.row_width, SUGGESTED_ROW_WIDTH as u32);
    assert_eq!(m.num_blocks_needed, 1);
    assert_eq!(SimpleFS::<RamFS>::compute_metadata(129).unwrap().num_blocks_needed, 2);
    let f = fs();
    assert_eq!(f.get_metadata().unwrap().num_blocks_needed, 1);
}

// 32 blocks shared by 4 inodes: 8 each.
#[test]
fn simplefs_sizes() {
    let mut f = fs();
    assert_eq!(f.get_size().unwrap(), 8);
    assert!(matches!(f.set_size(3), Err(Error::UnknownFailure)));
    // each inode has its own 4-byte row
    assert_eq!(f.compute_indices(1).unwrap(), (0, 4));
    assert_eq!(f.compute_indices(3).unwrap(), (0, 12));
    assert_eq!(f.blocks_used(1), 0);
}

#[test]
fn simplefs_read_after_write() {
    let mut f = fs();
    let mut out = Block::new();
    assert!(matches!(f.read(1, 0, &mut out), Err(Error::UnknownFailure)));
    assert_eq!(f.write(1, 0, &filled(3)).unwrap(), 0);
    assert_eq!(f.blocks_used(1), 1);
    assert_eq!(f.read(1, 0, &mut out).unwrap(), 0);
    assert_eq!(out.bytes, filled(3).bytes);
    assert!(matches!(f.read(1, 1, &mut out), Err(Error::UnknownFailure)));
}

// A write past the written blocks zeroes those skipped over.
#[test]
fn simplefs_skipped_blocks_read_zero() {
    let mut f = fs();
    assert_eq!(f.write(2, 0, &filled(1)).unwrap(), 0);
    assert_eq!(f.write(2, 3, &filled(2)).unwrap(), 0);
    assert_eq!(f.blocks_used(2), 4);
    let mut out = filled(9);
    assert_eq!(f.read(2, 1, &mut out).unwrap(), 0);
    assert!(out.bytes.iter().all(|&x| x == 0));
    assert_eq!(f.read(2, 3, &mut out).unwrap(), 0);
    assert_eq!(out.bytes, filled(2).bytes);
    assert_eq!(f.read(2, 0, &mut out).unwrap(), 0);
    assert_eq!(out.bytes, filled(1).bytes);
}

// Inodes do not disturb each other.
#[test]
fn simplefs_inodes_separate() {
    let mut f = fs();
    assert_eq!(f.write(0, 0, &filled(1)).unwrap(), 0);
    assert_eq!(f.write(3, 0, &filled(2)).unwrap(), 0);
    let mut out = Block::new();
    assert_eq!(f.read(0, 0, &mut out).unwrap(), 0);
    assert_eq!(out.bytes, filled(1).bytes);
    assert_eq!(f.blocks_used(3), 1);
    assert_eq!(f.read(3, 0, &mut out).unwrap(), 0);
    assert_eq!(out.bytes, filled(2).bytes);
}

// Offsets past an inode's share, and inodes past the count, are refused.
#[test]
fn simplefs_out_of_range() {
    let mut f = fs();
    assert!(matches!(f.write(1, 8, &filled(1)), Err(Error::UnknownFailure)));
    assert!(matches!(f.write(4, 0, &filled(1)), Err(Error::UnknownFailure)));
}

// The last inode's run is shifted by the metadata block: its last block falls past
// the disk, and the write fails leaving the disk as it was.
#[test]
fn simplefs_last_block_past_disk() {
    let mut f = fs();
    assert!(f.write(3, 7, &filled(1)).is_err());
    assert_eq!(f.blocks_used(3), 0);
    assert_eq!(f.write(3, 6, &filled(1)).unwrap(), 0);
}

// Neighbouring inodes keep separate counts of written blocks.
#[test]
fn simplefs_rows_independent() {
    let mut f = fs();
    f.set_blocks_used(2, 5);
    f.set_blocks_used(3, 7);
    assert_eq!(f.blocks_used(2), 5);
    assert_eq!(f.blocks_used(3), 7);
    assert_eq!(f.blocks_used(1), 0);
}

use mydisk::common::{unix_fix_u8_to_i8_full, Block, Error};
use mydisk::fat::{fs_create_rs, fs_init_rs, FS, NULL_POINTER};
use mydisk::ramdisk::RamFS;

const NUM_INODES: u32 = 10;
const ONE_BLOCK_STRING: &str = "With only 2000 lines of code, egos-2000 implements all the basics";
const TWO_BLOCK_STRING: &str = "Two households, both alike in dignity
    (In fair Verona, where we lay our scene),
    From ancient grudge break to new mutiny,
    Where civil blood makes civil hands unclean.
    From forth the fatal loins of these two foes
    A pair of star-crossed lovers take their life;
    Whose misadventured piteous overthrows
    Doth with their death bury their parents’ strife.
    The fearful passage of their death-marked love
    And the continuance of their parents’ rage,
    Which, but their children’s end, naught could remove,
    Is now the two hours’ traffic of our stage;
    The which, if you with patient ears attend,
    What here shall miss, our toil shall strive to mend.";

type DiskFS = RamFS;

fn formatted() -> FS<RamFS> {
    let mut disk_fs = DiskFS::new();
    let result = fs_create_rs(&mut disk_fs, 0, NUM_INODES);
    assert_eq!(result, 0);
    fs_init_rs(disk_fs, 0, NUM_INODES)
}

fn block_of(text: &[u8]) -> Block {
    let mut block = Block::new();
    block.write_bytes(&unix_fix_u8_to_i8_full(text), 0, text.len());
    block
}

#[test]
fn test_initialize_new_fs_instance() {
    let below = DiskFS::new();
    let below_ino = 0;
    let num_inodes = NUM_INODES;

    let fs = fs_init_rs(below, below_ino, num_inodes);

    assert_eq!(fs.below_ino, below_ino);
    assert_eq!(fs.num_inodes, num_inodes);
    assert_eq!(fs.superblock.fat_head_value, 0);
    assert_eq!(fs.superblock.disk_block_index, 0);
    // 80 bytes needed for 10 inodes
    assert_eq!(fs.inode_table.num_blocks, 1);
    assert_eq!(fs.inode_table.disk_block_index, 1);
    assert_eq!(fs.fat_table.num_blocks, 1);
    assert_eq!(fs.fat_table.disk_block_index, 2);
}

#[test]
fn setup_disk_test() {
    let mut disk_fs = DiskFS::new();

    let result = fs_create_rs(&mut disk_fs, 0, NUM_INODES);
    let mut result_ = fs_init_rs(disk_fs, 0, NUM_INODES);
    assert_eq!(result, 0);

    assert_eq!(result_.get_inode_info(1).unwrap(), (-1, -1));

    assert_eq!(result_.get_fat_table_info(0), 1);
}

#[test]
fn update_metadata_disk_test() {
    let mut disk_fs = DiskFS::new();

    let result = fs_create_rs(&mut disk_fs, 0, NUM_INODES);
    let mut result_ = fs_init_rs(disk_fs, 0, NUM_INODES);
    assert_eq!(result, 0);

    assert_eq!(result_.get_and_update_superblock().unwrap(), 0);
    assert_eq!(result_.get_and_update_superblock().unwrap(), 1);

    result_.update_inode_info(1, 1, 1);
    assert_eq!(result_.get_inode_info(1).unwrap(), (1, 1));

    result_.update_fat_table_info(0, 2);
    assert_eq!(result_.get_fat_table_info(0), 2);
}

#[test]
fn fs_get_size_test() {
    let mut disk_fs = DiskFS::new();

    let result = fs_create_rs(&mut disk_fs, 0, NUM_INODES);
    let mut result_ = fs_init_rs(disk_fs, 0, NUM_INODES);
    assert_eq!(result, 0);

    result_.update_inode_info(1, 1, 1);
    assert_eq!(result_.get_size(1).unwrap(), 1);
}

#[test]
fn fs_set_size_test() {
    let mut disk_fs = DiskFS::new();

    let result = fs_create_rs(&mut disk_fs, 0, NUM_INODES);
    let mut result_ = fs_init_rs(disk_fs, 0, NUM_INODES);
    assert_eq!(result, 0);

    let _ = result_.set_size(1, 5);
    assert_eq!(result_.get_size(1).unwrap(), 5);
}

#[test]
fn fs_read_write_test() {
    let mut disk_fs = DiskFS::new();

    let result = fs_create_rs(&mut disk_fs, 0, NUM_INODES);
    let mut result_ = fs_init_rs(disk_fs, 0, NUM_INODES);
    assert_eq!(result, 0);

    let bytes = ONE_BLOCK_STRING.as_bytes();
    let mut block = Block::new();
    block.write_bytes(&unix_fix_u8_to_i8_full(bytes), 0, bytes.len());
    let res = result_.write(1, 0, &block);
    assert_eq!(res.unwrap(), 0);

    let mut block_2 = Block::new();
    let res_ = result_.read(1, 0, &mut block_2);
    assert_eq!(res_.unwrap(), 0);
    assert_eq!(block_2.read_bytes(), block.read_bytes());
}

#[test]
fn fs_read_write_test_2blocks() {
    let mut disk_fs = DiskFS::new();

    let result = fs_create_rs(&mut disk_fs, 0, NUM_INODES);
    let mut result_ = fs_init_rs(disk_fs, 0, NUM_INODES);
    assert_eq!(result, 0);

    let bytes = TWO_BLOCK_STRING.as_bytes();

    let mut block = Block::new();
    block.write_bytes(&unix_fix_u8_to_i8_full(&bytes[0..512]), 0, 512);
    let res = result_.write(1, 0, &block);
    assert_eq!(res.unwrap(), 0);
    let mut block_ = Block::new();
    block_.write_bytes(&unix_fix_u8_to_i8_full(&bytes[512..bytes.len()]), 0, 180);
    let res = result_.write(1, 1, &block_);
    assert_eq!(res.unwrap(), 0);

    let mut block_2 = Block::new();
    let mut res_ = result_.read(1, 0, &mut block_2);
    assert_eq!(res_.unwrap(), 0);
    assert_eq!(block_2.read_bytes(), block.read_bytes());

    let mut block_2_ = Block::new();
    res_ = result_.read(1, 1, &mut block_2_);
    assert_eq!(res_.unwrap(), 0);
    assert_eq!(block_2_.read_bytes(), block_.read_bytes());
}

#[test]
fn gen_read_write() {
    // see python code
}

// A fresh file system: every inode is empty, the free list starts at data block 0.
#[test]
fn fat_fresh_inodes_are_empty() {
    let mut fs = formatted();
    for ino in 0..NUM_INODES {
        assert_eq!(fs.get_inode_info(ino).unwrap(), (NULL_POINTER, NULL_POINTER));
    }
    assert_eq!(fs.get_and_update_superblock().unwrap(), 0);
}

// Geometry of a 32-block disk: superblock, one inode-table block, one FAT block,
// 29 data blocks.
#[test]
fn fat_geometry_of_ram_disk() {
    let fs = formatted();
    assert_eq!(fs.num_data_blocks, 29);
    assert_eq!(FS::<RamFS>::calc_inode_table(10), 1);
    assert_eq!(FS::<RamFS>::calc_inode_table(64), 1);
    assert_eq!(FS::<RamFS>::calc_inode_table(65), 2);
    assert_eq!(FS::<RamFS>::calc_inode_table_indices(0), (0, 0));
    assert_eq!(FS::<RamFS>::calc_inode_table_indices(65), (1, 8));
    assert_eq!(FS::<RamFS>::calc_fat_table_indices(129), (1, 4));
}

// Writes land in order: a file of three blocks reads back block by block, and other
// files stay empty.
#[test]
fn fat_three_block_file_reads_back() {
    let mut fs = formatted();
    let blocks = [block_of(b"first"), block_of(b"second"), block_of(b"third")];
    for (i, b) in blocks.iter().enumerate() {
        assert_eq!(fs.write(2, i as u32, b).unwrap(), 0);
    }
    assert_eq!(fs.get_size(2).unwrap(), 3);
    for (i, b) in blocks.iter().enumerate() {
        let mut out = Block::new();
        assert_eq!(fs.read(2, i as u32, &mut out).unwrap(), 0);
        assert_eq!(out.read_bytes(), b.read_bytes());
    }
    assert_eq!(fs.get_inode_info(3).unwrap(), (NULL_POINTER, NULL_POINTER));
}

// Overwriting a block keeps the size and the other blocks.
#[test]
fn fat_overwrite_keeps_other_blocks() {
    let mut fs = formatted();
    assert_eq!(fs.write(0, 0, &block_of(b"a")).unwrap(), 0);
    assert_eq!(fs.write(0, 1, &block_of(b"b")).unwrap(), 0);
    assert_eq!(fs.write(0, 0, &block_of(b"c")).unwrap(), 0);
    assert_eq!(fs.get_size(0).unwrap(), 2);
    let mut out = Block::new();
    fs.read(0, 0, &mut out).unwrap();
    assert_eq!(out.read_bytes(), block_of(b"c").read_bytes());
    fs.read(0, 1, &mut out).unwrap();
    assert_eq!(out.read_bytes(), block_of(b"b").read_bytes());
}

// Two files interleaved do not disturb each other.
#[test]
fn fat_two_files_interleaved() {
    let mut fs = formatted();
    assert_eq!(fs.write(4, 0, &block_of(b"x0")).unwrap(), 0);
    assert_eq!(fs.write(5, 0, &block_of(b"y0")).unwrap(), 0);
    assert_eq!(fs.write(4, 1, &block_of(b"x1")).unwrap(), 0);
    let mut out = Block::new();
    fs.read(4, 1, &mut out).unwrap();
    assert_eq!(out.read_bytes(), block_of(b"x1").read_bytes());
    fs.read(5, 0, &mut out).unwrap();
    assert_eq!(out.read_bytes(), block_of(b"y0").read_bytes());
    assert_eq!(fs.get_size(4).unwrap(), 2);
    assert_eq!(fs.get_size(5).unwrap(), 1);
}

// Reading an unwritten inode, or past the end of a file, fails with
// ReadOffsetTooLarge; an inode past the table fails with InodeOutOfBounds.
#[test]
fn fat_read_errors() {
    let mut fs = formatted();
    let mut out = Block::new();
    assert!(matches!(fs.read(1, 0, &mut out), Err(Error::ReadOffsetTooLarge)));
    assert_eq!(fs.write(1, 0, &block_of(b"z")).unwrap(), 0);
    assert!(matches!(fs.read(1, 1, &mut out), Err(Error::ReadOffsetTooLarge)));
    assert!(matches!(fs.read(NUM_INODES, 0, &mut out), Err(Error::InodeOutOfBounds)));
    assert!(matches!(fs.write(NUM_INODES, 0, &block_of(b"z")), Err(Error::InodeOutOfBounds)));
}

// A write more than one block past the end is refused with UnknownCase.
#[test]
fn fat_write_past_end_refused() {
    let mut fs = formatted();
    assert_eq!(fs.write(1, 0, &block_of(b"z")).unwrap(), 0);
    assert!(matches!(fs.write(1, 3, &block_of(b"w")), Err(Error::UnknownCase)));
    assert_eq!(fs.get_size(1).unwrap(), 1);
}

// The disk runs out after its 29 data blocks: OutOfSpace.
#[test]
fn fat_out_of_space() {
    let mut fs = formatted();
    for i in 0..29u32 {
        assert_eq!(fs.write(0, i, &block_of(b"d")).unwrap(), 0);
    }
    assert!(matches!(fs.write(0, 29, &block_of(b"e")), Err(Error::OutOfSpace)));
    assert!(matches!(fs.write(1, 0, &block_of(b"e")), Err(Error::OutOfSpace)));
}

// Opening the disk again keeps the free-list head recorded in the superblock: blocks
// already handed out are not handed out twice.
#[test]
fn fat_reopen_keeps_head() {
    let mut fs = formatted();
    let a = block_of(b"kept");
    assert_eq!(fs.write(1, 0, &a).unwrap(), 0);
    assert_eq!(fs.superblock.fat_head_value, 1);
    let mut fs2 = fs_init_rs(fs.below, 0, NUM_INODES);
    assert_eq!(fs2.superblock.fat_head_value, 1);
    assert_eq!(fs2.write(2, 0, &block_of(b"other")).unwrap(), 0);
    let mut out = Block::new();
    assert_eq!(fs2.read(1, 0, &mut out).unwrap(), 0);
    assert_eq!(out.read_bytes(), a.read_bytes());
}

// The FAT set up on the disk chains each data block to the next.
#[test]
fn fat_initial_chain() {
    let mut fs = formatted();
    for j in 0..28 {
        assert_eq!(fs.get_fat_table_info(j), j + 1);
    }
}

use mydisk::common::{
    read_u32_le, unix_fix_i8_to_u8, unix_fix_i8_to_u8_full, unix_fix_u8_to_i8,
    unix_fix_u8_to_i8_full, write_u32_le, Block, Stackable,
};
use mydisk::ramdisk::RamFS;

#[test]
fn unix_fix_pads_and_reinterprets() {
    assert_eq!(unix_fix_u8_to_i8(&[255, 1]), [-1, 1, 0, 0]);
    assert_eq!(unix_fix_i8_to_u8(&[-1, -128, 127, 0]), [255, 128, 127, 0]);
    assert_eq!(unix_fix_u8_to_i8_full(&[200, 3]), vec![-56, 3]);
    assert_eq!(unix_fix_i8_to_u8_full(&[-56, 3]), vec![200, 3]);
}

#[test]
fn block_bytes_round_trip() {
    let mut b = Block::new();
    b.write_bytes(&[1, 2, 3], 10, 13);
    assert_eq!(&b.read_bytes()[9..14], &[0, 1, 2, 3, 0]);
    write_u32_le(&mut b, 100, 0xdead_beef);
    assert_eq!(read_u32_le(&b, 100), 0xdead_beef);
    assert_eq!(b.bytes[100], 0xefu8 as i8);
}

#[test]
fn ram_disk_reads_back() {
    let mut ram = RamFS::new();
    assert_eq!(ram.get_size(0).unwrap(), 32);
    let mut b = Block::new();
    b.bytes[0] = 5;
    assert!(ram.write(0, 31, &b).is_ok());
    let mut out = Block::new();
    assert!(ram.read(0, 31, &mut out).is_ok());
    assert_eq!(out.bytes, b.bytes);
    assert!(ram.read(0, 32, &mut out).is_err());
    assert!(ram.write(0, 32, &b).is_err());
}

use mydisk::clock::{Below, ClockCache};

#[test]
fn below_reads_what_was_written() {
    let mut below = Below::new();
    assert!(below.read(1, 2).is_none());
    below.write(1, 2, vec![1, 2, 3]);
    below.write(2, 1, vec![9]);
    assert_eq!(below.read(1, 2), Some(&vec![1, 2, 3]));
    assert_eq!(below.read(2, 1), Some(&vec![9]));
    below.write(1, 2, vec![4]);
    assert_eq!(below.read(1, 2), Some(&vec![4]));
    assert!(below.read(2, 2).is_none());
}

// A read of a block the store lacks gives an empty block.
#[test]
fn cache_read_of_missing_block_is_empty() {
    let mut below = Below::new();
    let mut cache = ClockCache::new(2);
    assert_eq!(cache.read(&mut below, 0, 0), Vec::<u8>::new());
}

// A read goes through to the store once and is served from the cache afterwards.
#[test]
fn cache_read_fetches_from_store() {
    let mut below = Below::new();
    below.write(3, 4, vec![7, 7]);
    let mut cache = ClockCache::new(2);
    assert_eq!(cache.read(&mut below, 3, 4), vec![7, 7]);
    assert_eq!(cache.read(&mut below, 3, 4), vec![7, 7]);
}

// Writes stay in the cache until evicted or flushed.
#[test]
fn cache_write_is_write_back() {
    let mut below = Below::new();
    let mut cache = ClockCache::new(2);
    cache.write(&mut below, 1, 0, vec![1]);
    assert_eq!(cache.read(&mut below, 1, 0), vec![1]);
    assert!(below.read(1, 0).is_none());
}

// With both slots referenced, the clock clears both bits and evicts the slot under
// the hand: the dirty block (1, 1) goes to the store.
#[test]
fn cache_eviction_writes_back_dirty_block() {
    let mut below = Below::new();
    let mut cache = ClockCache::new(2);
    cache.write(&mut below, 1, 0, vec![1]);
    cache.write(&mut below, 1, 1, vec![2]);
    cache.write(&mut below, 1, 2, vec![3]);
    assert_eq!(below.read(1, 1), Some(&vec![2]));
    assert!(below.read(1, 0).is_none());
    assert_eq!(cache.read(&mut below, 1, 2), vec![3]);
    assert_eq!(cache.read(&mut below, 1, 0), vec![1]);
}

// A clean block is evicted without a write.
#[test]
fn cache_eviction_of_clean_block() {
    let mut below = Below::new();
    below.write(5, 0, vec![5]);
    below.write(5, 1, vec![6]);
    let mut cache = ClockCache::new(1);
    assert_eq!(cache.read(&mut below, 5, 0), vec![5]);
    assert_eq!(cache.read(&mut below, 5, 1), vec![6]);
    assert_eq!(below.read(5, 0), Some(&vec![5]));
}

// A flush of every inode writes all dirty blocks back.
#[test]
fn cache_synch_all_flushes() {
    let mut below = Below::new();
    let mut cache = ClockCache::new(4);
    cache.write(&mut below, 1, 0, vec![1]);
    cache.write(&mut below, 2, 0, vec![2]);
    cache.synch(&mut below, -1);
    assert_eq!(below.read(1, 0), Some(&vec![1]));
    assert_eq!(below.read(2, 0), Some(&vec![2]));
}

// A flush of one inode writes back only its dirty blocks.
#[test]
fn cache_synch_one_inode() {
    let mut below = Below::new();
    let mut cache = ClockCache::new(4);
    cache.write(&mut below, 1, 0, vec![1]);
    cache.write(&mut below, 2, 0, vec![2]);
    cache.synch(&mut below, 2);
    assert!(below.read(1, 0).is_none());
    assert_eq!(below.read(2, 0), Some(&vec![2]));
}

// After a flush every block still reads through the cache as before, the blocks of
// other inodes included, and a later flush writes those back.
#[test]
fn cache_synch_keeps_blocks() {
    let mut below = Below::new();
    let mut cache = ClockCache::new(4);
    cache.write(&mut below, 1, 0, vec![1]);
    cache.write(&mut below, 2, 0, vec![2]);
    cache.synch(&mut below, 2);
    assert_eq!(cache.read(&mut below, 1, 0), vec![1]);
    assert_eq!(cache.read(&mut below, 2, 0), vec![2]);
    cache.synch(&mut below, -1);
    assert_eq!(below.read(1, 0), Some(&vec![1]));
}

#[test]
fn cache_sizes_are_zero() {
    let mut cache = ClockCache::new(1);
    assert_eq!(cache.get_size(3), 0);
    cache.set_size(3, 10);
    assert_eq!(cache.get_size(3), 0);
    assert_eq!(cache.below_get_size(3), 0);
}

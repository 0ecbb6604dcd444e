//! A tree-structured inode store over a disk.
//!
//! Block 0 is the superblock (the number of inode blocks and the first block of the
//! free list); blocks `1 ..= n_inodeblocks` hold 64 inodes each (the root block and
//! the number of blocks of each inode); every inode is a tree of indirect blocks of
//! 128 block numbers each, `0` meaning a block of zeroes; free blocks are listed in
//! free-list blocks, whose first entry links to the next free-list block.
use vstd::prelude::*;

use crate::common::{
    block_sized, le_bytes, le_u32_at, lemma_le_splice, lemma_le_window, read_u32_le, splice,
    write_u32_le, zero_block, Block, Error, Stackable, BLOCK_SIZE,
};
use crate::treeview::{
    cap, content, descent, fcount, first_zero, free_count, growing, hang_ok, head_of, hung, iroot,
    isize, lemma_descent_facts, lemma_descent_hang, lemma_descent_overwrite, lemma_descent_start,
    lemma_first_zero_at, lemma_first_zero_same, lemma_free_count, lemma_growing_done,
    lemma_growing_empty, lemma_growing_start, lemma_growing_step, lemma_levels, lemma_levels_order,
    lemma_popped_commute, lemma_ref_zero, lemma_store_facts, n_of, needed, node, popped, sound,
    store_ok, top_block, valid, written, Owner, lemma_last_free,
};

verus! {

/// Block numbers per indirect or free-list block.
pub const REFS_PER_BLOCK: u32 = 128;

/// Inodes per inode block.
pub const INODES_PER_BLOCK: u32 = 64;

/// `log2(REFS_PER_BLOCK)`.
pub const LOG_RPB: u32 = 7;

/// Shifts `x` right by `nbits`, giving 0 for shifts of 32 bits or more.
pub open spec fn shift_r(x: u32, nbits: u32) -> u32 {
    if nbits >= 32 {
        0
    } else {
        x >> nbits
    }
}

/// Shifts `x` right by `nbits`, giving 0 for shifts of 32 bits or more.
pub fn log_shift_r(x: u32, nbits: u32) -> (r: u32)
    ensures
        r == shift_r(x, nbits),
{
    if nbits >= 32 {
        return 0;
    }
    x >> nbits
}

/// Block number `i` of an indirect or free-list block.
pub open spec fn ref_at(blk: Seq<i8>, i: int) -> u32 {
    le_u32_at(blk, 4 * i)
}

/// Number of inode blocks, from the superblock.
pub open spec fn sb_inodeblocks(sb: Seq<i8>) -> u32 {
    le_u32_at(sb, 0)
}

/// First block of the free list, from the superblock (`0`: the store is full).
pub open spec fn sb_free_list(sb: Seq<i8>) -> u32 {
    le_u32_at(sb, 4)
}

/// Root block of inode `i` of an inode block.
pub open spec fn inode_root(blk: Seq<i8>, i: int) -> u32 {
    le_u32_at(blk, 8 * i)
}

/// Number of blocks of inode `i` of an inode block.
pub open spec fn inode_nblocks(blk: Seq<i8>, i: int) -> u32 {
    le_u32_at(blk, 8 * i + 4)
}

/// The block whose 4-byte words are `refs`.
pub open spec fn refs_block(refs: Seq<u32>) -> Seq<i8> {
    Seq::new(BLOCK_SIZE as nat, |b: int| le_bytes(refs[b / 4])[b % 4])
}

/// The number of tree levels above the data blocks for a file of `nblocks` blocks:
/// the least `l` from `from` on with `(nblocks - 1) >> (7 l) == 0`.
pub open spec fn levels_from(nblocks: u32, from: u32) -> u32
    decreases 6 - from,
{
    if from >= 6 || shift_r((nblocks - 1) as u32, (from * LOG_RPB) as u32) == 0 {
        from
    } else {
        levels_from(nblocks, (from + 1) as u32)
    }
}

/// The number of tree levels above the data blocks for a file of `nblocks` blocks.
pub open spec fn levels(nblocks: u32) -> u32 {
    if nblocks == 0 {
        0
    } else {
        levels_from(nblocks, 0)
    }
}

/// The index into an indirect block at level `l` (counted from the data blocks) on
/// the way to block `offset`.
pub open spec fn digit(offset: u32, l: u32) -> int {
    (shift_r(offset, (l * LOG_RPB) as u32) % REFS_PER_BLOCK) as int
}

/// Block `offset` of the tree of `levels` levels rooted at `b` on disk `d`; a block
/// number 0 reads as zeroes.
pub open spec fn lookup(d: Seq<Seq<i8>>, b: u32, levels: u32, offset: u32) -> Seq<i8>
    decreases levels,
{
    if b == 0 {
        zero_block()
    } else if levels == 0 {
        d[b as int]
    } else {
        lookup(d, ref_at(d[b as int], digit(offset, (levels - 1) as u32)), (levels - 1) as u32, offset)
    }
}

/// Every block met on the way to block `offset` lies on the disk.
pub open spec fn path_on_disk(d: Seq<Seq<i8>>, b: u32, levels: u32, offset: u32) -> bool
    decreases levels,
{
    b == 0 || (b < d.len() && (levels == 0 || path_on_disk(
        d,
        ref_at(d[b as int], digit(offset, (levels - 1) as u32)),
        (levels - 1) as u32,
        offset,
    )))
}

/// In-memory copies of the superblock and of the inode block of one inode.
pub struct TreediskSnapshot {
    pub superblock: Block,
    pub inodeblock: Block,
    pub inode_blockno: u32,
    pub inode: u32,
}

/// The tree store over inode `below_ino` of `below`.
pub struct TreeDisk<T: Stackable> {
    pub below: T,
    pub below_ino: u32,
    pub ninodes: u32,
    pub log_rpb: u32,
}

impl<T: Stackable> TreeDisk<T> {
    /// The disk below.
    pub open spec fn disk(&self) -> Seq<Seq<i8>> {
        self.below.blocks(self.below_ino)
    }

    /// The layer below keeps its invariant and its blocks are whole blocks.
    pub open spec fn wf(&self) -> bool {
        &&& self.below.inv()
        &&& self.log_rpb == LOG_RPB
        &&& crate::common::block_sized(self.disk())
    }

    /// Whether inode `inode_no` exists according to superblock `sb`.
    pub open spec fn inode_exists(sb: Seq<i8>, inode_no: u32) -> bool {
        inode_no < sb_inodeblocks(sb) * INODES_PER_BLOCK
    }

    /// The inode block holding inode `inode_no`.
    pub open spec fn inode_block_of(inode_no: u32) -> int {
        1 + inode_no / INODES_PER_BLOCK
    }

    /// Inode `inode_no` exists according to the superblock of `d`, and its inode block
    /// lies on `d`.
    pub open spec fn located(d: Seq<Seq<i8>>, inode_no: u32) -> bool {
        &&& d.len() > 0
        &&& Self::inode_exists(d[0], inode_no)
        &&& Self::inode_block_of(inode_no) < d.len()
    }
}

/// Makes the store over inode `below_ino` of `below`; computes `log2` of the number of
/// block numbers per block.
pub fn treedisk_init<T: Stackable>(below: T, below_ino: u32) -> (td: TreeDisk<T>)
    ensures
        td.below == below,
        td.below_ino == below_ino,
        td.ninodes == 0,
        td.log_rpb == LOG_RPB,
{
    let mut log_rpb: u32 = 0;
    loop
        invariant_except_break
            log_rpb <= 6,
        ensures
            log_rpb == LOG_RPB,
        decreases 7 - log_rpb,
    {
        log_rpb = log_rpb + 1;
        let more = ((REFS_PER_BLOCK - 1) >> log_rpb) != 0;
        proof {
            assert(((127u32 >> 1u32) != 0) && ((127u32 >> 2u32) != 0) && ((127u32 >> 3u32) != 0)
                && ((127u32 >> 4u32) != 0) && ((127u32 >> 5u32) != 0) && ((127u32 >> 6u32) != 0)
                && ((127u32 >> 7u32) == 0)) by (bit_vector);
        }
        if !more {
            break;
        }
    }
    TreeDisk { below, below_ino, ninodes: 0, log_rpb }
}

/// The last non-zero entry among entries `1 ..= i` of a free-list block, or 0.
pub open spec fn last_free_from(blk: Seq<i8>, i: int) -> int
    decreases i,
{
    if i <= 0 {
        0
    } else if ref_at(blk, i) != 0 {
        i
    } else {
        last_free_from(blk, i - 1)
    }
}

/// The last non-zero entry of a free-list block past the link, or 0.
pub open spec fn last_free(blk: Seq<i8>) -> int {
    last_free_from(blk, (REFS_PER_BLOCK - 1) as int)
}

impl<T: Stackable> TreeDisk<T> {
    /// Reads the superblock and the inode block of `inode_no` into `snapshot`; `-1`
    /// when a read fails or the inode does not exist.
    pub fn treedisk_get_snapshot(&self, snapshot: &mut TreediskSnapshot, inode_no: u32) -> (r: i32)
        requires
            self.below.inv(),
        ensures
            r == 0 || r == -1,
            r == 0 ==> final(snapshot).inode == inode_no % INODES_PER_BLOCK,
            r == 0 ==> final(snapshot).inode_blockno == Self::inode_block_of(inode_no),
            r == 0 ==> Self::located(self.disk(), inode_no) && final(snapshot).superblock@ == self.disk()[0]
                && final(snapshot).inodeblock@ == self.disk()[Self::inode_block_of(inode_no)],
            !Self::located(self.disk(), inode_no) ==> r == -1,
            self.below.reliable() && Self::located(self.disk(), inode_no) ==> r == 0,
            self.wf() && self.below.reliable() ==> ({
                let d = self.disk();
                if d.len() == 0 {
                    r == -1
                } else if !Self::inode_exists(d[0], inode_no) {
                    r == -1 && final(snapshot).superblock@ == d[0]
                } else if Self::inode_block_of(inode_no) >= d.len() {
                    r == -1 && final(snapshot).superblock@ == d[0]
                } else {
                    &&& r == 0
                    &&& final(snapshot).superblock@ == d[0]
                    &&& final(snapshot).inodeblock@ == d[Self::inode_block_of(inode_no)]
                    &&& final(snapshot).inode_blockno == Self::inode_block_of(inode_no)
                    &&& final(snapshot).inode == inode_no % INODES_PER_BLOCK
                }
            }),
    {
        if self.below.read(self.below_ino, 0, &mut snapshot.superblock).is_err() {
            return -1;
        }
        let n_inodeblocks = read_u32_le(&snapshot.superblock, 0);
        if inode_no as u64 >= n_inodeblocks as u64 * INODES_PER_BLOCK as u64 {
            return -1;
        }
        snapshot.inode_blockno = 1 + inode_no / INODES_PER_BLOCK;
        if self.below.read(self.below_ino, snapshot.inode_blockno, &mut snapshot.inodeblock).is_err() {
            return -1;
        }
        snapshot.inode = inode_no % INODES_PER_BLOCK;
        return 0;
    }

    /// Takes a block off the free list whose head is in `snapshot`: the last entry of
    /// the head free-list block, or, when it has none left, the free-list block itself
    /// (the list then starting at its link, and the superblock being written). The
    /// free list must not be empty. Returns 0, block 0 being never free, when a read
    /// or write of the disk fails.
    pub fn treedisk_alloc_block(&mut self, snapshot: &mut TreediskSnapshot) -> (r: u32)
        requires
            old(self).wf(),
            sb_free_list(old(snapshot).superblock@) != 0,
        ensures
            final(self).below.inv(),
            final(self).below_ino == old(self).below_ino,
            final(self).ninodes == old(self).ninodes,
            final(self).log_rpb == old(self).log_rpb,
            old(self).below.reliable() ==> final(self).below.reliable(),
            final(snapshot).inodeblock == old(snapshot).inodeblock,
            final(snapshot).inode_blockno == old(snapshot).inode_blockno,
            final(snapshot).inode == old(snapshot).inode,
            old(self).below.reliable() && sb_free_list(old(snapshot).superblock@) < old(self).disk().len()
                ==> r != 0,
            r != 0 ==> final(self).wf() && sb_free_list(old(snapshot).superblock@) < old(self).disk().len(),
            r != 0 ==> ({
                let d = old(self).disk();
                let f = sb_free_list(old(snapshot).superblock@);
                let fb = d[f as int];
                let i = last_free(fb);
                if i == 0 {
                    let sb2 = splice(old(snapshot).superblock@, 4, le_bytes(ref_at(fb, 0)));
                    &&& r == f
                    &&& final(snapshot).superblock@ == sb2
                    &&& final(self).disk() == d.update(0, sb2)
                } else {
                    &&& r == ref_at(fb, i)
                    &&& final(snapshot).superblock == old(snapshot).superblock
                    &&& final(self).disk() == d.update(f as int, splice(fb, 4 * i, le_bytes(0)))
                }
            }),
    {
        let b = read_u32_le(&snapshot.superblock, 4);
        let mut freelistblock = Block::new();
        if self.below.read(self.below_ino, b, &mut freelistblock).is_err() {
            return 0;
        }
        let ghost fb = freelistblock@;
        let mut i: u32 = REFS_PER_BLOCK;
        loop
            invariant_except_break
                1 <= i <= REFS_PER_BLOCK,
                freelistblock@ == fb,
                fb.len() == BLOCK_SIZE,
                last_free(fb) == last_free_from(fb, (i - 1) as int),
            ensures
                i < REFS_PER_BLOCK,
                i == last_free(fb),
            decreases i,
        {
            i = i - 1;
            if !(i > 0) {
                break;
            }
            if read_u32_le(&freelistblock, 4 * i as usize) != 0 {
                break;
            }
        }
        let free_blockno: u32;
        if i == 0 {
            free_blockno = b;
            let next = read_u32_le(&freelistblock, 0);
            write_u32_le(&mut snapshot.superblock, 4, next);
            if self.below.write(self.below_ino, 0, &snapshot.superblock).is_err() {
                return 0;
            }
        } else {
            free_blockno = read_u32_le(&freelistblock, 4 * i as usize);
            write_u32_le(&mut freelistblock, 4 * i as usize, 0);
            if self.below.write(self.below_ino, b, &freelistblock).is_err() {
                return 0;
            }
        }
        proof {
            lemma_last_free(fb, (REFS_PER_BLOCK - 1) as int);
        }
        return free_blockno;
    }

    /// Number of blocks of `ino`; `-1` when its snapshot cannot be taken: the inode
    /// does not exist, or a read of the disk fails.
    pub fn treedisk_getsize(&self, ino: u32) -> (r: i32)
        requires
            self.below.inv(),
        ensures
            ({
                let d = self.disk();
                let size = inode_nblocks(d[Self::inode_block_of(ino)], (ino % INODES_PER_BLOCK) as int) as i32;
                if Self::located(d, ino) {
                    &&& r == size || r == -1
                    &&& self.below.reliable() ==> r == size
                } else {
                    r == -1
                }
            }),
    {
        let mut snapshot = TreediskSnapshot {
            superblock: Block::new(),
            inodeblock: Block::new(),
            inode_blockno: 0,
            inode: 0,
        };
        if self.treedisk_get_snapshot(&mut snapshot, ino) < 0 {
            return -1;
        }
        let nblocks = read_u32_le(&snapshot.inodeblock, 8 * snapshot.inode as usize + 4);
        return nblocks as i32;
    }

    /// Sizes cannot be set: always `-1`.
    pub fn treedisk_setsize(&mut self, ino: u32, nblocks: u32) -> (r: i32)
        ensures
            r == -1,
            *final(self) == *old(self),
    {
        return -1;
    }
}

impl<T: Stackable> TreeDisk<T> {
    /// Computes the number of tree levels for a file of `nblocks` blocks.
    fn levels_of(&self, nblocks: u32) -> (r: u32)
        requires
            self.log_rpb == LOG_RPB,
        ensures
            r == levels(nblocks),
            r <= 5,
    {
        let mut nlevels: u32 = 0;
        if nblocks > 0 {
            while log_shift_r(nblocks - 1, nlevels * self.log_rpb) != 0
                invariant
                    self.log_rpb == LOG_RPB,
                    nblocks > 0,
                    nlevels <= 5,
                    levels_from(nblocks, nlevels) == levels_from(nblocks, 0),
                decreases 5 - nlevels,
            {
                assert(nlevels < 5);
                nlevels = nlevels + 1;
            }
        }
        nlevels
    }

    /// Reads block `offset` of `ino` into `block`: walks down the tree from the root,
    /// a block number 0 giving a block of zeroes; `-1` when the inode does not exist,
    /// the offset is past its end, a block on the way lies past the disk, or a read of
    /// the disk fails. The disk is only read.
    pub fn treedisk_read(&self, ino: u32, offset: u32, block: &mut Block) -> (r: i32)
        requires
            self.below.inv(),
            self.log_rpb == LOG_RPB,
        ensures
            r == 0 || r == -1,
            ({
                let d = self.disk();
                let ib = Self::inode_block_of(ino);
                if !Self::located(d, ino) {
                    r == -1
                } else {
                    let root = inode_root(d[ib], (ino % INODES_PER_BLOCK) as int);
                    let nb = inode_nblocks(d[ib], (ino % INODES_PER_BLOCK) as int);
                    if offset >= nb {
                        r == -1
                    } else if path_on_disk(d, root, levels(nb), offset) {
                        &&& r == 0 ==> final(block)@ == lookup(d, root, levels(nb), offset)
                        &&& self.below.reliable() ==> r == 0
                    } else {
                        r == -1
                    }
                }
            }),
    {
        let mut snapshot = TreediskSnapshot {
            superblock: Block::new(),
            inodeblock: Block::new(),
            inode_blockno: 0,
            inode: 0,
        };
        if self.treedisk_get_snapshot(&mut snapshot, ino) < 0 {
            return -1;
        }
        let root = read_u32_le(&snapshot.inodeblock, 8 * snapshot.inode as usize);
        let nblocks = read_u32_le(&snapshot.inodeblock, 8 * snapshot.inode as usize + 4);
        if offset >= nblocks {
            return -1;
        }
        let mut nlevels = self.levels_of(nblocks);
        let ghost d = self.disk();
        let ghost top = nlevels;
        let mut b = root;
        loop
            invariant
                self.below.inv(),
                self.log_rpb == LOG_RPB,
                nlevels <= 5,
                d == self.disk(),
                top == levels(nblocks),
                offset < nblocks,
                ({
                    let ib = Self::inode_block_of(ino);
                    &&& Self::located(d, ino)
                    &&& root == inode_root(d[ib], (ino % INODES_PER_BLOCK) as int)
                    &&& nblocks == inode_nblocks(d[ib], (ino % INODES_PER_BLOCK) as int)
                }),
                lookup(d, b, nlevels, offset) == lookup(d, root, top, offset),
                path_on_disk(d, b, nlevels, offset) == path_on_disk(d, root, top, offset),
            decreases nlevels,
        {
            if b == 0 {
                *block = Block::new();
                return 0;
            }
            let result = self.below.read(self.below_ino, b, block);
            if result.is_err() {
                return -1;
            }
            if nlevels == 0 {
                return 0;
            }
            assert(nlevels <= 5 && self.log_rpb == 7);
            nlevels = nlevels - 1;
            let index = log_shift_r(offset, nlevels * self.log_rpb) % REFS_PER_BLOCK;
            b = read_u32_le(block, 4 * index as usize);
        }
    }
}

/// The entries of the free-list block starting at `start`: the link `link`, then the
/// blocks `start + 1 ..` below `nblocks`, then zeroes.
pub open spec fn freelist_refs(start: int, nblocks: int, link: u32) -> Seq<u32> {
    Seq::new(
        REFS_PER_BLOCK as nat,
        |i: int|
            if i == 0 {
                link
            } else if start + i < nblocks {
                (start + i) as u32
            } else {
                0u32
            },
    )
}

/// Whether block `b` is one of the free-list blocks laid out over `next_free .. nblocks`:
/// every 128th block from `next_free` on.
pub open spec fn is_freelist_start(next_free: int, nblocks: int, b: int) -> bool {
    next_free <= b < nblocks && (b - next_free) % (REFS_PER_BLOCK as int) == 0
}

/// The free-list block laid out at `b`, linked to the previous one (0 for the first).
pub open spec fn freelist_block_at(next_free: int, nblocks: int, b: int) -> Seq<i8> {
    refs_block(
        freelist_refs(
            b,
            nblocks,
            if b == next_free {
                0u32
            } else {
                (b - REFS_PER_BLOCK) as u32
            },
        ),
    )
}

/// The disk `d` once the free list over `next_free .. nblocks` is laid out.
pub open spec fn with_freelist(d: Seq<Seq<i8>>, next_free: int, nblocks: int) -> Seq<Seq<i8>> {
    Seq::new(
        d.len(),
        |b: int|
            if is_freelist_start(next_free, nblocks, b) {
                freelist_block_at(next_free, nblocks, b)
            } else {
                d[b]
            },
    )
}

/// The head of the free list laid out over `next_free .. nblocks`: its last free-list
/// block, or 0 when the range is empty.
pub open spec fn freelist_head(next_free: int, nblocks: int) -> u32 {
    if next_free >= nblocks {
        0
    } else {
        (next_free + REFS_PER_BLOCK * ((nblocks - 1 - next_free) / (REFS_PER_BLOCK as int))) as u32
    }
}

/// The block whose 4-byte words are `refs`.
fn refs_to_block(refs: &[u32; 128]) -> (b: Block)
    ensures
        b@ == refs_block(refs@),
{
    let mut b = Block::new();
    let mut i: usize = 0;
    while i < 128
        invariant
            i <= 128,
            b@.len() == BLOCK_SIZE,
            forall|k: int|
                0 <= k < BLOCK_SIZE ==> #[trigger] b@[k] == (if k < 4 * i {
                    le_bytes(refs@[k / 4])[k % 4]
                } else {
                    0i8
                }),
        decreases 128 - i,
    {
        write_u32_le(&mut b, 4 * i, refs[i]);
        assert forall|k: int| 4 * i <= k < 4 * i + 4 implies #[trigger] le_bytes(refs@[k / 4]) == le_bytes(
            refs@[i as int],
        ) by {
            assert(k / 4 == i);
        }
        i = i + 1;
    }
    assert(b@ =~= refs_block(refs@));
    b
}

/// Lays out a free list over blocks `next_free .. nblocks` of inode `below_ino` of
/// `below`: every 128th block is a free-list block listing the 127 blocks after it
/// and linking to the previous free-list block. Returns the head of the list, or
/// `None` when a write of the disk fails (the layout then stops there).
pub fn setup_freelist<T: Stackable>(below: &mut T, below_ino: u32, next_free: u32, nblocks: u32) -> (r: Option<u32>)
    requires
        old(below).inv(),
        nblocks <= old(below).blocks(below_ino).len(),
    ensures
        final(below).inv(),
        old(below).reliable() ==> final(below).reliable() && r is Some,
        r is Some ==> r == Some(freelist_head(next_free as int, nblocks as int)) && final(below).blocks(below_ino)
            == with_freelist(old(below).blocks(below_ino), next_free as int, nblocks as int),
{
    let ghost nf0 = next_free as int;
    let ghost d0 = below.blocks(below_ino);
    let ghost nbl = nblocks as int;
    let ghost rel = below.reliable();
    let mut next_free = next_free;
    let mut freelist_data: [u32; 128] = [0u32; 128];
    let mut freelist_block: u32 = 0;
    if next_free >= nblocks {
        proof {
            assert(below.blocks(below_ino) =~= with_freelist(d0, nf0, nbl));
        }
        return Some(0);
    }
    while next_free < nblocks
        invariant
            below.inv(),
            rel == old(below).reliable(),
            rel ==> below.reliable(),
            nblocks <= d0.len(),
            nbl == nblocks,
            nf0 <= next_free <= nblocks,
            next_free == nblocks || (next_free - nf0) % 128 == 0,
            next_free == nf0 ==> freelist_block == 0,
            next_free > nf0 ==> freelist_block == nf0 + 128 * ((next_free - 1 - nf0) / 128),
            below.blocks(below_ino).len() == d0.len(),
            forall|b: int|
                0 <= b < d0.len() ==> #[trigger] below.blocks(below_ino)[b] == (if nf0 <= b < next_free
                    && (b - nf0) % 128 == 0 {
                    freelist_block_at(nf0, nbl, b)
                } else {
                    d0[b]
                }),
        decreases nblocks - next_free,
    {
        let ghost start = next_free as int;
        let ghost link = freelist_block;
        freelist_data[0] = freelist_block;
        freelist_block = next_free;
        next_free = next_free + 1;
        let mut i: u32 = 1;
        while i < REFS_PER_BLOCK && next_free < nblocks
            invariant
                1 <= i <= REFS_PER_BLOCK,
                next_free == start + i,
                next_free <= nblocks,
                freelist_data@[0] == link,
                forall|j: int| 1 <= j < i ==> #[trigger] freelist_data@[j] == (start + j) as u32,
            decreases REFS_PER_BLOCK - i,
        {
            freelist_data[i as usize] = next_free;
            next_free = next_free + 1;
            i = i + 1;
        }
        let ghost filled = i as int;
        while i < REFS_PER_BLOCK
            invariant
                filled <= i <= REFS_PER_BLOCK,
                1 <= filled,
                freelist_data@[0] == link,
                forall|j: int| 1 <= j < filled ==> #[trigger] freelist_data@[j] == (start + j) as u32,
                forall|j: int| filled <= j < i ==> #[trigger] freelist_data@[j] == 0u32,
            decreases REFS_PER_BLOCK - i,
        {
            freelist_data[i as usize] = 0;
            i = i + 1;
        }
        proof {
            assert(start + filled == next_free);
            assert(filled == 128 || next_free == nblocks);
            assert(start == nf0 ==> link == 0);
            if start > nf0 {
                assert((start - nf0) % 128 == 0);
                assert(link == start - 128) by (nonlinear_arith)
                    requires
                        link == nf0 + 128 * ((start - 1 - nf0) / 128),
                        (start - nf0) % 128 == 0,
                        start > nf0,
                ;
            }
            assert(freelist_data@ =~= freelist_refs(start, nbl, if start == nf0 { 0u32 } else { (start - 128) as u32 }));
        }
        let data_block = refs_to_block(&freelist_data);
        if below.write(below_ino, freelist_block, &data_block).is_err() {
            return None;
        }
        proof {
            assert(next_free == nblocks || (next_free - nf0) % 128 == 0);
            assert forall|b: int| 0 <= b < d0.len() implies #[trigger] below.blocks(below_ino)[b] == (if nf0
                <= b < next_free && (b - nf0) % 128 == 0 {
                freelist_block_at(nf0, nbl, b)
            } else {
                d0[b]
            }) by {
                if start < b < next_free {
                    assert((b - nf0) % 128 != 0);
                }
            }
            assert(freelist_block == nf0 + 128 * ((next_free - 1 - nf0) / 128)) by (nonlinear_arith)
                requires
                    freelist_block == start,
                    (start - nf0) % 128 == 0,
                    start >= nf0,
                    start < next_free <= start + 128,
            ;
        }
    }
    proof {
        assert(below.blocks(below_ino) =~= with_freelist(d0, nf0, nbl));
    }
    return Some(freelist_block);
}


/// The superblock of a fresh store: `n_inodeblocks` inode blocks, free list at `head`.
pub open spec fn superblock_of(n_inodeblocks: u32, head: u32) -> Seq<i8> {
    splice(splice(zero_block(), 0, le_bytes(n_inodeblocks)), 4, le_bytes(head))
}

/// The number of inode blocks for `ninodes` inodes.
pub open spec fn inode_blocks_for(ninodes: u32) -> u32 {
    ((ninodes + INODES_PER_BLOCK - 1) / (INODES_PER_BLOCK as int)) as u32
}

/// Disk `d` once formatted with `n` inode blocks: the superblock, zeroed inode blocks,
/// and the free list over the remaining blocks.
pub open spec fn formatted(d: Seq<Seq<i8>>, n: u32) -> Seq<Seq<i8>> {
    let fl = with_freelist(d, n + 1, d.len() as int);
    Seq::new(
        d.len(),
        |b: int|
            if b == 0 {
                superblock_of(n, freelist_head(n + 1, d.len() as int))
            } else if b <= n {
                zero_block()
            } else {
                fl[b]
            },
    )
}

/// A store formatted for `ninodes` inodes holds every one of them, with no inode block
/// to spare: its superblock counts the fewest inode blocks of 64 inodes that hold
/// `ninodes` inodes.
pub proof fn law_created_holds_every_inode(d: Seq<Seq<i8>>, ninodes: u32)
    requires
        inode_blocks_for(ninodes) + 2 <= d.len(),
    ensures
        ({
            let n = sb_inodeblocks(formatted(d, inode_blocks_for(ninodes))[0]) as int;
            &&& n == inode_blocks_for(ninodes)
            &&& ninodes <= n * 64
            &&& n * 64 < ninodes + 64
        }),
{
    let n = inode_blocks_for(ninodes);
    let q = (ninodes + 63) / 64;
    vstd::arithmetic::div_mod::lemma_fundamental_div_mod(ninodes + 63, 64);
    assert(0 <= q < 0x1_0000_0000);
    assert(n == q);
    let head = freelist_head(n + 1, d.len() as int);
    let z = zero_block();
    lemma_le_splice(z, 0, n);
    lemma_le_splice(splice(z, 0, le_bytes(n)), 4, head);
    assert(le_u32_at(superblock_of(n, head), 0) == le_u32_at(splice(z, 0, le_bytes(n)), 0));
    assert(formatted(d, n)[0] == superblock_of(n, head));
}

/// Formats inode `below_ino` of `below` as a store of `ninodes` inodes, unless its
/// superblock already counts inode blocks (then nothing is written and the result is
/// 0): `-1` when the disk has fewer than two blocks beyond the inode blocks or a read
/// or write of it fails. When the size of the disk cannot be had, an already
/// formatted disk is still recognised; an unformatted one is left as it is, with `-1`.
pub fn treedisk_create<T: Stackable>(below: &mut T, below_ino: u32, ninodes: u32) -> (r: i32)
    requires
        old(below).inv(),
        crate::common::block_sized(old(below).blocks(below_ino)),
        old(below).blocks(below_ino).len() <= u32::MAX,
    ensures
        final(below).inv(),
        r == 0 || r == -1,
        ({
            let d = old(below).blocks(below_ino);
            let n = inode_blocks_for(ninodes);
            &&& d.len() < n + 2 ==> *final(below) == *old(below)
            &&& d.len() > 0 && sb_inodeblocks(d[0]) != 0 ==> *final(below) == *old(below)
            &&& r == 0 && d.len() > 0 && sb_inodeblocks(d[0]) == 0 ==> final(below).blocks(below_ino)
                == formatted(d, n)
            &&& r == 0 && d.len() > 0 && sb_inodeblocks(d[0]) == 0 ==> ninodes <= sb_inodeblocks(
                final(below).blocks(below_ino)[0],
            ) * 64
            &&& old(below).reliable() ==> if d.len() < n + 2 {
                r == -1
            } else if sb_inodeblocks(d[0]) != 0 {
                r == 0
            } else {
                &&& r == 0
                &&& final(below).reliable()
                &&& final(below).blocks(below_ino) == formatted(d, n)
            }
        }),
{
    let ghost rel = below.reliable();
    let n_inodeblocks: u32 = ((ninodes as u64 + (INODES_PER_BLOCK - 1) as u64) / INODES_PER_BLOCK as u64) as u32;
    let ghost d = below.blocks(below_ino);
    let mut size_known = true;
    let nblocks: u32 = match below.get_size(below_ino) {
        Ok(n) => n,
        Err(_) => {
            size_known = false;
            u32::MAX
        },
    };
    if (nblocks as u64) < n_inodeblocks as u64 + 2 {
        return -1;
    }
    let mut superblock = Block::new();
    if below.read(below_ino, 0, &mut superblock).is_err() {
        return -1;
    }
    if read_u32_le(&superblock, 0) == 0 {
        if !size_known {
            return -1;
        }
        let mut fresh = Block::new();
        write_u32_le(&mut fresh, 0, n_inodeblocks);
        let head = match setup_freelist(below, below_ino, n_inodeblocks + 1, nblocks) {
            Some(h) => h,
            None => {
                return -1;
            },
        };
        write_u32_le(&mut fresh, 4, head);
        let ghost fl = below.blocks(below_ino);
        if below.write(below_ino, 0, &fresh).is_err() {
            return -1;
        }
        let null_block = Block::new();
        let mut i: u32 = 1;
        while i <= n_inodeblocks
            invariant
                below.inv(),
                rel == old(below).reliable(),
                rel ==> below.reliable(),
                d == old(below).blocks(below_ino),
                n_inodeblocks == inode_blocks_for(ninodes),
                sb_inodeblocks(d[0]) == 0,
                1 <= i <= n_inodeblocks + 1,
                n_inodeblocks + 2 <= nblocks,
                nblocks == d.len(),
                null_block@ == zero_block(),
                fl == with_freelist(d, n_inodeblocks + 1, d.len() as int),
                below.blocks(below_ino).len() == d.len(),
                forall|b: int|
                    0 <= b < d.len() ==> #[trigger] below.blocks(below_ino)[b] == (if b == 0 {
                        superblock_of(n_inodeblocks, head)
                    } else if b < i {
                        zero_block()
                    } else {
                        fl[b]
                    }),
            decreases n_inodeblocks + 1 - i,
        {
            if below.write(below_ino, i, &null_block).is_err() {
                return -1;
            }
            i = i + 1;
        }
        proof {
            assert(below.blocks(below_ino) =~= formatted(d, n_inodeblocks));
            law_created_holds_every_inode(d, ninodes);
        }
    }
    return 0;
}


/// A disk of whole blocks stays so when a whole block is written.
proof fn lemma_sized_update(d: Seq<Seq<i8>>, p: int, v: Seq<i8>)
    requires
        block_sized(d),
        v.len() == BLOCK_SIZE,
        0 <= p < d.len(),
    ensures
        block_sized(d.update(p, v)),
{
    assert forall|b: int| 0 <= b < d.update(p, v).len() implies (#[trigger] d.update(p, v)[b]).len()
        == BLOCK_SIZE by {
        if b != p {
            assert(d.update(p, v)[b] == d[b]);
        }
    }
}

/// Entries of an inode block other than slot `slot` survive a write into that slot.
proof fn lemma_slot_write(blk: Seq<i8>, slot: int, field: int, v: u32)
    requires
        blk.len() == BLOCK_SIZE,
        0 <= slot < 64,
        0 <= field < 2,
    ensures
        ({
            let b2 = splice(blk, 8 * slot + 4 * field, le_bytes(v));
            &&& forall|t: int|
                0 <= t < 64 && t != slot ==> #[trigger] inode_root(b2, t) == inode_root(blk, t)
                    && inode_nblocks(b2, t) == inode_nblocks(blk, t)
            &&& field == 0 ==> inode_root(b2, slot) == v && inode_nblocks(b2, slot) == inode_nblocks(blk, slot)
            &&& field == 1 ==> inode_nblocks(b2, slot) == v && inode_root(b2, slot) == inode_root(blk, slot)
        }),
{
    let b2 = splice(blk, 8 * slot + 4 * field, le_bytes(v));
    lemma_le_splice(blk, 8 * slot + 4 * field, v);
    assert forall|t: int| 0 <= t < 64 && t != slot implies #[trigger] inode_root(b2, t) == inode_root(blk, t)
        && inode_nblocks(b2, t) == inode_nblocks(blk, t) by {
        assert(le_u32_at(b2, 8 * t) == le_u32_at(blk, 8 * t));
        assert(le_u32_at(b2, 8 * t + 4) == le_u32_at(blk, 8 * t + 4));
    }
    if field == 0 {
        assert(le_u32_at(b2, 8 * slot + 4) == le_u32_at(blk, 8 * slot + 4));
    } else {
        assert(le_u32_at(b2, 8 * slot) == le_u32_at(blk, 8 * slot));
    }
}

impl<T: Stackable> TreeDisk<T> {
    /// Writes `block` as block `offset` of inode `ino`. When the offset lies past what
    /// the tree reaches, new top blocks are taken off the free list, each with the old
    /// root as its first entry; on the way down every missing block is taken off the
    /// free list (zeroed above the data level); the size grows to `offset + 1` when the
    /// offset lies past the end. `-1` when the inode does not exist (nothing is then
    /// written), or when a read or write of the disk fails (the write then stops there).
    #[verifier::spinoff_prover]
    #[verifier::rlimit(40)]
    pub fn treedisk_write(&mut self, ino: u32, offset: u32, block: &Block) -> (r: i32)
        requires
            old(self).wf(),
            old(self).log_rpb == LOG_RPB,
            valid(old(self).disk()),
            offset < u32::MAX,
            ino < n_of(old(self).disk()) * 64 ==> needed(old(self).disk(), ino, offset) <= free_count(
                old(self).disk(),
            ),
        ensures
            final(self).below.inv(),
            final(self).below_ino == old(self).below_ino,
            final(self).log_rpb == old(self).log_rpb,
            final(self).ninodes == old(self).ninodes,
            r == 0 || r == -1,
            ino >= n_of(old(self).disk()) * 64 ==> r == -1 && *final(self) == *old(self),
            old(self).below.reliable() && ino < n_of(old(self).disk()) * 64 ==> r == 0,
            r == 0 ==> ({
                let d = old(self).disk();
                let d2 = final(self).disk();
                &&& final(self).wf()
                &&& written(d, d2, ino, offset, block@)
                &&& free_count(d2) + needed(d, ino, offset) == free_count(d)
            }),
    {
        let ghost rel = self.below.reliable();
        let ghost d0 = self.disk();
        let mut snapshot = TreediskSnapshot {
            superblock: Block::new(),
            inodeblock: Block::new(),
            inode_blockno: 0,
            inode: 0,
        };
        if self.treedisk_get_snapshot(&mut snapshot, ino) < 0 {
            return -1;
        }
        let ghost (c0, own0) = choose|c: Seq<u32>, own: Map<u32, Owner>| #[trigger] sound(d0, c, own);
        let ghost ib: int = 1 + ino / 64;
        proof {
            lemma_growing_start(d0, c0, own0, ino);
            lemma_free_count(d0, c0, own0);
            lemma_store_facts(d0, c0, own0, ino, iroot(d0, ino), isize(d0, ino), levels(isize(d0, ino)));
        }
        let ghost fc0 = fcount(d0, c0);
        let ghost need = needed(d0, ino, offset);
        let slot = snapshot.inode as usize;
        let pos_root: usize = 8 * slot;
        let mut root = read_u32_le(&snapshot.inodeblock, pos_root);
        let nblocks = read_u32_le(&snapshot.inodeblock, pos_root + 4);
        let mut nlevels = self.levels_of(nblocks);
        let mut dirty = false;
        let nlevels_after: u32;
        if offset >= nblocks {
            proof {
                lemma_slot_write(snapshot.inodeblock@, slot as int, 1, (offset + 1) as u32);
            }
            write_u32_le(&mut snapshot.inodeblock, pos_root + 4, offset + 1);
            dirty = true;
            nlevels_after = self.levels_of(offset + 1);
        } else {
            nlevels_after = nlevels;
        }
        let ghost s1: u32 = if offset >= nblocks {
            (offset + 1) as u32
        } else {
            nblocks
        };
        let ghost l0 = levels(nblocks);
        proof {
            lemma_levels_order(nblocks, offset);
            lemma_levels(nblocks);
            lemma_levels(s1);
            assert(nlevels_after == levels(s1));
        }
        let ghost mut c = c0;
        let ghost mut own = own0;
        let ghost mut pops: int = 0;
        if nblocks == 0 {
            proof {
                lemma_growing_empty(d0, c, own, d0, ino, 0, nlevels_after);
            }
            nlevels = nlevels_after;
        } else {
            while nlevels_after > nlevels
                invariant
                    self.wf(),
                    rel == old(self).below.reliable(),
                    rel ==> self.below.reliable(),
                    d0 == old(self).disk(),
                    ino < n_of(d0) * 64,
                    old(self).log_rpb == LOG_RPB,
                    self.log_rpb == LOG_RPB,
                    self.below_ino == old(self).below_ino,
                    self.ninodes == old(self).ninodes,
                    snapshot.superblock@ == self.disk()[0],
                    snapshot.inode_blockno == ib,
                    slot == ino % 64,
                    pos_root == 8 * slot,
                    nblocks == isize(d0, ino),
                    nblocks > 0,
                    growing(self.disk(), c, own, d0, ino, root, nblocks, nlevels),
                    l0 <= nlevels <= nlevels_after <= 5,
                    nlevels_after == levels(s1),
                    l0 == levels(nblocks),
                    pops == nlevels - l0,
                    pops == 0 ==> self.disk() == d0 && c == c0 && own == own0,
                    dirty == (offset >= nblocks || nlevels > l0),
                    !dirty ==> snapshot.inodeblock@ == d0[ib],
                    pops == 0 ==> root == iroot(d0, ino),
                    fcount(self.disk(), c) + pops == fc0,
                    fc0 >= need,
                    nlevels_after > l0 ==> need == (nlevels_after - l0) + nlevels_after,
                    nlevels > l0 ==> root != 0,
                    nlevels > l0 ==> forall|o: u32|
                        cap(nlevels - 1) <= o < cap(nlevels as int) ==> #[trigger] node(
                            self.disk(),
                            root,
                            nlevels,
                            o,
                            1,
                        ) == 0,
                    inode_root(snapshot.inodeblock@, slot as int) == root,
                    inode_nblocks(snapshot.inodeblock@, slot as int) == s1,
                    forall|t: int|
                        0 <= t < 64 && t != slot ==> #[trigger] inode_root(snapshot.inodeblock@, t)
                            == inode_root(d0[ib], t) && inode_nblocks(snapshot.inodeblock@, t)
                            == inode_nblocks(d0[ib], t),
                decreases nlevels_after - nlevels,
            {
                proof {
                    lemma_store_facts(self.disk(), c, own, ino, root, nblocks, nlevels);
                }
                let ghost e = self.disk();
                let ghost r_old = root;
                let indir = self.treedisk_alloc_block(&mut snapshot);
                if indir == 0 {
                    return -1;
                }
                proof {
                    assert(self.disk() == popped(e).0 && indir == popped(e).1);
                }
                let mut tib = Block::new();
                write_u32_le(&mut tib, 0, root);
                let ghost buf0 = snapshot.inodeblock@;
                proof {
                    let (c2, own2) = lemma_growing_step(e, c, own, d0, ino, root, nblocks, nlevels);
                    c = c2;
                    own = own2;
                    lemma_slot_write(buf0, slot as int, 0, indir);
                    lemma_sized_update(self.disk(), indir as int, tib@);
                }
                root = indir;
                write_u32_le(&mut snapshot.inodeblock, pos_root, indir);
                proof {
                    assert(snapshot.inodeblock@ == splice(buf0, 8 * slot + 4 * 0, le_bytes(indir)));
                    assert forall|t: int| 0 <= t < 64 && t != slot implies #[trigger] inode_root(
                        snapshot.inodeblock@,
                        t,
                    ) == inode_root(d0[ib], t) && inode_nblocks(snapshot.inodeblock@, t) == inode_nblocks(
                        d0[ib],
                        t,
                    ) by {
                        assert(inode_root(buf0, t) == inode_root(d0[ib], t));
                    }
                }
                dirty = true;
                if self.below.write(self.below_ino, indir, &tib).is_err() {
                    return -1;
                }
                proof {
                    assert(self.disk() == popped(e).0.update(indir as int, top_block(r_old)));
                    pops = pops + 1;
                }
                nlevels = nlevels + 1;
            }
        }
        let ghost h = nlevels;
        let ghost da = self.disk();
        proof {
            assert(nlevels == nlevels_after);
            lemma_store_facts(da, c, own, ino, root, nblocks, nlevels);
        }
        if dirty {
            proof {
                lemma_sized_update(da, ib, snapshot.inodeblock@);
            }
            if self.below.write(self.below_ino, snapshot.inode_blockno, &snapshot.inodeblock).is_err() {
                return -1;
            }
            proof {
                let eb = self.disk();
                assert(eb == da.update(ib, snapshot.inodeblock@));
                assert forall|b: int| 0 <= b < da.len() && b != 1 + ino / 64 implies #[trigger] eb[b] == da[b] by {}
                assert forall|i: u32| i < n_of(da) * 64 && i != ino implies #[trigger] iroot(eb, i) == iroot(da, i)
                    && isize(eb, i) == isize(da, i) by {
                    if 1 + i / 64 == ib {
                        assert(da[ib] == d0[ib]);
                        assert(i % 64 != ino % 64);
                        let t = (i % 64) as int;
                        assert(inode_root(snapshot.inodeblock@, t) == inode_root(d0[ib], t));
                        assert(inode_nblocks(snapshot.inodeblock@, t) == inode_nblocks(d0[ib], t));
                    } else {
                        assert(eb[1 + i / 64] == da[1 + i / 64]);
                    }
                }
                lemma_growing_done(da, c, own, d0, ino, root, nblocks, offset, s1, eb);
                if nblocks == 0 {
                    lemma_first_zero_at(eb, root, h, offset, 0, 0);
                } else if nlevels_after > l0 {
                    assert(node(eb, root, h, offset, 1) == node(da, root, h, offset, 1));
                    assert(node(eb, root, h, offset, 0) == root);
                    lemma_first_zero_at(eb, root, h, offset, 0, 1);
                } else {
                    assert(da == d0);
                    lemma_first_zero_same(da, eb, root, h, offset, 0);
                }
            }
        } else {
            proof {
                assert(da == d0);
                lemma_descent_start(d0, c, own, ino, offset);
            }
        }
        let ghost mut e = self.disk();
        let mut parent: Block = snapshot.inodeblock;
        let mut parent_off: u32 = snapshot.inode_blockno;
        let mut pos: usize = pos_root;
        let mut b: u32;
        let ghost mut j: int = 0;
        proof {
            assert(self.disk()[ib] == parent@);
            assert(e =~= self.disk().update(ib, parent@));
        }
        loop
            invariant_except_break
                self.wf(),
                rel == old(self).below.reliable(),
                rel ==> self.below.reliable(),
                d0 == old(self).disk(),
                ino < n_of(d0) * 64,
                old(self).log_rpb == LOG_RPB,
                self.log_rpb == LOG_RPB,
                self.below_ino == old(self).below_ino,
                self.ninodes == old(self).ninodes,
                snapshot.superblock@ == self.disk()[0],
                descent(e, c, own, d0, ino, offset, s1, h, j),
                0 <= j <= h,
                h <= 5,
                nlevels == h - j,
                e == self.disk().update(parent_off as int, parent@),
                parent@ == zero_block() || parent@ == self.disk()[parent_off as int],
                ib == 1 + ino / 64,
                j == 0 ==> parent_off == ib && pos == 8 * slot && parent@ == self.disk()[ib],
                slot == ino % 64,
                j > 0 ==> parent_off == node(e, iroot(e, ino), h, offset, j - 1) && pos == 4 * digit(
                    offset,
                    (h - j) as u32,
                ),
                0 < parent_off < self.disk().len(),
                fcount(e, c) + pops == fc0,
                pops + (h + 1 - first_zero(e, iroot(e, ino), h, offset, 0)) == need,
                fc0 >= need,
            ensures
                self.wf(),
                rel == old(self).below.reliable(),
                rel ==> self.below.reliable(),
                d0 == old(self).disk(),
                ino < n_of(d0) * 64,
                old(self).log_rpb == LOG_RPB,
                self.log_rpb == LOG_RPB,
                self.below_ino == old(self).below_ino,
                self.ninodes == old(self).ninodes,
                0 < b < self.disk().len(),
                descent(self.disk().update(b as int, block@), c, own, d0, ino, offset, s1, h, h + 1),
                content(self.disk().update(b as int, block@), ino, offset) == block@,
                fcount(self.disk().update(b as int, block@), c) + pops == fc0,
                pops == need,
            decreases nlevels,
        {
            proof {
                lemma_descent_facts(e, c, own, d0, ino, offset, s1, h, j);
                if j == 0 {
                    assert(e =~= self.disk());
                    assert(e[ib] == parent@);
                    assert(iroot(e, ino) == inode_root(e[ib], (ino % 64) as int));
                    assert(inode_root(e[ib], (ino % 64) as int) == le_u32_at(e[ib], 8 * (ino % 64)));
                } else {
                    assert(e[parent_off as int] == parent@);
                }
            }
            b = read_u32_le(&parent, pos);
            proof {
                if j == 0 {
                    assert(b == iroot(e, ino));
                } else {
                    let pp = node(e, iroot(e, ino), h, offset, j - 1);
                    assert(pp != 0);
                    assert(parent@ == e[pp as int]);
                    assert(b == ref_at(e[pp as int], digit(offset, (h - j) as u32)));
                }
                assert(b == node(e, iroot(e, ino), h, offset, j));
            }
            let mut tib = Block::new();
            if b == 0 {
                let ghost disk = self.disk();
                proof {
                    assert(node(e, iroot(e, ino), h, offset, j) == 0);
                    assert(first_zero(e, iroot(e, ino), h, offset, j) == j);
                    assert(fcount(e, c) > 0);
                    assert(n_of(e) < head_of(e));
                    if j == 0 {
                        assert(ino / 64 < n_of(e)) by (nonlinear_arith)
                            requires
                                ino < n_of(e) * 64,
                        ;
                    }
                    assert(parent_off != head_of(e));
                    assert(disk[0] == e[0]);
                    assert(head_of(disk) == head_of(e));
                    lemma_popped_commute(disk, parent_off as int, parent@);
                }
                b = self.treedisk_alloc_block(&mut snapshot);
                if b == 0 {
                    return -1;
                }
                proof {
                    assert(self.disk() == popped(disk).0 && b == popped(disk).1);
                    lemma_sized_update(self.disk(), parent_off as int, splice(parent@, pos as int, le_bytes(b)));
                }
                let ghost par0 = parent@;
                write_u32_le(&mut parent, pos, b);
                if self.below.write(self.below_ino, parent_off, &parent).is_err() {
                    return -1;
                }
                if nlevels == 0 {
                    proof {
                        let (c2, own2) = lemma_descent_hang(e, c, own, d0, ino, offset, s1, h, j, block@);
                        let e2 = hung(e, ino, offset, h, j, block@);
                        assert(self.disk().update(b as int, block@) =~= e2);
                        c = c2;
                        own = own2;
                        pops = pops + 1;
                    }
                    break;
                }
                proof {
                    let (c2, own2) = lemma_descent_hang(e, c, own, d0, ino, offset, s1, h, j, zero_block());
                    let e2 = hung(e, ino, offset, h, j, zero_block());
                    assert(hang_ok(e, c, d0, ino, offset, s1, h, j, zero_block(), c2, own2));
                    assert(b == popped(e).1);
                    assert(popped(e).0 == popped(disk).0.update(parent_off as int, par0));
                    if j == 0 {
                        assert(popped(e).0 == popped(disk).0);
                        assert(par0 == e[ib]);
                        assert(pos == 8 * (ino % 64));
                        assert(parent@ == splice(e[ib], 8 * (ino % 64), le_bytes(b)));
                        assert(self.disk() == popped(disk).0.update(ib, parent@));
                    } else {
                        assert(e[parent_off as int] == par0);
                        assert(self.disk() == popped(disk).0.update(parent_off as int, parent@));
                    }
                    assert(tib@ == zero_block());
                    assert(self.disk().update(b as int, tib@) =~= e2);
                    c = c2;
                    own = own2;
                    pops = pops + 1;
                    e = e2;
                }
            } else {
                proof {
                    lemma_ref_zero(digit(offset, (h - j) as u32));
                    if j > 0 {
                        lemma_digit_pos(offset, (h - j) as u32);
                    }
                    assert(parent@ != zero_block());
                    assert(e =~= self.disk());
                }
                if nlevels == 0 {
                    proof {
                        lemma_descent_overwrite(e, c, own, d0, ino, offset, s1, h, block@);
                    }
                    break;
                }
                if self.below.read(self.below_ino, b, &mut tib).is_err() {
                    return -1;
                }
                proof {
                    assert(e =~= self.disk().update(b as int, tib@));
                }
            }
            assert(nlevels <= 5 && self.log_rpb == 7);
            nlevels = nlevels - 1;
            let index = log_shift_r(offset, nlevels * self.log_rpb) % REFS_PER_BLOCK;
            pos = 4 * index as usize;
            parent = tib;
            parent_off = b;
            proof {
                j = j + 1;
            }
        }
        if self.below.write(self.below_ino, b, block).is_err() {
            return -1;
        }
        proof {
            let d2 = self.disk();
            lemma_descent_facts(d2, c, own, d0, ino, offset, s1, h, h + 1);
            assert(sound(d2, c, own));
        }
        return 0;
    }
}


/// An index into an indirect block lies within it.
proof fn lemma_digit_pos(o: u32, l: u32)
    requires
        l <= 6,
    ensures
        0 <= digit(o, l) < 128,
{
    crate::treeview::lemma_digit(o, l);
}

} // verus!

//! A simple file system: every inode owns a fixed run of blocks on the disk below.
//!
//! The first `ceil(4 * num_inodes / 512)` blocks hold one 4-byte row per inode (the
//! number of blocks written to it); inode `ino` owns the blocks
//! `ino * per_inode + meta .. (ino + 1) * per_inode + meta`, where `per_inode` is
//! the disk size divided by the number of inodes.
use vstd::prelude::*;

use crate::common::{
    le_bytes, le_u32_at, lemma_le_splice, lemma_u32_bits, read_i32_le, splice, write_u32_le, zero_block, Block, Error, IsDisk,
    Stackable, BLOCK_SIZE,
};

verus! {

/// Width in bytes of one metadata row.
pub const SUGGESTED_ROW_WIDTH: usize = 4;

/// Where the metadata rows lie.
#[derive(Clone, Copy)]
pub struct Metadata {
    pub row_width: u32,
    pub num_blocks_needed: u32,
}

/// A simple file system over the disk `below`.
pub struct SimpleFS<T: Stackable> {
    pub below: T,
    pub below_ino: u32,
    pub num_inodes: u32,
    pub metadata: Option<Metadata>,
}

/// Blocks taken by the metadata rows of `num_inodes` inodes.
pub open spec fn meta_blocks(num_inodes: int) -> int {
    (num_inodes * SUGGESTED_ROW_WIDTH + BLOCK_SIZE - 1) / (BLOCK_SIZE as int)
}

/// The disk `d` after block `at + z` is zeroed for every `z` in `from .. to`.
pub open spec fn zero_run(d: Seq<Seq<i8>>, at: int, from: int, to: int) -> Seq<Seq<i8>> {
    Seq::new(d.len(), |b: int| if at + from <= b < at + to { zero_block() } else { d[b] })
}

impl<T: Stackable> SimpleFS<T> {
    /// The disk below, through `below_ino`.
    pub open spec fn disk(&self) -> Seq<Seq<i8>> {
        self.below.blocks(self.below_ino)
    }

    /// The metadata is the one computed for `num_inodes`.
    pub open spec fn wf(&self) -> bool {
        &&& self.below.inv()
        &&& self.metadata == Some(
            Metadata {
                row_width: SUGGESTED_ROW_WIDTH as u32,
                num_blocks_needed: meta_blocks(self.num_inodes as int) as u32,
            },
        )
    }

    /// Metadata block holding the row of `ino`.
    pub open spec fn row_block(ino: int) -> int {
        (ino * SUGGESTED_ROW_WIDTH) / (BLOCK_SIZE as int)
    }

    /// Byte offset inside its block at which the row of `ino` starts.
    pub open spec fn row_byte(ino: int) -> int {
        (ino * SUGGESTED_ROW_WIDTH) % (BLOCK_SIZE as int)
    }

    /// The number of blocks written to `ino`, as stored in its row of `d`.
    pub open spec fn used_in(d: Seq<Seq<i8>>, ino: int) -> u32 {
        le_u32_at(d[Self::row_block(ino)], Self::row_byte(ino))
    }

    /// The blocks each inode owns, when the disk has `len` blocks.
    pub open spec fn per_inode(&self, len: int) -> int {
        len / (self.num_inodes as int)
    }

    /// The disk block holding block `offset` of `ino`.
    pub open spec fn block_index(&self, ino: int, offset: int, len: int) -> int {
        ino * self.per_inode(len) + offset + meta_blocks(self.num_inodes as int)
    }

    /// What `get_size` answers for a disk of `len` blocks.
    pub open spec fn size_spec(&self, len: int) -> Result<u32, Error> {
        if self.num_inodes == 0 || len == 0 || len < self.num_inodes {
            Err(Error::UnknownFailure)
        } else {
            Ok(self.per_inode(len) as u32)
        }
    }

    /// The disk after `write` of `buf` as block `offset` of `ino`: the data block is
    /// written, then the row is raised to `offset + 1` if it was at most `offset`, the
    /// blocks between the old row value and `offset` being zeroed.
    pub open spec fn write_disk(&self, d: Seq<Seq<i8>>, ino: int, offset: int, buf: Seq<i8>) -> Seq<
        Seq<i8>,
    > {
        let len = d.len() as int;
        let d1 = d.update(self.block_index(ino, offset, len), buf);
        let used = Self::used_in(d1, ino) as int;
        let rb = Self::row_block(ino);
        if offset == used {
            d1.update(rb, splice(d1[rb], Self::row_byte(ino), le_bytes((used + 1) as u32)))
        } else if offset > used {
            let d2 = zero_run(d1, ino * self.per_inode(len) + meta_blocks(self.num_inodes as int), used, offset);
            d2.update(rb, splice(d2[rb], Self::row_byte(ino), le_bytes((offset + 1) as u32)))
        } else {
            d1
        }
    }

    /// Blocks needed for the metadata rows: one 4-byte row per inode.
    pub fn compute_metadata(num_inodes: u32) -> (r: Result<Metadata, Error>)
        ensures
            r == Ok::<Metadata, Error>(
                Metadata {
                    row_width: SUGGESTED_ROW_WIDTH as u32,
                    num_blocks_needed: meta_blocks(num_inodes as int) as u32,
                },
            ),
    {
        let width: u64 = SUGGESTED_ROW_WIDTH as u64;
        assert(width == 4);
        let total: u64 = width * num_inodes as u64;
        let num_blocks_needed = ((total + BLOCK_SIZE as u64 - 1) / BLOCK_SIZE as u64) as u32;
        Ok(
            Metadata {
                row_width: SUGGESTED_ROW_WIDTH as u32,
                num_blocks_needed: num_blocks_needed,
            },
        )
    }

    /// A file system over `below` with the metadata for `num_inodes` inodes.
    pub fn new(below: T, below_ino: u32, num_inodes: u32) -> (fs: Self)
        requires
            below.inv(),
        ensures
            fs.wf(),
            fs.below == below,
            fs.below_ino == below_ino,
            fs.num_inodes == num_inodes,
    {
        let mut tmp = SimpleFS { below: below, below_ino: below_ino, num_inodes: num_inodes, metadata: None };
        match Self::compute_metadata(num_inodes) {
            Ok(data) => {
                tmp.metadata = Some(data);
                tmp
            },
            Err(_) => tmp,
        }
    }

    /// The metadata; `UnknownFailure` when it is missing.
    pub fn get_metadata(&self) -> (r: Result<&Metadata, Error>)
        ensures
            match self.metadata {
                Some(m) => r == Ok::<&Metadata, Error>(&m),
                None => r == Err::<&Metadata, Error>(Error::UnknownFailure),
            },
    {
        match &self.metadata {
            Some(m) => Ok(m),
            None => Err(Error::UnknownFailure),
        }
    }

    /// Nothing to lay out: a zeroed disk is an empty file system.
    pub fn setup_disk(below: &mut T, below_ino: u32, num_inodes: u32) -> (r: Result<i32, Error>)
        ensures
            r == Ok::<i32, Error>(0),
            *final(below) == *old(below),
    {
        Ok(0)
    }

    /// Which metadata block the row of `ino` lives on and which bytes in that block to
    /// look at.
    pub fn compute_indices(&self, ino: u32) -> (r: Result<(u32, u32), Error>)
        requires
            self.wf(),
            (ino + 1) * SUGGESTED_ROW_WIDTH <= u32::MAX,
        ensures
            r == Ok::<(u32, u32), Error>(
                (Self::row_block(ino as int) as u32, Self::row_byte(ino as int) as u32),
            ),
    {
        let row_width = match self.get_metadata() {
            Ok(m) => m.row_width,
            Err(_) => 0,
        };
        let block_no = (ino * row_width) / BLOCK_SIZE as u32;
        let byte_index = (ino * row_width) % BLOCK_SIZE as u32;
        Ok((block_no, byte_index))
    }

    /// The row value stored at byte `ibyte` of `buf`.
    pub fn compute_inode_metadata_at(buf: &mut Block, ibyte: u32) -> (r: u32)
        requires
            ibyte + 4 <= BLOCK_SIZE,
        ensures
            *final(buf) == *old(buf),
            r == le_u32_at(old(buf)@, ibyte as int),
    {
        let v = read_i32_le(buf, ibyte as usize);
        proof {
            lemma_u32_bits(le_u32_at(buf@, ibyte as int));
        }
        v as u32
    }

    /// Stores the row value `val` at byte `ibyte` of `buf`.
    pub fn set_new_inode_metadata_at(buf: &mut Block, ibyte: u32, val: u32)
        requires
            ibyte + 4 <= BLOCK_SIZE,
        ensures
            final(buf)@ == splice(old(buf)@, ibyte as int, le_bytes(val)),
    {
        write_u32_le(buf, ibyte as usize, val);
    }

    /// Number of blocks written to `ino`, read from its metadata row.
    pub fn blocks_used(&self, ino: u32) -> (r: u32)
        requires
            self.wf(),
            (ino + 1) * SUGGESTED_ROW_WIDTH <= u32::MAX,
        ensures
            self.below.reliable() && Self::row_block(ino as int) < self.disk().len() ==> r
                == Self::used_in(self.disk(), ino as int),
    {
        let (block_no, byte_index) = match self.compute_indices(ino) {
            Ok(p) => p,
            Err(_) => (0, 0),
        };
        let mut buf = Block::new();
        let _ = self.below.read(self.below_ino, block_no, &mut buf);
        proof {
            assert(byte_index <= 508);
        }
        Self::compute_inode_metadata_at(&mut buf, byte_index)
    }

    /// Stores `val` in the metadata row of `ino`.
    pub fn set_blocks_used(&mut self, ino: u32, val: u32)
        requires
            old(self).wf(),
            (ino + 1) * SUGGESTED_ROW_WIDTH <= u32::MAX,
        ensures
            final(self).wf(),
            final(self).below_ino == old(self).below_ino,
            final(self).num_inodes == old(self).num_inodes,
            old(self).below.reliable() && Self::row_block(ino as int) < old(self).disk().len() ==> {
                let rb = Self::row_block(ino as int);
                &&& final(self).below.reliable()
                &&& final(self).disk() == old(self).disk().update(
                    rb,
                    splice(old(self).disk()[rb], Self::row_byte(ino as int), le_bytes(val)),
                )
            },
    {
        let (block_no, byte_index) = match self.compute_indices(ino) {
            Ok(p) => p,
            Err(_) => (0, 0),
        };
        let mut buf = Block::new();
        let _ = self.below.read(self.below_ino, block_no, &mut buf);
        proof {
            assert(byte_index <= 508);
        }
        Self::set_new_inode_metadata_at(&mut buf, byte_index, val);
        let _ = self.below.write(self.below_ino, block_no, &buf);
    }
}

impl<T: Stackable + IsDisk> SimpleFS<T> {
    /// Blocks per inode: the disk size divided by the number of inodes; fails when
    /// either is zero or the disk has fewer blocks than inodes.
    pub fn get_size(&self) -> (r: Result<u32, Error>)
        requires
            self.wf(),
        ensures
            r is Ok ==> r == self.size_spec(self.disk().len() as int),
            self.below.reliable() && self.num_inodes > 0 && self.disk().len() >= self.num_inodes as nat ==> r
                == Ok::<u32, Error>(((self.disk().len() as int) / (self.num_inodes as int)) as u32),
            self.below.reliable() && self.disk().len() > 0 ==> r == self.size_spec(self.disk().len() as int),
            self.below.reliable() && self.disk().len() == 0 ==> r is Err,
    {
        let num = self.below.get_size(self.below_ino)?;
        let denom = self.num_inodes;
        if denom == 0 || num == 0 || num < denom {
            return Err(Error::UnknownFailure);
        }
        Ok(num / denom)
    }

    /// Sizes are fixed: always fails.
    pub fn set_size(&mut self, size: u32) -> (r: Result<i32, Error>)
        ensures
            r == Err::<i32, Error>(Error::UnknownFailure),
            *final(self) == *old(self),
    {
        return Err(Error::UnknownFailure);
    }

    /// Reads block `offset` of `ino`: fails unless the block was written (by its
    /// metadata row) and lies inside the run of `ino`. Over a disk that may fail, a
    /// read that succeeds still gives the block of `ino` at `offset`.
    pub fn read(&self, ino: u32, offset: u32, buf: &mut Block) -> (r: Result<i32, Error>)
        requires
            self.wf(),
            (ino + 1) * SUGGESTED_ROW_WIDTH <= u32::MAX,
            self.disk().len() + meta_blocks(self.num_inodes as int) <= u32::MAX,
        ensures
            ({
                let len = self.disk().len() as int;
                r is Ok ==> {
                    &&& self.size_spec(len) is Ok
                    &&& ino < self.num_inodes
                    &&& offset < self.per_inode(len)
                    &&& self.block_index(ino as int, offset as int, len) < len
                    &&& final(buf)@ == self.disk()[self.block_index(ino as int, offset as int, len)]
                }
            }),
            self.below.reliable() ==> ({
                let len = self.disk().len() as int;
                if Self::row_block(ino as int) >= len {
                    r is Err && *final(buf) == *old(buf)
                } else if offset >= Self::used_in(self.disk(), ino as int) {
                    r == Err::<i32, Error>(Error::UnknownFailure) && *final(buf) == *old(buf)
                } else if self.size_spec(len) is Err {
                    r == Err::<i32, Error>(Error::UnknownFailure) && *final(buf) == *old(buf)
                } else if ino >= self.num_inodes || offset >= self.per_inode(len) {
                    r == Err::<i32, Error>(Error::UnknownFailure) && *final(buf) == *old(buf)
                } else if self.block_index(ino as int, offset as int, len) < len {
                    r is Ok && final(buf)@ == self.disk()[self.block_index(ino as int, offset as int, len)]
                } else {
                    r is Err
                }
            }),
    {
        let blocks_used = self.blocks_used(ino);
        if offset >= blocks_used {
            return Err(Error::UnknownFailure);
        }
        let metadata_offset = self.get_metadata()?.num_blocks_needed;
        let blocks_per_node = self.get_size()?;
        if ino >= self.num_inodes || offset >= blocks_per_node {
            return Err(Error::UnknownFailure);
        }
        proof {
            let len = self.disk().len() as int;
            let n = self.num_inodes as int;
            lemma_row_in_meta(ino as int, n);
            assert(ino * (len / n) + offset < n * (len / n)) by (nonlinear_arith)
                requires
                    ino < n,
                    offset < len / n,
                    n > 0,
            ;
            assert(n * (len / n) <= len) by (nonlinear_arith)
                requires
                    n > 0,
                    len >= 0,
            ;
            assert(ino * (len / n) >= 0) by (nonlinear_arith)
                requires
                    ino >= 0,
                    len / n >= 0,
            ;
        }
        let full_offset = (ino * blocks_per_node) + offset + metadata_offset;
        self.below.read(self.below_ino, full_offset, buf)
    }

    /// Writes `buf` as block `offset` of `ino`, then records in the metadata row that
    /// the blocks up to `offset` are written, zeroing those skipped over. Nothing is
    /// written when the inode or the offset is out of range.
    pub fn write(&mut self, ino: u32, offset: u32, buf: &Block) -> (r: Result<i32, Error>)
        requires
            old(self).wf(),
            (ino + 1) * SUGGESTED_ROW_WIDTH <= u32::MAX,
            old(self).disk().len() + meta_blocks(old(self).num_inodes as int) <= u32::MAX,
        ensures
            final(self).wf(),
            final(self).below_ino == old(self).below_ino,
            final(self).num_inodes == old(self).num_inodes,
            ({
                let d = old(self).disk();
                let len = d.len() as int;
                let rel = old(self).below.reliable();
                if old(self).size_spec(len) is Err {
                    &&& r is Err
                    &&& rel && len > 0 ==> r == Err::<i32, Error>(Error::UnknownFailure)
                    &&& *final(self) == *old(self)
                } else if ino >= old(self).num_inodes || offset >= old(self).per_inode(len) {
                    &&& r is Err
                    &&& rel ==> r == Err::<i32, Error>(Error::UnknownFailure)
                    &&& *final(self) == *old(self)
                } else if old(self).block_index(ino as int, offset as int, len) < len {
                    rel ==> {
                        &&& r is Ok
                        &&& final(self).below.reliable()
                        &&& final(self).disk() == old(self).write_disk(d, ino as int, offset as int, buf@)
                    }
                } else {
                    &&& r is Err
                    &&& rel ==> final(self).below.reliable() && final(self).disk() == d
                }
            }),
    {
        let ghost rel = self.below.reliable();
        let ghost d = self.disk();
        let ghost len = d.len() as int;
        let metadata_offset = self.get_metadata()?.num_blocks_needed;
        let blocks_per_node = self.get_size()?;
        if ino >= self.num_inodes || offset >= blocks_per_node {
            return Err(Error::UnknownFailure);
        }
        proof {
            let n = self.num_inodes as int;
            lemma_row_in_meta(ino as int, n);
            assert(ino * (len / n) + offset < n * (len / n)) by (nonlinear_arith)
                requires
                    ino < n,
                    offset < len / n,
                    n > 0,
            ;
            assert(n * (len / n) <= len) by (nonlinear_arith)
                requires
                    n > 0,
                    len >= 0,
            ;
            assert(ino * (len / n) >= 0) by (nonlinear_arith)
                requires
                    ino >= 0,
                    len / n >= 0,
            ;
        }
        let base = ino * blocks_per_node;
        let full_offset = base + offset + metadata_offset;
        let ghost in_range = full_offset < len;
        let res = self.below.write(self.below_ino, full_offset, buf)?;
        proof {
            assert(in_range);
        }
        let ghost d1 = self.disk();
        let mut blocks_used = self.blocks_used(ino);
        if offset == blocks_used {
            blocks_used += 1;
            self.set_blocks_used(ino, blocks_used);
        } else if offset > blocks_used {
            let mut zeroes_offset_base = blocks_used;
            while zeroes_offset_base < offset
                invariant
                    self.wf(),
                    d == old(self).disk(),
                    len == d.len(),
                    old(self).size_spec(len) is Ok,
                    ino < old(self).num_inodes,
                    offset < old(self).per_inode(len),
                    full_offset == old(self).block_index(ino as int, offset as int, len),
                    self.below_ino == old(self).below_ino,
                    self.num_inodes == old(self).num_inodes,
                    blocks_used <= zeroes_offset_base <= offset,
                    base + offset + metadata_offset == full_offset,
                    in_range,
                    in_range <==> full_offset < len,
                    metadata_offset == meta_blocks(self.num_inodes as int),
                    rel == old(self).below.reliable(),
                    rel ==> self.below.reliable(),
                    rel ==> self.disk() == zero_run(d1, base + metadata_offset, blocks_used as int, zeroes_offset_base as int),
                    rel ==> d1.len() == len,
                decreases offset - zeroes_offset_base,
            {
                let full_zeroes_offset = base + zeroes_offset_base + metadata_offset;
                let zero = Block::new();
                let ghost before = self.disk();
                self.below.write(self.below_ino, full_zeroes_offset, &zero)?;
                assert(rel ==> self.disk() =~= zero_run(d1, base + metadata_offset, blocks_used as int, zeroes_offset_base + 1));
                zeroes_offset_base = zeroes_offset_base + 1;
            }
            blocks_used = offset + 1;
            self.set_blocks_used(ino, blocks_used);
        }
        Ok(res)
    }
}

/// After a successful write, the row of the inode says the block is written and the
/// data block holds `buf`: reading it back gives `buf`.
pub proof fn law_simplefs_read_after_write<T: Stackable>(
    fs: SimpleFS<T>,
    d: Seq<Seq<i8>>,
    ino: int,
    offset: int,
    buf: Seq<i8>,
)
    requires
        fs.num_inodes > 0,
        0 <= ino < fs.num_inodes,
        0 <= offset < fs.per_inode(d.len() as int),
        fs.block_index(ino, offset, d.len() as int) < d.len(),
        buf.len() == BLOCK_SIZE,
        d.len() <= u32::MAX,
        forall|b: int| 0 <= b < d.len() ==> (#[trigger] d[b]).len() == BLOCK_SIZE,
    ensures
        ({
            let d2 = fs.write_disk(d, ino, offset, buf);
            &&& d2.len() == d.len()
            &&& SimpleFS::<T>::used_in(d2, ino) > offset
            &&& d2[fs.block_index(ino, offset, d.len() as int)] == buf
        }),
{
    let len = d.len() as int;
    let n = fs.num_inodes as int;
    let full = fs.block_index(ino, offset, len);
    assert(ino * (len / n) >= 0) by (nonlinear_arith)
        requires
            ino >= 0,
            len / n >= 0,
    ;
    lemma_row_in_meta(ino, n);
    let d1 = d.update(full, buf);
    let used = SimpleFS::<T>::used_in(d1, ino) as int;
    let rb = SimpleFS::<T>::row_block(ino);
    let rbyte = SimpleFS::<T>::row_byte(ino);
    if offset == used {
        lemma_le_splice(d1[rb], rbyte, (used + 1) as u32);
    } else if offset > used {
        let d2 = zero_run(d1, ino * fs.per_inode(len) + meta_blocks(n), used, offset);
        lemma_le_splice(d2[rb], rbyte, (offset + 1) as u32);
    }
}

/// The row of an inode `ino < n` lies in the metadata blocks of `n` inodes, inside its
/// block.
pub proof fn lemma_row_in_meta(ino: int, n: int)
    requires
        0 <= ino < n,
    ensures
        0 <= (ino * SUGGESTED_ROW_WIDTH) / (BLOCK_SIZE as int) < meta_blocks(n),
        (ino * SUGGESTED_ROW_WIDTH) / (BLOCK_SIZE as int) <= ino,
        0 <= (ino * SUGGESTED_ROW_WIDTH) % (BLOCK_SIZE as int) <= BLOCK_SIZE - 4,
        meta_blocks(n) <= n,
{
    assert((ino * 4) % 512 <= 508) by (nonlinear_arith)
        requires
            ino >= 0,
    ;
}

/// Each inode has a row of its own: storing a value in the row of `ino` leaves the
/// row of every other inode as it was.
pub proof fn law_rows_independent<T: Stackable>(d: Seq<Seq<i8>>, ino: int, other: int, val: u32)
    requires
        0 <= ino,
        0 <= other,
        ino != other,
        SimpleFS::<T>::row_block(ino) < d.len(),
        SimpleFS::<T>::row_block(other) < d.len(),
        forall|b: int| 0 <= b < d.len() ==> (#[trigger] d[b]).len() == BLOCK_SIZE,
    ensures
        ({
            let rb = SimpleFS::<T>::row_block(ino);
            let d2 = d.update(rb, splice(d[rb], SimpleFS::<T>::row_byte(ino), le_bytes(val)));
            &&& SimpleFS::<T>::used_in(d2, ino) == val
            &&& SimpleFS::<T>::used_in(d2, other) == SimpleFS::<T>::used_in(d, other)
        }),
{
    lemma_row_in_meta(ino, ino + 1);
    lemma_row_in_meta(other, other + 1);
    let rb = SimpleFS::<T>::row_block(ino);
    lemma_le_splice(d[rb], SimpleFS::<T>::row_byte(ino), val);
    if SimpleFS::<T>::row_block(other) == rb {
        assert(SimpleFS::<T>::row_byte(other) + 4 <= SimpleFS::<T>::row_byte(ino)
            || SimpleFS::<T>::row_byte(ino) + 4 <= SimpleFS::<T>::row_byte(other));
    }
}

/// A write changes only what it is for: afterwards the row of `ino` counts
/// `max(old count, offset + 1)` written blocks, so an overwrite below the count leaves
/// it as it was, and every other block of `ino` counted before keeps its contents.
pub proof fn law_simplefs_write_keeps_written<T: Stackable>(
    fs: SimpleFS<T>,
    d: Seq<Seq<i8>>,
    ino: int,
    offset: int,
    buf: Seq<i8>,
)
    requires
        fs.num_inodes > 0,
        0 <= ino < fs.num_inodes,
        0 <= offset < fs.per_inode(d.len() as int),
        fs.block_index(ino, offset, d.len() as int) < d.len(),
        buf.len() == BLOCK_SIZE,
        d.len() <= u32::MAX,
        forall|b: int| 0 <= b < d.len() ==> (#[trigger] d[b]).len() == BLOCK_SIZE,
    ensures
        ({
            let len = d.len() as int;
            let d2 = fs.write_disk(d, ino, offset, buf);
            let u = SimpleFS::<T>::used_in(d, ino) as int;
            &&& d2.len() == d.len()
            &&& SimpleFS::<T>::used_in(d2, ino) == if offset + 1 > u {
                offset + 1
            } else {
                u
            }
            &&& forall|k: int|
                0 <= k < u && k != offset && fs.block_index(ino, k, len) < len ==> #[trigger] d2[fs.block_index(
                    ino,
                    k,
                    len,
                )] == d[fs.block_index(ino, k, len)]
        }),
{
    let len = d.len() as int;
    let n = fs.num_inodes as int;
    let full = fs.block_index(ino, offset, len);
    assert(ino * (len / n) >= 0) by (nonlinear_arith)
        requires
            ino >= 0,
            len / n >= 0,
    ;
    lemma_row_in_meta(ino, n);
    let d1 = d.update(full, buf);
    let rb = SimpleFS::<T>::row_block(ino);
    let rbyte = SimpleFS::<T>::row_byte(ino);
    assert(rb < meta_blocks(n));
    assert(full != rb);
    assert(d1[rb] == d[rb]);
    let used = SimpleFS::<T>::used_in(d1, ino) as int;
    assert(used == SimpleFS::<T>::used_in(d, ino));
    let d2 = fs.write_disk(d, ino, offset, buf);
    assert forall|k: int|
        0 <= k < used && k != offset && fs.block_index(ino, k, len) < len implies #[trigger] d2[fs.block_index(
            ino,
            k,
            len,
        )] == d[fs.block_index(ino, k, len)] by {
        let bk = fs.block_index(ino, k, len);
        assert(bk != rb);
        assert(bk != full);
        assert(d1[bk] == d[bk]);
    }
    if offset == used {
        lemma_le_splice(d1[rb], rbyte, (used + 1) as u32);
    } else if offset > used {
        let z = zero_run(d1, ino * fs.per_inode(len) + meta_blocks(n), used, offset);
        assert(z[rb] == d1[rb]);
        lemma_le_splice(z[rb], rbyte, (offset + 1) as u32);
    }
}

/// The blocks each inode owns: with at least one inode and at least as many blocks as
/// inodes, every inode gets the disk size divided by the number of inodes, rounded
/// down; otherwise the size is refused.
pub proof fn law_simplefs_size<T: Stackable>(fs: SimpleFS<T>, len: int)
    requires
        0 <= len <= u32::MAX,
    ensures
        fs.num_inodes > 0 && len >= fs.num_inodes ==> fs.size_spec(len) == Ok::<u32, Error>(
            (len / (fs.num_inodes as int)) as u32,
        ),
        fs.num_inodes > 0 && len >= fs.num_inodes ==> fs.per_inode(len) * fs.num_inodes <= len < (fs.per_inode(len)
            + 1) * fs.num_inodes,
        !(fs.num_inodes > 0 && len >= fs.num_inodes) ==> fs.size_spec(len) is Err,
{
    if fs.num_inodes > 0 && len >= fs.num_inodes {
        let n = fs.num_inodes as int;
        vstd::arithmetic::div_mod::lemma_fundamental_div_mod(len, n);
        vstd::arithmetic::div_mod::lemma_mod_bound(len, n);
        assert(fs.per_inode(len) * n <= len < (fs.per_inode(len) + 1) * n) by (nonlinear_arith)
            requires
                fs.per_inode(len) == len / n,
                len == n * (len / n) + len % n,
                0 <= len % n < n,
        ;
    }
}

} // verus!

//! An in-memory disk: the lowest layer of a stack when no device is at hand.
use vstd::prelude::*;

use crate::common::{zero_block, Block, Error, IsDisk, Stackable, BLOCK_SIZE};

verus! {

/// Size in bytes of the in-memory disk.
pub const DEBUG_SIZE: usize = 16384;

/// Number of blocks of the in-memory disk.
pub const RAM_BLOCKS: usize = 32;

/// A disk of `RAM_BLOCKS` blocks kept in memory.
pub struct RamFS {
    mem: Vec<Block>,
}

impl RamFS {
    /// The blocks of the disk.
    pub closed spec fn contents(&self) -> Seq<Seq<i8>> {
        self.mem@.map_values(|b: Block| b@)
    }

    /// A zeroed disk.
    pub fn new() -> (d: RamFS)
        ensures
            d.inv(),
            d.contents() == Seq::new(RAM_BLOCKS as nat, |i: int| zero_block()),
    {
        let mut mem: Vec<Block> = Vec::new();
        let mut i: usize = 0;
        while i < RAM_BLOCKS
            invariant
                i <= RAM_BLOCKS,
                mem@.len() == i,
                forall|k: int| 0 <= k < i ==> #[trigger] mem@[k]@ == zero_block(),
            decreases RAM_BLOCKS - i,
        {
            mem.push(Block::new());
            i = i + 1;
        }
        let d = RamFS { mem };
        assert(d.contents() =~= Seq::new(RAM_BLOCKS as nat, |i: int| zero_block()));
        d
    }
}

impl Stackable for RamFS {
    open spec fn inv(&self) -> bool {
        self.contents().len() == RAM_BLOCKS
    }

    open spec fn reliable(&self) -> bool {
        true
    }

    /// Every inode number names the whole disk.
    open spec fn blocks(&self, ino: u32) -> Seq<Seq<i8>> {
        self.contents()
    }

    /// The number of blocks of the disk.
    fn get_size(&self, ino: u32) -> (r: Result<u32, Error>)
        ensures
            r == Ok::<u32, Error>(RAM_BLOCKS as u32),
    {
        Ok((DEBUG_SIZE / BLOCK_SIZE) as u32)
    }

    /// No-op.
    fn set_size(&mut self, ino: u32, size: u32) -> (r: Result<i32, Error>)
        ensures
            r == Ok::<i32, Error>(0),
            final(self).contents() == old(self).contents(),
    {
        Ok(0)
    }

    /// Reads block `offset`; an offset past the disk fails.
    fn read(&self, ino: u32, offset: u32, buf: &mut Block) -> (r: Result<i32, Error>)
        ensures
            offset < RAM_BLOCKS ==> r == Ok::<i32, Error>(0) && final(buf)@ == self.contents()[offset as int],
            offset >= RAM_BLOCKS ==> r == Err::<i32, Error>(Error::UnknownFailure) && *final(buf) == *old(buf),
    {
        if (offset as usize) < self.mem.len() {
            *buf = self.mem[offset as usize];
            Ok(0)
        } else {
            Err(Error::UnknownFailure)
        }
    }

    /// Writes block `offset`; an offset past the disk fails.
    fn write(&mut self, ino: u32, offset: u32, buf: &Block) -> (r: Result<i32, Error>)
        ensures
            offset < RAM_BLOCKS ==> r == Ok::<i32, Error>(0) && final(self).contents() == old(self).contents().update(offset as int, buf@),
            offset >= RAM_BLOCKS ==> r == Err::<i32, Error>(Error::UnknownFailure) && final(self).contents() == old(self).contents(),
    {
        if (offset as usize) < self.mem.len() {
            self.mem.set(offset as usize, *buf);
            assert(self.contents() =~= old(self).contents().update(offset as int, buf@));
            Ok(0)
        } else {
            Err(Error::UnknownFailure)
        }
    }
}

impl IsDisk for RamFS {

}

} // verus!

//! Layered file-system stores (in-memory disk, FAT, simple runs, tree store, block
//! cache) and an SD card driver queue, with their contracts proved.
use vstd::prelude::*;

pub mod common;
pub mod ramdisk;
pub mod fat;
pub mod simplefs;
pub mod clock;
pub mod treedisk;
pub mod treeview;
pub mod sd_driver;
pub mod upcalls;

verus! {

/// Adds two numbers.
pub fn add(left: usize, right: usize) -> (sum: usize)
    requires
        left + right <= usize::MAX,
    ensures
        sum == left + right,
{
    left + right
}

} // verus!

//! CAFS: a small block filesystem with a write-back block cache, bitmap
//! allocators, inodes indexed by a height-compressed indirect tree, and a
//! virtual filesystem layer on top.
use vstd::prelude::*;

pub mod bytes;
pub mod fake;
pub mod fs;
pub mod cafs;
pub mod vfs;

verus! {

/// Identifier of a partition that holds this filesystem.
pub const PARTITION_UUID: &'static str = "0c421611-8e4a-464e-b683-96265fc14532";

/// Size of one device block in bytes.
pub const BLOCK_SIZE: u64 = 512;

/// Number of bits held by one block.
pub const BLOCK_BITS: u64 = 4096;

/// Every block of `d` has exactly `BLOCK_SIZE` bytes.
pub open spec fn blocks_wf(d: Seq<Seq<u8>>) -> bool {
    forall|i: int| 0 <= i < d.len() ==> (#[trigger] d[i]).len() == 512
}

/// A device that stores fixed-size blocks addressed by a 64-bit id.
///
/// The model of a device is the sequence of its blocks. Reading returns the
/// block as it was last written; writing replaces one block and nothing else.
pub trait BlockDevice {
    /// The blocks of the device, by id. A device that does not say what
    /// it holds holds nothing that is known.
    open spec fn contents(&self) -> Seq<Seq<u8>> {
        vstd::pervasive::arbitrary()
    }

    /// Copies block `block_id` into `buf`.
    fn read_block(&self, block_id: u64, buf: &mut [u8])
        requires
            block_id < self.contents().len(),
            old(buf)@.len() == BLOCK_SIZE,
        ensures
            final(buf)@ == self.contents()[block_id as int],
    ;

    /// Replaces block `block_id` by `buf`.
    fn write_block(&mut self, block_id: u64, buf: &[u8])
        requires
            block_id < old(self).contents().len(),
            buf@.len() == BLOCK_SIZE,
        ensures
            final(self).contents() == old(self).contents().update(block_id as int, buf@),
    ;
}

/// Errors that the filesystem reports to its callers.
#[derive(Debug)]
pub enum Error {
    /// No directory entry of this name exists where the path looked for it.
    NotExist(String),
    /// Every inode is in use.
    RunOutOfInode,
}

} // verus!

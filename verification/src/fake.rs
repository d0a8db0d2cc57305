//! An in-memory block device.
use crate::BlockDevice;
use vstd::prelude::*;

verus! {

/// A block device held in memory, one array per block.
#[derive(Debug)]
pub struct Disk {
    pub total_blocks: u64,
    pub data: Vec<[u8; 512]>,
}

impl Disk {
    /// A disk of `total_blocks` blocks, all zero.
    pub fn new(total_blocks: u64) -> (disk: Self)
        requires
            total_blocks <= usize::MAX,
        ensures
            disk.total_blocks == total_blocks,
            disk.data@.len() == total_blocks,
            disk.contents().len() == total_blocks,
            forall|i: int|
                0 <= i < total_blocks ==> #[trigger] disk.contents()[i] == crate::bytes::spec_zeros(
                    512,
                ),
    {
        let mut data: Vec<[u8; 512]> = Vec::new();
        let mut i: u64 = 0;
        while i < total_blocks
            invariant
                i <= total_blocks,
                data@.len() == i,
                forall|j: int| 0 <= j < i ==> (#[trigger] data@[j])@ =~= crate::bytes::spec_zeros(512),
            decreases total_blocks - i,
        {
            data.push([0u8; 512]);
            i += 1;
        }
        Disk { total_blocks, data }
    }
}

impl BlockDevice for Disk {
    /// The blocks that both `total_blocks` and `data` cover.
    open spec fn contents(&self) -> Seq<Seq<u8>> {
        Seq::new(
            if self.total_blocks <= self.data@.len() {
                self.total_blocks as nat
            } else {
                self.data@.len()
            },
            |i: int| self.data@[i]@,
        )
    }

    fn read_block(&self, block_id: u64, buf: &mut [u8]) {
        let n = self.data.len();
        let src = &self.data[block_id as usize];
        let mut i: usize = 0;
        while i < 512
            invariant
                i <= 512,
                buf@.len() == 512,
                forall|j: int| 0 <= j < i ==> buf@[j] == src@[j],
            decreases 512 - i,
        {
            buf[i] = src[i];
            i += 1;
        }
        assert(buf@ =~= src@);
    }

    fn write_block(&mut self, block_id: u64, buf: &[u8]) {
        let n = self.data.len();
        let mut blk = [0u8; 512];
        let mut i: usize = 0;
        while i < 512
            invariant
                i <= 512,
                buf@.len() == 512,
                forall|j: int| 0 <= j < i ==> blk@[j] == buf@[j],
            decreases 512 - i,
        {
            blk[i] = buf[i];
            i += 1;
        }
        assert(blk@ =~= buf@);
        self.data[block_id as usize] = blk;
        assert(self.contents() =~= old(self).contents().update(block_id as int, buf@));
    }
}

} // verus!

//! The owner-side free list of the blocks of the local region.
use vstd::prelude::*;

use crate::fifo::BlockID;
use crate::shared::MAX_BLOCKS;

verus! {

/// Free block ids of the local region, reused last-in first-out.
pub struct BlockStore {
    free_blocks: Vec<BlockID>,
}

impl View for BlockStore {
    type V = Seq<BlockID>;

    closed spec fn view(&self) -> Seq<BlockID> {
        self.free_blocks@
    }
}

impl BlockStore {
    /// Every id is a block of the region, and none is listed twice.
    pub open spec fn wf(&self) -> bool {
        &&& forall|i: int| 0 <= i < self@.len() ==> 0 <= #[trigger] self@[i] < MAX_BLOCKS
        &&& self@.no_duplicates()
    }

    /// A store holding every block: `0, 1, ..., MAX_BLOCKS - 1`.
    pub fn new() -> (r: BlockStore)
        ensures
            r.wf(),
            r@ == Seq::new(MAX_BLOCKS as nat, |i: int| i as BlockID),
    {
        let mut free_blocks: Vec<BlockID> = Vec::new();
        let mut i: usize = 0;
        while i < MAX_BLOCKS
            invariant
                i <= MAX_BLOCKS,
                free_blocks@ == Seq::new(i as nat, |j: int| j as BlockID),
            decreases MAX_BLOCKS - i,
        {
            free_blocks.push(i as BlockID);
            i = i + 1;
            assert(free_blocks@ =~= Seq::new(i as nat, |j: int| j as BlockID));
        }
        BlockStore { free_blocks }
    }

    /// Take the most recently freed block, or `None` when none is free.
    pub fn allocate(&mut self) -> (r: Option<BlockID>)
        requires
            old(self).wf(),
        ensures
            final(self).wf(),
            old(self)@.len() == 0 ==> r is None && final(self)@ == old(self)@,
            old(self)@.len() > 0 ==> r == Some(old(self)@.last()) && final(self)@ == old(self)@.drop_last(),
    {
        let r = self.free_blocks.pop();
        proof {
            if old(self)@.len() > 0 {
                assert(self@ =~= old(self)@.drop_last());
                assert forall|i: int, j: int| 0 <= i < j < self@.len() implies self@[i] != self@[j] by {
                    assert(old(self)@[i] != old(self)@[j]);
                }
            }
        }
        r
    }

    /// Give a block back.
    pub fn free(&mut self, block_id: BlockID)
        requires
            old(self).wf(),
            0 <= block_id < MAX_BLOCKS,
            !old(self)@.contains(block_id),
        ensures
            final(self).wf(),
            final(self)@ == old(self)@.push(block_id),
    {
        self.free_blocks.push(block_id);
        proof {
            assert forall|i: int, j: int| 0 <= i < j < self@.len() implies self@[i] != self@[j] by {
                if j == self@.len() - 1 {
                    assert(old(self)@.contains(self@[i]));
                }
            }
        }
    }

    /// Number of free blocks.
    pub fn len(&self) -> (r: usize)
        ensures
            r == self@.len(),
    {
        self.free_blocks.len()
    }
}

} // verus!

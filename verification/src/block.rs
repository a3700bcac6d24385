//! Block records: the unit of bookkeeping of the allocator.

use vstd::prelude::*;

verus! {

/// What a record slot of the arena currently stands for.
#[derive(Clone, Copy, Debug, PartialEq, Eq, Structural)]
pub enum BlockState {
    /// A free region of the pool.
    Free,
    /// A region handed out to a caller.
    Used,
    /// No region: the slot waits to be taken by the next split.
    Vacant,
}

/// The record of one block. Links are indices into the arena of records.
///
/// The block covers the bytes `[offset - adjustment, offset + size + slack)`
/// of the pool. A free block has neither adjustment nor slack.
#[derive(Clone, Copy, Debug)]
pub struct BlockHeader {
    /// Byte length of the region: all of it for a free block, the requested
    /// length for a used one.
    pub size: u64,
    /// Byte offset in the pool at which the region begins.
    pub offset: u64,
    /// Bytes of alignment padding that the block holds before `offset`.
    pub adjustment: u64,
    /// Bytes that the block holds after its region, too few to stand alone.
    pub slack: u64,
    /// Free, used, or a vacant slot.
    pub state: BlockState,
    /// The block that precedes this one in address order.
    pub prev_physical: Option<usize>,
    /// The block that follows this one in address order.
    pub next_physical: Option<usize>,
    /// The previous block of the same free list.
    pub prev_free: Option<usize>,
    /// The next block of the same free list.
    pub next_free: Option<usize>,
}

impl BlockHeader {
    /// First byte that the block covers.
    pub open spec fn start(self) -> int {
        self.offset - self.adjustment
    }

    /// One past the last byte that the block covers.
    pub open spec fn end(self) -> int {
        self.offset + self.size + self.slack
    }

    /// The block is free.
    pub open spec fn spec_is_free(&self) -> bool {
        self.state == BlockState::Free
    }

    /// Whether the block is free.
    #[verifier::when_used_as_spec(spec_is_free)]
    pub fn is_free(&self) -> (r: bool)
        ensures
            r == self.spec_is_free(),
    {
        match self.state {
            BlockState::Free => true,
            _ => false,
        }
    }

    /// Whether the block is handed out.
    pub fn is_used(&self) -> (r: bool)
        ensures
            r == (self.state == BlockState::Used),
    {
        match self.state {
            BlockState::Used => true,
            _ => false,
        }
    }

    /// Marks the block free and gives its padding and slack back to its region.
    pub fn mark_free(&mut self)
        requires
            old(self).adjustment <= old(self).offset,
            old(self).end() <= u64::MAX,
        ensures
            final(self).state == BlockState::Free,
            final(self).offset == old(self).start(),
            final(self).size == old(self).end() - old(self).start(),
            final(self).adjustment == 0,
            final(self).slack == 0,
            final(self).prev_physical == old(self).prev_physical,
            final(self).next_physical == old(self).next_physical,
            final(self).prev_free == old(self).prev_free,
            final(self).next_free == old(self).next_free,
    {
        self.offset = self.offset - self.adjustment;
        self.size = self.size + self.adjustment + self.slack;
        self.adjustment = 0;
        self.slack = 0;
        self.state = BlockState::Free;
    }

    /// Marks the block used, with the padding before and the slack after its
    /// region, and takes it out of any free list.
    pub fn mark_used(&mut self, adjustment: u64, slack: u64)
        ensures
            final(self).state == BlockState::Used,
            final(self).adjustment == adjustment,
            final(self).slack == slack,
            final(self).prev_free.is_none(),
            final(self).next_free.is_none(),
            final(self).offset == old(self).offset,
            final(self).size == old(self).size,
            final(self).prev_physical == old(self).prev_physical,
            final(self).next_physical == old(self).next_physical,
    {
        self.adjustment = adjustment;
        self.slack = slack;
        self.prev_free = None;
        self.next_free = None;
        self.state = BlockState::Used;
    }
}

} // verus!

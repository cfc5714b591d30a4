//! The value types shared by every heap variant: opaque block handles,
//! the error taxonomy, block descriptors, and the root-set tracer capability.

use vstd::prelude::*;

verus! {

/// An opaque handle to one allocated block.
///
/// A pointer names a block by its slot in the block table (`block_num`),
/// carries the block's allocation size in words (`size`) for integrity
/// checking, and a word offset within the block (`offset`). The
/// `(block_num, size)` pair is stable across collections even though the
/// block's concrete address is not.
#[derive(Copy, Clone, PartialEq, Eq, Structural, Debug)]
pub struct Pointer {
    pub block_num: usize,
    pub size: usize,
    pub offset: usize,
}

impl Pointer {
    /// A base pointer (offset zero) for the given block.
    pub fn new(block_num: usize, size: usize) -> (p: Pointer)
        ensures
            p == (Pointer { block_num, size, offset: 0 }),
    {
        Pointer { block_num, size, offset: 0 }
    }

    /// The same block handle, displaced to the given word offset.
    pub fn with_offset(&self, offset: usize) -> (p: Pointer)
        ensures
            p == (Pointer { block_num: self.block_num, size: self.size, offset }),
    {
        Pointer { block_num: self.block_num, size: self.size, offset }
    }

    pub fn block_num(&self) -> (r: usize)
        ensures
            r == self.block_num,
    {
        self.block_num
    }

    pub fn len(&self) -> (r: usize)
        ensures
            r == self.size,
    {
        self.size
    }

    pub fn offset(&self) -> (r: usize)
        ensures
            r == self.offset,
    {
        self.offset
    }
}

/// Everything that can go wrong in a heap operation.
///
/// Capacity exhaustion (`ZeroSizeRequest`, `OutOfMemory`, `OutOfBlocks`) is
/// reported after the allocator has exhausted its single collection retry.
/// Pointer misuse (`IllegalBlock`, `UnallocatedBlock`, `OffsetTooBig`,
/// `MisalignedPointer`) is reported synchronously with the heap unchanged.
/// `IllegalAddress` is raised by the raw word store and is normally caught
/// earlier by the block table's checks.
#[derive(Copy, Clone, PartialEq, Eq, Structural, Debug)]
pub enum HeapError {
    ZeroSizeRequest,
    OutOfMemory,
    OutOfBlocks,
    /// (requested block number, largest valid block number)
    IllegalBlock(usize, usize),
    /// (block number)
    UnallocatedBlock(usize),
    /// (offset, block number, block size)
    OffsetTooBig(usize, usize, usize),
    /// (pointer length, actual block size, block number)
    MisalignedPointer(usize, usize, usize),
    /// (address, exclusive bound it violated)
    IllegalAddress(usize, usize),
}

/// The descriptor of one live block: where it starts in its hosting space,
/// how many words it spans, and how often a collector has relocated it.
#[derive(Copy, Clone, PartialEq, Eq, Structural, Debug)]
pub struct BlockInfo {
    pub start: usize,
    pub size: usize,
    pub num_times_copied: usize,
}

/// Root-set discovery: the client owns the roots and reports, per block
/// index, whether that block is still reachable. The heap treats the
/// tracer's answer as authoritative; unmarked blocks are dead.
///
/// A tracer must fill the vector in place without changing its length.
pub trait Tracer {
    fn trace(&self, live: &mut Vec<bool>)
        ensures
            final(live)@.len() == old(live)@.len(),
    ;
}

} // verus!

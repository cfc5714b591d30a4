//! `BlockTable`: the indirection that keeps pointers stable across
//! compaction. A pointer names a slot here, not an address; every
//! address-returning operation resolves through this table.

use vstd::prelude::*;
use crate::model::blk;
use crate::model::is_first_free;
use crate::model::is_live;
use crate::model::table_address;
use crate::model::table_full;
use crate::model::table_shape;
use crate::types::BlockInfo;
use crate::types::HeapError;
use crate::types::Pointer;

verus! {

/// A fixed array of `MAX_BLOCKS` optional block descriptors, indexed by
/// block number. A block is live exactly when its slot is occupied.
pub struct BlockTable<const MAX_BLOCKS: usize> {
    block_info: Vec<Option<BlockInfo>>,
}

impl<const MAX_BLOCKS: usize> View for BlockTable<MAX_BLOCKS> {
    type V = Seq<Option<BlockInfo>>;

    closed spec fn view(&self) -> Seq<Option<BlockInfo>> {
        self.block_info@
    }
}

impl<const MAX_BLOCKS: usize> BlockTable<MAX_BLOCKS> {
    /// A table with every slot free.
    pub fn new() -> (r: Self)
        ensures
            r@.len() == MAX_BLOCKS,
            forall|i: int| 0 <= i < MAX_BLOCKS ==> r@[i] is None,
    {
        let mut block_info: Vec<Option<BlockInfo>> = Vec::new();
        while block_info.len() < MAX_BLOCKS
            invariant
                block_info@.len() <= MAX_BLOCKS,
                forall|i: int| 0 <= i < block_info@.len() ==> block_info@[i] is None,
            decreases MAX_BLOCKS - block_info.len(),
        {
            block_info.push(None);
        }
        BlockTable { block_info }
    }

    /// The descriptor in slot `block`, if any.
    pub fn get(&self, block: usize) -> (r: Option<BlockInfo>)
        requires
            block < self@.len(),
        ensures
            r == self@[block as int],
    {
        self.block_info[block]
    }

    /// Overwrite slot `block`.
    pub fn set_entry(&mut self, block: usize, entry: Option<BlockInfo>)
        requires
            block < old(self)@.len(),
        ensures
            final(self)@ == old(self)@.update(block as int, entry),
    {
        self.block_info.set(block, entry);
    }

    /// The lowest-numbered unused slot, or `None` when every slot is taken.
    pub fn available_block(&self) -> (r: Option<usize>)
        requires
            self@.len() == MAX_BLOCKS,
        ensures
            r matches Some(b) ==> is_first_free(self@, b as int),
            r is None <==> table_full(self@),
    {
        let mut i: usize = 0;
        while i < MAX_BLOCKS
            invariant
                self@.len() == MAX_BLOCKS,
                i <= MAX_BLOCKS,
                forall|j: int| 0 <= j < i ==> self@[j] is Some,
            decreases MAX_BLOCKS - i,
        {
            if self.get(i).is_none() {
                return Some(i);
            }
            i = i + 1;
        }
        None
    }

    /// Resolve a pointer to a concrete word address, or say exactly which
    /// check in the cascade rejected it.
    pub fn address(&self, p: Pointer) -> (r: Result<usize, HeapError>)
        requires
            self@.len() == MAX_BLOCKS,
            MAX_BLOCKS >= 1,
            table_shape(self@, usize::MAX as int),
        ensures
            r == table_address(self@, MAX_BLOCKS as int, p),
    {
        if p.block_num >= MAX_BLOCKS {
            return Err(HeapError::IllegalBlock(p.block_num, MAX_BLOCKS - 1));
        }
        let block = match self.get(p.block_num) {
            None => {
                return Err(HeapError::UnallocatedBlock(p.block_num));
            },
            Some(b) => b,
        };
        if p.offset >= block.size {
            return Err(HeapError::OffsetTooBig(p.offset, p.block_num, block.size));
        }
        if p.size != block.size {
            return Err(HeapError::MisalignedPointer(p.size, block.size, p.block_num));
        }
        Ok(block.start + p.offset)
    }

    /// The base pointer of a live block, or `None` when the slot is out of
    /// range or free.
    pub fn allocated_block_ptr(&self, block: usize) -> (r: Option<Pointer>)
        ensures
            r == if is_live(self@, block as int) {
                Some(Pointer { block_num: block, size: blk(self@, block as int).size, offset: 0 })
            } else {
                None::<Pointer>
            },
    {
        if block >= self.block_info.len() {
            return None;
        }
        match self.get(block) {
            None => None,
            Some(info) => Some(Pointer::new(block, info.size)),
        }
    }

    /// Clear every slot whose index the tracer did not mark used.
    pub fn retain_used(&mut self, used: &Vec<bool>)
        requires
            old(self)@.len() == MAX_BLOCKS,
            used@.len() == MAX_BLOCKS,
        ensures
            final(self)@.len() == MAX_BLOCKS,
            forall|j: int| 0 <= j < MAX_BLOCKS && used@[j] ==> final(self)@[j] == old(self)@[j],
            forall|j: int| 0 <= j < MAX_BLOCKS && !used@[j] ==> final(self)@[j] is None,
    {
        let mut i: usize = 0;
        while i < MAX_BLOCKS
            invariant
                i <= MAX_BLOCKS,
                self@.len() == MAX_BLOCKS,
                used@.len() == MAX_BLOCKS,
                forall|j: int| i <= j < MAX_BLOCKS ==> self@[j] == old(self)@[j],
                forall|j: int| 0 <= j < i && used@[j] ==> self@[j] == old(self)@[j],
                forall|j: int| 0 <= j < i && !used@[j] ==> self@[j] is None,
            decreases MAX_BLOCKS - i,
        {
            if !used[i] {
                self.set_entry(i, None);
            }
            i = i + 1;
        }
    }

    /// The live block indices, in ascending order.
    pub fn blocks_in_use(&self) -> (r: Vec<usize>)
        requires
            self@.len() == MAX_BLOCKS,
        ensures
            forall|k: int| 0 <= k < r@.len() ==> is_live(self@, #[trigger] r@[k] as int),
            forall|k1: int, k2: int| 0 <= k1 < k2 < r@.len() ==> r@[k1] < r@[k2],
            forall|i: int| is_live(self@, i) ==> r@.contains(i as usize),
    {
        let mut r: Vec<usize> = Vec::new();
        let mut i: usize = 0;
        while i < MAX_BLOCKS
            invariant
                self@.len() == MAX_BLOCKS,
                i <= MAX_BLOCKS,
                forall|k: int| 0 <= k < r@.len() ==> is_live(self@, #[trigger] r@[k] as int),
                forall|k: int| 0 <= k < r@.len() ==> r@[k] < i,
                forall|k1: int, k2: int| 0 <= k1 < k2 < r@.len() ==> r@[k1] < r@[k2],
                forall|j: int| 0 <= j < i && is_live(self@, j) ==> r@.contains(j as usize),
            decreases MAX_BLOCKS - i,
        {
            if self.get(i).is_some() {
                let ghost r_old = r@;
                r.push(i);
                proof {
                    assert forall|j: int| 0 <= j < i + 1 && is_live(self@, j) implies r@.contains(
                        j as usize,
                    ) by {
                        if j < i as int {
                            assert(r_old.contains(j as usize));
                            let k = choose|k: int| 0 <= k < r_old.len() && r_old[k] == j as usize;
                            assert(r@[k] == j as usize);
                        } else {
                            assert(r@[r@.len() - 1] == i);
                        }
                    }
                }
            }
            i = i + 1;
        }
        r
    }

    /// `(index, times copied)` for every live block, in ascending index
    /// order.
    pub fn blocks_num_copies(&self) -> (r: Vec<(usize, usize)>)
        requires
            self@.len() == MAX_BLOCKS,
        ensures
            forall|k: int|
                0 <= k < r@.len() ==> is_live(self@, #[trigger] r@[k].0 as int) && r@[k].1 == blk(
                    self@,
                    r@[k].0 as int,
                ).num_times_copied,
            forall|k1: int, k2: int| 0 <= k1 < k2 < r@.len() ==> r@[k1].0 < r@[k2].0,
            forall|i: int|
                is_live(self@, i) ==> r@.contains(
                    (i as usize, blk(self@, i).num_times_copied),
                ),
    {
        let mut r: Vec<(usize, usize)> = Vec::new();
        let mut i: usize = 0;
        while i < MAX_BLOCKS
            invariant
                self@.len() == MAX_BLOCKS,
                i <= MAX_BLOCKS,
                forall|k: int|
                    0 <= k < r@.len() ==> is_live(self@, #[trigger] r@[k].0 as int) && r@[k].1
                        == blk(self@, r@[k].0 as int).num_times_copied,
                forall|k: int| 0 <= k < r@.len() ==> r@[k].0 < i,
                forall|k1: int, k2: int| 0 <= k1 < k2 < r@.len() ==> r@[k1].0 < r@[k2].0,
                forall|j: int|
                    0 <= j < i && is_live(self@, j) ==> r@.contains(
                        (j as usize, blk(self@, j).num_times_copied),
                    ),
            decreases MAX_BLOCKS - i,
        {
            match self.get(i) {
                Some(info) => {
                    let ghost r_old = r@;
                    r.push((i, info.num_times_copied));
                    proof {
                        assert forall|j: int| 0 <= j < i + 1 && is_live(self@, j) implies r@.contains(
                            (j as usize, blk(self@, j).num_times_copied),
                        ) by {
                            if j < i as int {
                                assert(r_old.contains((j as usize, blk(self@, j).num_times_copied)));
                                let k = choose|k: int|
                                    0 <= k < r_old.len() && r_old[k] == (
                                        j as usize,
                                        blk(self@, j).num_times_copied,
                                    );
                                assert(r@[k] == (j as usize, blk(self@, j).num_times_copied));
                            } else {
                                assert(r@[r@.len() - 1] == (i, info.num_times_copied));
                            }
                        }
                    }
                },
                None => {},
            }
            i = i + 1;
        }
        r
    }
}

} // verus!

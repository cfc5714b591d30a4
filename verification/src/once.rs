//! `OnceAndDoneHeap`: one bump region and one block table, with no
//! collection at all. It exists to establish the allocator contract and the
//! baseline behavior of the block-table indirection.

use vstd::prelude::*;
use crate::model::any_block;
use crate::model::blk;
use crate::model::disjoint_where;
use crate::model::hosted_where;
use crate::model::is_first_free;
use crate::model::is_live;
use crate::model::lemma_install_block;
use crate::model::lemma_sum_zero;
use crate::model::live_size;
use crate::model::sum_live_sizes;
use crate::model::table_address;
use crate::model::table_full;
use crate::model::table_shape;
use crate::ram::RamHeap;
use crate::table::BlockTable;
use crate::types::BlockInfo;
use crate::types::HeapError;
use crate::types::Pointer;
use crate::types::Tracer;

verus! {

/// A heap that allocates but never reclaims: the tracer is ignored.
pub struct OnceAndDoneHeap<const HEAP_SIZE: usize, const MAX_BLOCKS: usize> {
    heap: RamHeap<HEAP_SIZE>,
    block_info: BlockTable<MAX_BLOCKS>,
}

impl<const HEAP_SIZE: usize, const MAX_BLOCKS: usize> OnceAndDoneHeap<HEAP_SIZE, MAX_BLOCKS> {
    /// The block table's entries.
    pub closed spec fn table(&self) -> Seq<Option<BlockInfo>> {
        self.block_info@
    }

    /// The single storage space.
    pub closed spec fn ram(&self) -> RamHeap<HEAP_SIZE> {
        self.heap
    }

    /// Well-formedness: every live block fits below the cursor, live blocks
    /// never overlap, and the live sizes add up exactly to the cursor.
    pub open spec fn wf(&self) -> bool {
        &&& MAX_BLOCKS >= 1
        &&& self.ram().wf()
        &&& self.table().len() == MAX_BLOCKS
        &&& table_shape(self.table(), HEAP_SIZE as int)
        &&& hosted_where(self.table(), any_block(), self.ram().next())
        &&& disjoint_where(self.table(), any_block())
        &&& sum_live_sizes(self.table(), MAX_BLOCKS as int) == self.ram().next()
    }

    /// What `address` returns.
    pub open spec fn spec_address(&self, p: Pointer) -> Result<usize, HeapError> {
        table_address(self.table(), MAX_BLOCKS as int, p)
    }

    /// What `load` returns.
    pub open spec fn spec_load(&self, p: Pointer) -> Result<u64, HeapError> {
        match self.spec_address(p) {
            Ok(a) => Ok(self.ram().mem()[a as int]),
            Err(e) => Err(e),
        }
    }

    pub fn new() -> (r: Self)
        requires
            MAX_BLOCKS >= 1,
        ensures
            r.wf(),
            r.ram().next() == 0,
            forall|i: int| 0 <= i < MAX_BLOCKS ==> r.table()[i] is None,
    {
        let heap = RamHeap::new();
        let block_info = BlockTable::new();
        let r = OnceAndDoneHeap { heap, block_info };
        proof {
            lemma_sum_zero(r.table(), live_size(), MAX_BLOCKS as int);
        }
        r
    }

    /// Resolve a pointer to its current word address (diagnostic).
    pub fn address(&self, p: Pointer) -> (r: Result<usize, HeapError>)
        requires
            self.wf(),
        ensures
            r == self.spec_address(p),
    {
        self.block_info.address(p)
    }

    /// Read the word a pointer names.
    pub fn load(&self, p: Pointer) -> (r: Result<u64, HeapError>)
        requires
            self.wf(),
        ensures
            r == self.spec_load(p),
    {
        let address = match self.block_info.address(p) {
            Err(e) => {
                return Err(e);
            },
            Ok(a) => a,
        };
        proof {
            let b = p.block_num as int;
            assert(is_live(self.table(), b));
            assert(blk(self.table(), b).start + blk(self.table(), b).size <= self.ram().next());
            assert(address < self.ram().next());
        }
        self.heap.load(address)
    }

    /// Write the word a pointer names.
    pub fn store(&mut self, p: Pointer, value: u64) -> (r: Result<(), HeapError>)
        requires
            old(self).wf(),
        ensures
            final(self).wf(),
            final(self).table() == old(self).table(),
            final(self).ram().next() == old(self).ram().next(),
            old(self).spec_address(p) matches Ok(a) ==> r is Ok && final(self).ram().mem() == old(self).ram().mem().update(a as int, value),
            old(self).spec_address(p) matches Err(e) ==> r == Err::<(), HeapError>(e) && *final(self) == *old(self),
    {
        let address = match self.block_info.address(p) {
            Err(e) => {
                return Err(e);
            },
            Ok(a) => a,
        };
        proof {
            let b = p.block_num as int;
            assert(is_live(old(self).table(), b));
            assert(blk(old(self).table(), b).start + blk(old(self).table(), b).size <= old(self).ram().next());
            assert(address < HEAP_SIZE);
        }
        self.heap.store(address, value)
    }

    /// The live block indices, ascending.
    pub fn blocks_in_use(&self) -> (r: Vec<usize>)
        requires
            self.wf(),
        ensures
            forall|k: int| 0 <= k < r@.len() ==> is_live(self.table(), #[trigger] r@[k] as int),
            forall|k1: int, k2: int| 0 <= k1 < k2 < r@.len() ==> r@[k1] < r@[k2],
            forall|i: int| is_live(self.table(), i) ==> r@.contains(i as usize),
    {
        self.block_info.blocks_in_use()
    }

    /// The base pointer of a live block.
    pub fn allocated_block_ptr(&self, block: usize) -> (r: Option<Pointer>)
        requires
            self.wf(),
        ensures
            r == if is_live(self.table(), block as int) {
                Some(
                    Pointer {
                        block_num: block,
                        size: blk(self.table(), block as int).size,
                        offset: 0,
                    },
                )
            } else {
                None::<Pointer>
            },
    {
        self.block_info.allocated_block_ptr(block)
    }

    /// `(index, times copied)` for every live block, ascending.
    pub fn blocks_num_copies(&self) -> (r: Vec<(usize, usize)>)
        requires
            self.wf(),
        ensures
            forall|k: int|
                0 <= k < r@.len() ==> is_live(self.table(), #[trigger] r@[k].0 as int) && r@[k].1
                    == blk(self.table(), r@[k].0 as int).num_times_copied,
            forall|k1: int, k2: int| 0 <= k1 < k2 < r@.len() ==> r@[k1].0 < r@[k2].0,
            forall|i: int|
                is_live(self.table(), i) ==> r@.contains(
                    (i as usize, blk(self.table(), i).num_times_copied),
                ),
    {
        self.block_info.blocks_num_copies()
    }

    /// Allocate `num_words` fresh words in a fresh block. The tracer is
    /// never consulted: this heap does not collect.
    pub fn malloc<T: Tracer>(&mut self, num_words: usize, _tracer: &T) -> (r: Result<
        Pointer,
        HeapError,
    >)
        requires
            old(self).wf(),
        ensures
            final(self).wf(),
            table_full(old(self).table()) ==> r == Err::<Pointer, HeapError>(HeapError::OutOfBlocks)
                && *final(self) == *old(self),
            !table_full(old(self).table()) && num_words == 0 ==> r == Err::<Pointer, HeapError>(
                HeapError::ZeroSizeRequest,
            ) && *final(self) == *old(self),
            !table_full(old(self).table()) && num_words >= 1 && old(self).ram().next() + num_words
                > HEAP_SIZE ==> r == Err::<Pointer, HeapError>(HeapError::OutOfMemory) && *final(self) == *old(self),
            !table_full(old(self).table()) && num_words >= 1 && old(self).ram().next() + num_words
                <= HEAP_SIZE ==> forall|b: int|
                is_first_free(old(self).table(), b) ==> {
                    &&& r == Ok::<Pointer, HeapError>(
                        Pointer { block_num: b as usize, size: num_words, offset: 0 },
                    )
                    &&& final(self).table() == old(self).table().update(
                        b,
                        Some(
                            BlockInfo {
                                start: old(self).ram().next() as usize,
                                size: num_words,
                                num_times_copied: 0,
                            },
                        ),
                    )
                    &&& final(self).ram().next() == old(self).ram().next() + num_words
                    &&& final(self).ram().mem() == old(self).ram().mem()
                },
    {
        match self.block_info.available_block() {
            Some(block_num) => {
                let start = match self.heap.malloc(num_words) {
                    Err(e) => {
                        return Err(e);
                    },
                    Ok(s) => s,
                };
                let info = BlockInfo { start, size: num_words, num_times_copied: 0 };
                self.block_info.set_entry(block_num, Some(info));
                proof {
                    lemma_install_block(
                        old(self).table(),
                        block_num as int,
                        info,
                        old(self).ram().next(),
                        HEAP_SIZE as int,
                    );
                }
                Ok(Pointer::new(block_num, num_words))
            },
            None => Err(HeapError::OutOfBlocks),
        }
    }

    /// A quiescence check. This heap has no inactive space, so there is
    /// nothing to assert.
    pub fn assert_no_strays(&self) {
    }
}

} // verus!

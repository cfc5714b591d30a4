//! `GenerationalHeap`: two generations of two semi-spaces each, one block
//! table, and a promotion threshold `MAX_COPIES`. A block resides in
//! generation 1 exactly when its copy count exceeds the threshold. Young
//! collections evacuate the rest of the survivors within generation 0 and
//! promote the blocks that reach the threshold into generation 1; when the
//! promotion target is full, the young collection cascades into one old
//! collection and retries.

use vstd::prelude::*;
use crate::evacuate::evacuate_used_at_least;
use crate::evacuate::lemma_evac_placement;
use crate::model::blk;
use crate::model::contrib_nonneg;
use crate::model::copies_headroom;
use crate::model::disjoint_blocks;
use crate::model::disjoint_where;
use crate::model::evac_entry;
use crate::model::evac_match;
use crate::model::hosted_where;
use crate::model::is_first_free;
use crate::model::is_live;
use crate::model::lemma_prefix_bound;
use crate::model::lemma_sum_add;
use crate::model::lemma_sum_mono;
use crate::model::lemma_sum_nonneg;
use crate::model::lemma_sum_pointwise_eq;
use crate::model::lemma_sum_pointwise_le;
use crate::model::lemma_sum_update;
use crate::model::lemma_sum_zero;
use crate::model::old_block;
use crate::model::pruned;
use crate::model::sum_contrib;
use crate::model::sum_tc_at_least;
use crate::model::sum_tc_between;
use crate::model::sum_used_min;
use crate::model::table_address;
use crate::model::table_full;
use crate::model::table_shape;
use crate::model::tc_at_least_size;
use crate::model::tc_between_size;
use crate::model::used_live;
use crate::model::used_min_copies_size;
use crate::model::young_block;
use crate::ram::block_words_match;
use crate::ram::RamHeap;
use crate::table::BlockTable;
use crate::types::BlockInfo;
use crate::types::HeapError;
use crate::types::Pointer;
use crate::types::Tracer;
use crate::util::independent_elements_from;

verus! {

/// A two-generation copying collector with promotion threshold `MAX_COPIES`.
pub struct GenerationalHeap<
    const HEAP_SIZE: usize,
    const MAX_BLOCKS: usize,
    const MAX_COPIES: usize,
> {
    gen_0_space_0: RamHeap<HEAP_SIZE>,
    gen_0_space_1: RamHeap<HEAP_SIZE>,
    gen_1_space_0: RamHeap<HEAP_SIZE>,
    gen_1_space_1: RamHeap<HEAP_SIZE>,
    block_info: BlockTable<MAX_BLOCKS>,
    active_gen_0: usize,
    active_gen_1: usize,
}

impl<const HEAP_SIZE: usize, const MAX_BLOCKS: usize, const MAX_COPIES: usize> GenerationalHeap<
    HEAP_SIZE,
    MAX_BLOCKS,
    MAX_COPIES,
> {
    /// The block table's entries.
    pub closed spec fn table(&self) -> Seq<Option<BlockInfo>> {
        self.block_info@
    }

    /// Which generation-0 semi-space receives allocations (0 or 1).
    pub closed spec fn active_g0(&self) -> int {
        self.active_gen_0 as int
    }

    /// Which generation-1 semi-space hosts the promoted blocks (0 or 1).
    pub closed spec fn active_g1(&self) -> int {
        self.active_gen_1 as int
    }

    pub closed spec fn gen0(&self, i: int) -> RamHeap<HEAP_SIZE> {
        if i == 0 {
            self.gen_0_space_0
        } else {
            self.gen_0_space_1
        }
    }

    pub closed spec fn gen1(&self, i: int) -> RamHeap<HEAP_SIZE> {
        if i == 0 {
            self.gen_1_space_0
        } else {
            self.gen_1_space_1
        }
    }

    pub open spec fn active_gen0_space(&self) -> RamHeap<HEAP_SIZE> {
        self.gen0(self.active_g0())
    }

    pub open spec fn inactive_gen0_space(&self) -> RamHeap<HEAP_SIZE> {
        self.gen0(1 - self.active_g0())
    }

    pub open spec fn active_gen1_space(&self) -> RamHeap<HEAP_SIZE> {
        self.gen1(self.active_g1())
    }

    pub open spec fn inactive_gen1_space(&self) -> RamHeap<HEAP_SIZE> {
        self.gen1(1 - self.active_g1())
    }

    /// The residency rule: a block lives in generation 1 exactly when its
    /// copy count exceeds the threshold.
    pub open spec fn is_old_resident(&self, b: int) -> bool {
        blk(self.table(), b).num_times_copied > MAX_COPIES
    }

    /// The memory of the space hosting block `b`.
    pub open spec fn hosting_mem(&self, b: int) -> Seq<u64> {
        if self.is_old_resident(b) {
            self.active_gen1_space().mem()
        } else {
            self.active_gen0_space().mem()
        }
    }

    /// Well-formedness between operations: each residency class is hosted in
    /// its generation's active space without overlap; the young sizes sum
    /// exactly to the generation-0 cursor; the old sizes fit below the
    /// generation-1 cursor; both inactive semi-spaces are empty.
    pub open spec fn wf(&self) -> bool {
        &&& MAX_BLOCKS >= 1
        &&& self.active_g0() == 0 || self.active_g0() == 1
        &&& self.active_g1() == 0 || self.active_g1() == 1
        &&& self.gen0(0).wf() && self.gen0(1).wf() && self.gen1(0).wf() && self.gen1(1).wf()
        &&& self.table().len() == MAX_BLOCKS
        &&& table_shape(self.table(), HEAP_SIZE as int)
        &&& hosted_where(self.table(), young_block(MAX_COPIES as int), self.active_gen0_space().next())
        &&& hosted_where(self.table(), old_block(MAX_COPIES as int), self.active_gen1_space().next())
        &&& disjoint_where(self.table(), young_block(MAX_COPIES as int))
        &&& disjoint_where(self.table(), old_block(MAX_COPIES as int))
        &&& sum_tc_between(self.table(), 0, MAX_COPIES + 1, MAX_BLOCKS as int)
            == self.active_gen0_space().next()
        &&& sum_tc_at_least(self.table(), MAX_COPIES + 1, MAX_BLOCKS as int)
            <= self.active_gen1_space().next()
        &&& self.inactive_gen0_space().next() == 0
        &&& self.inactive_gen1_space().next() == 0
    }

    /// What `address` returns.
    pub open spec fn spec_address(&self, p: Pointer) -> Result<usize, HeapError> {
        table_address(self.table(), MAX_BLOCKS as int, p)
    }

    /// What `load` returns: the word at the resolved address, read out of
    /// the space the residency rule selects.
    pub open spec fn spec_load(&self, p: Pointer) -> Result<u64, HeapError> {
        match self.spec_address(p) {
            Ok(a) => Ok(self.hosting_mem(p.block_num as int)[a as int]),
            Err(e) => Err(e),
        }
    }

    pub fn new() -> (r: Self)
        requires
            MAX_BLOCKS >= 1,
        ensures
            r.wf(),
            r.active_g0() == 0,
            r.active_g1() == 0,
            r.active_gen0_space().next() == 0,
            r.active_gen1_space().next() == 0,
            forall|i: int| 0 <= i < MAX_BLOCKS ==> r.table()[i] is None,
    {
        let r = GenerationalHeap {
            gen_0_space_0: RamHeap::new(),
            gen_0_space_1: RamHeap::new(),
            gen_1_space_0: RamHeap::new(),
            gen_1_space_1: RamHeap::new(),
            block_info: BlockTable::new(),
            active_gen_0: 0,
            active_gen_1: 0,
        };
        proof {
            lemma_sum_zero(r.table(), tc_between_size(0, MAX_COPIES + 1), MAX_BLOCKS as int);
            lemma_sum_zero(r.table(), tc_at_least_size(MAX_COPIES + 1), MAX_BLOCKS as int);
        }
        r
    }

    /// The active and inactive semi-space indices of both generations, as
    /// two validated independent pairs.
    pub fn active_inactive_gen_0_gen_1(&self) -> (r: (usize, usize, usize, usize))
        requires
            self.active_g0() == 0 || self.active_g0() == 1,
            self.active_g1() == 0 || self.active_g1() == 1,
        ensures
            r.0 as int == self.active_g0(),
            r.1 as int == 1 - self.active_g0(),
            r.2 as int == self.active_g1(),
            r.3 as int == 1 - self.active_g1(),
    {
        let g0 = independent_elements_from(self.active_gen_0, 1 - self.active_gen_0, 2);
        let g1 = independent_elements_from(self.active_gen_1, 1 - self.active_gen_1, 2);
        match (g0, g1) {
            (Some((a0, i0)), Some((a1, i1))) => (a0, i0, a1, i1),
            _ => {
                proof {
                    assert(false);
                }
                (0, 1, 0, 1)
            },
        }
    }

    /// Which semi-space index and generation host the given block.
    fn heap_and_gen_for(&self, block_num: usize) -> (r: Result<(usize, usize), HeapError>)
        requires
            self.wf(),
        ensures
            block_num >= MAX_BLOCKS ==> r == Err::<(usize, usize), HeapError>(
                HeapError::IllegalBlock(block_num, (MAX_BLOCKS - 1) as usize),
            ),
            block_num < MAX_BLOCKS && !is_live(self.table(), block_num as int) ==> r == Err::<
                (usize, usize),
                HeapError,
            >(HeapError::UnallocatedBlock(block_num)),
            block_num < MAX_BLOCKS && is_live(self.table(), block_num as int) ==> r == Ok::<
                (usize, usize),
                HeapError,
            >(
                if self.is_old_resident(block_num as int) {
                    (self.active_g1() as usize, 1usize)
                } else {
                    (self.active_g0() as usize, 0usize)
                },
            ),
    {
        if block_num >= MAX_BLOCKS {
            Err(HeapError::IllegalBlock(block_num, MAX_BLOCKS - 1))
        } else {
            match self.block_info.get(block_num) {
                Some(info) => Ok(
                    if info.num_times_copied > MAX_COPIES {
                        (self.active_gen_1, 1)
                    } else {
                        (self.active_gen_0, 0)
                    },
                ),
                None => Err(HeapError::UnallocatedBlock(block_num)),
            }
        }
    }

    /// Resolve a pointer to its current word address (diagnostic).
    pub fn address(&self, p: Pointer) -> (r: Result<usize, HeapError>)
        requires
            self.wf(),
        ensures
            r == self.spec_address(p),
    {
        self.block_info.address(p)
    }

    /// Read the word a pointer names, out of the space the residency rule
    /// selects.
    pub fn load(&self, p: Pointer) -> (r: Result<u64, HeapError>)
        requires
            self.wf(),
        ensures
            r == self.spec_load(p),
    {
        let (heap, gen) = match self.heap_and_gen_for(p.block_num) {
            Err(e) => {
                return Err(e);
            },
            Ok(hg) => hg,
        };
        let address = match self.block_info.address(p) {
            Err(e) => {
                return Err(e);
            },
            Ok(a) => a,
        };
        proof {
            let b = p.block_num as int;
            assert(is_live(self.table(), b));
            if self.is_old_resident(b) {
                assert(old_block(MAX_COPIES as int)(blk(self.table(), b)));
                assert(address < self.active_gen1_space().next());
            } else {
                assert(young_block(MAX_COPIES as int)(blk(self.table(), b)));
                assert(address < self.active_gen0_space().next());
            }
        }
        if gen == 0 {
            if heap == 0 {
                self.gen_0_space_0.load(address)
            } else {
                self.gen_0_space_1.load(address)
            }
        } else {
            if heap == 0 {
                self.gen_1_space_0.load(address)
            } else {
                self.gen_1_space_1.load(address)
            }
        }
    }

    /// Write the word a pointer names, into the space the residency rule
    /// selects.
    pub fn store(&mut self, p: Pointer, value: u64) -> (r: Result<(), HeapError>)
        requires
            old(self).wf(),
        ensures
            final(self).wf(),
            final(self).table() == old(self).table(),
            final(self).active_g0() == old(self).active_g0(),
            final(self).active_g1() == old(self).active_g1(),
            final(self).active_gen0_space().next() == old(self).active_gen0_space().next(),
            final(self).active_gen1_space().next() == old(self).active_gen1_space().next(),
            final(self).inactive_gen0_space() == old(self).inactive_gen0_space(),
            final(self).inactive_gen1_space() == old(self).inactive_gen1_space(),
            old(self).spec_address(p) matches Err(e) ==> r == Err::<(), HeapError>(e) && *final(self)
                == *old(self),
            old(self).spec_address(p) matches Ok(a) ==> r is Ok && {
                if old(self).is_old_resident(p.block_num as int) {
                    final(self).active_gen1_space().mem() == old(self).active_gen1_space().mem().update(a as int, value) && final(self).active_gen0_space() == old(self).active_gen0_space()
                } else {
                    final(self).active_gen0_space().mem() == old(self).active_gen0_space().mem().update(a as int, value) && final(self).active_gen1_space() == old(self).active_gen1_space()
                }
            },
    {
        let (heap, gen) = match self.heap_and_gen_for(p.block_num) {
            Err(e) => {
                return Err(e);
            },
            Ok(hg) => hg,
        };
        let address = match self.block_info.address(p) {
            Err(e) => {
                return Err(e);
            },
            Ok(a) => a,
        };
        proof {
            let b = p.block_num as int;
            assert(is_live(old(self).table(), b));
            if old(self).is_old_resident(b) {
                assert(old_block(MAX_COPIES as int)(blk(old(self).table(), b)));
            } else {
                assert(young_block(MAX_COPIES as int)(blk(old(self).table(), b)));
            }
            assert(address < HEAP_SIZE);
        }
        if gen == 0 {
            if heap == 0 {
                self.gen_0_space_0.store(address, value)
            } else {
                self.gen_0_space_1.store(address, value)
            }
        } else {
            if heap == 0 {
                self.gen_1_space_0.store(address, value)
            } else {
                self.gen_1_space_1.store(address, value)
            }
        }
    }

    /// The live block indices, ascending.
    pub fn blocks_in_use(&self) -> (r: Vec<usize>)
        requires
            self.wf(),
        ensures
            forall|k: int| 0 <= k < r@.len() ==> is_live(self.table(), #[trigger] r@[k] as int),
            forall|k1: int, k2: int| 0 <= k1 < k2 < r@.len() ==> r@[k1] < r@[k2],
            forall|i: int| is_live(self.table(), i) ==> r@.contains(i as usize),
    {
        self.block_info.blocks_in_use()
    }

    /// The base pointer of a live block.
    pub fn allocated_block_ptr(&self, block: usize) -> (r: Option<Pointer>)
        requires
            self.wf(),
        ensures
            r == if is_live(self.table(), block as int) {
                Some(
                    Pointer {
                        block_num: block,
                        size: blk(self.table(), block as int).size,
                        offset: 0,
                    },
                )
            } else {
                None::<Pointer>
            },
    {
        self.block_info.allocated_block_ptr(block)
    }

    /// `(index, times copied)` for every live block, ascending.
    pub fn blocks_num_copies(&self) -> (r: Vec<(usize, usize)>)
        requires
            self.wf(),
        ensures
            forall|k: int|
                0 <= k < r@.len() ==> is_live(self.table(), #[trigger] r@[k].0 as int) && r@[k].1
                    == blk(self.table(), r@[k].0 as int).num_times_copied,
            forall|k1: int, k2: int| 0 <= k1 < k2 < r@.len() ==> r@[k1].0 < r@[k2].0,
            forall|i: int|
                is_live(self.table(), i) ==> r@.contains(
                    (i as usize, blk(self.table(), i).num_times_copied),
                ),
    {
        self.block_info.blocks_num_copies()
    }

    /// The no-strays check: between operations both inactive semi-spaces
    /// are empty. That holds by proof, so there is nothing to test at run
    /// time.
    pub fn assert_no_strays(&self)
        requires
            self.wf(),
        ensures
            self.inactive_gen0_space().next() == 0,
            self.inactive_gen1_space().next() == 0,
    {
    }

    /// Old collection: evacuate every used block already promoted past the
    /// threshold from `src` into the empty space `dest`, compacting them in
    /// ascending index order, then clear `src`. The blocks always fit, so
    /// this never fails.
    pub fn collect_gen_1(
        blocks_used: &Vec<bool>,
        block_info: &mut BlockTable<MAX_BLOCKS>,
        src: &mut RamHeap<HEAP_SIZE>,
        dest: &mut RamHeap<HEAP_SIZE>,
    ) -> (r: Result<(), HeapError>)
        requires
            old(block_info)@.len() == MAX_BLOCKS,
            blocks_used@.len() == MAX_BLOCKS,
            old(src).wf(),
            old(dest).wf(),
            old(dest).next() == 0,
            MAX_COPIES < usize::MAX,
            table_shape(old(block_info)@, HEAP_SIZE as int),
            forall|i: int|
                evac_match(old(block_info)@, blocks_used@, MAX_COPIES + 1, i) ==> blk(
                    old(block_info)@,
                    i,
                ).num_times_copied < usize::MAX,
            forall|i: int|
                evac_match(old(block_info)@, blocks_used@, MAX_COPIES + 1, i) ==> blk(
                    old(block_info)@,
                    i,
                ).start + blk(old(block_info)@, i).size <= old(src).next(),
            sum_used_min(old(block_info)@, blocks_used@, MAX_COPIES + 1, MAX_BLOCKS as int)
                <= HEAP_SIZE,
        ensures
            r is Ok,
            final(block_info)@.len() == MAX_BLOCKS,
            forall|i: int|
                0 <= i < MAX_BLOCKS && evac_match(
                    old(block_info)@,
                    blocks_used@,
                    MAX_COPIES + 1,
                    i,
                ) ==> final(block_info)@[i] == Some(
                    evac_entry(old(block_info)@, blocks_used@, MAX_COPIES + 1, i),
                ),
            forall|i: int|
                0 <= i < MAX_BLOCKS && !evac_match(
                    old(block_info)@,
                    blocks_used@,
                    MAX_COPIES + 1,
                    i,
                ) ==> final(block_info)@[i] == old(block_info)@[i],
            final(src).next() == 0,
            final(src).mem() == old(src).mem(),
            final(src).wf(),
            final(dest).wf(),
            final(dest).next() == sum_used_min(
                old(block_info)@,
                blocks_used@,
                MAX_COPIES + 1,
                MAX_BLOCKS as int,
            ),
            forall|i: int|
                evac_match(old(block_info)@, blocks_used@, MAX_COPIES + 1, i)
                    ==> block_words_match(
                    final(dest).mem(),
                    sum_used_min(old(block_info)@, blocks_used@, MAX_COPIES + 1, i),
                    old(src).mem(),
                    blk(old(block_info)@, i).start as int,
                    blk(old(block_info)@, i).size as int,
                ),
    {
        evacuate_used_at_least(block_info, blocks_used, MAX_COPIES + 1, src, dest);
        src.clear();
        Ok(())
    }

    /// The survivor-evacuation phase of a young collection, run after dead
    /// entries have been pruned: walk the table in ascending order; evacuate
    /// young survivors into the empty space `dest0`; append blocks at the
    /// promotion threshold to the active generation-1 space `g1a`; on the
    /// first promotion that does not fit, run one old collection from `g1a`
    /// into the empty `g1i` and promote into `g1i` from then on. Returns
    /// whether that cascade happened. The caller's bound — all blocks at or
    /// past the threshold fit in one space — guarantees every copy after the
    /// cascade succeeds.
    #[verifier::loop_isolation(false)]
    #[verifier::rlimit(100)]
    fn evacuate_young(
        block_info: &mut BlockTable<MAX_BLOCKS>,
        used: &Vec<bool>,
        src0: &RamHeap<HEAP_SIZE>,
        dest0: &mut RamHeap<HEAP_SIZE>,
        g1a: &mut RamHeap<HEAP_SIZE>,
        g1i: &mut RamHeap<HEAP_SIZE>,
    ) -> (g1c: bool)
        requires
            old(block_info)@.len() == MAX_BLOCKS,
            used@.len() == MAX_BLOCKS,
            forall|i: int| is_live(old(block_info)@, i) ==> used@[i],
            table_shape(old(block_info)@, HEAP_SIZE as int),
            copies_headroom(old(block_info)@, 2),
            src0.wf(),
            old(dest0).wf(),
            old(dest0).next() == 0,
            old(g1a).wf(),
            old(g1i).wf(),
            old(g1i).next() == 0,
            hosted_where(old(block_info)@, young_block(MAX_COPIES as int), src0.next()),
            hosted_where(old(block_info)@, old_block(MAX_COPIES as int), old(g1a).next()),
            disjoint_where(old(block_info)@, old_block(MAX_COPIES as int)),
            sum_tc_between(old(block_info)@, 0, MAX_COPIES as int, MAX_BLOCKS as int)
                <= src0.next(),
            sum_tc_at_least(old(block_info)@, MAX_COPIES + 1, MAX_BLOCKS as int) <= old(g1a).next(),
            sum_tc_at_least(old(block_info)@, MAX_COPIES as int, MAX_BLOCKS as int) <= HEAP_SIZE,
        ensures
            final(block_info)@.len() == MAX_BLOCKS,
            forall|i: int|
                0 <= i < MAX_BLOCKS && !is_live(old(block_info)@, i) ==> final(block_info)@[i]
                    == old(block_info)@[i],
            forall|i: int|
                #[trigger] tc_lt(old(block_info)@, MAX_COPIES as int, i) ==> final(block_info)@[i]
                    == Some(young_evac_entry(old(block_info)@, MAX_COPIES as int, i))
                    && block_words_match(
                    final(dest0).mem(),
                    sum_tc_between(old(block_info)@, 0, MAX_COPIES as int, i),
                    src0.mem(),
                    blk(old(block_info)@, i).start as int,
                    blk(old(block_info)@, i).size as int,
                ),
            !g1c ==> forall|i: int|
                #[trigger] tc_eq(old(block_info)@, MAX_COPIES as int, i) ==> final(block_info)@[i]
                    == Some(
                    promote_entry(old(block_info)@, MAX_COPIES as int, old(g1a).next(), i),
                ) && block_words_match(
                    final(g1a).mem(),
                    old(g1a).next() + sum_tc_between(
                        old(block_info)@,
                        MAX_COPIES as int,
                        MAX_COPIES + 1,
                        i,
                    ),
                    src0.mem(),
                    blk(old(block_info)@, i).start as int,
                    blk(old(block_info)@, i).size as int,
                ),
            g1c ==> forall|i: int|
                #[trigger] tc_eq(old(block_info)@, MAX_COPIES as int, i) ==> moved_block(
                    final(block_info)@[i],
                    blk(old(block_info)@, i),
                    blk(old(block_info)@, i).num_times_copied + 1,
                    blk(old(block_info)@, i).num_times_copied + 2,
                    final(g1i).mem(),
                    src0.mem(),
                ),
            !g1c ==> forall|i: int|
                #[trigger] tc_gt(old(block_info)@, MAX_COPIES as int, i) ==> final(block_info)@[i]
                    == old(block_info)@[i],
            g1c ==> forall|i: int|
                #[trigger] tc_gt(old(block_info)@, MAX_COPIES as int, i) ==> moved_block(
                    final(block_info)@[i],
                    blk(old(block_info)@, i),
                    blk(old(block_info)@, i).num_times_copied + 1,
                    blk(old(block_info)@, i).num_times_copied + 1,
                    final(g1i).mem(),
                    old(g1a).mem(),
                ),
            final(dest0).wf(),
            final(dest0).next() == sum_tc_between(
                old(block_info)@,
                0,
                MAX_COPIES as int,
                MAX_BLOCKS as int,
            ),
            !g1c ==> *final(g1i) == *old(g1i) && final(g1a).wf() && final(g1a).next() == old(g1a).next() + sum_tc_between(
                old(block_info)@,
                MAX_COPIES as int,
                MAX_COPIES + 1,
                MAX_BLOCKS as int,
            ) && (forall|a: int|
                0 <= a < old(g1a).next() ==> final(g1a).mem()[a] == old(g1a).mem()[a]),
            g1c ==> final(g1a).next() == 0 && final(g1a).wf() && final(g1i).wf() && final(g1i).next() == sum_tc_at_least(old(block_info)@, MAX_COPIES + 1, MAX_BLOCKS as int)
                + sum_tc_between(
                old(block_info)@,
                MAX_COPIES as int,
                MAX_COPIES + 1,
                MAX_BLOCKS as int,
            ),
            hosted_where(
                final(block_info)@,
                old_block(MAX_COPIES as int),
                if g1c {
                    final(g1i).next()
                } else {
                    final(g1a).next()
                },
            ),
            disjoint_where(final(block_info)@, old_block(MAX_COPIES as int)),
            table_shape(final(block_info)@, HEAP_SIZE as int),
            sum_tc_at_least(final(block_info)@, MAX_COPIES + 1, MAX_BLOCKS as int)
                == sum_tc_at_least(old(block_info)@, MAX_COPIES + 1, MAX_BLOCKS as int)
                + sum_tc_between(
                old(block_info)@,
                MAX_COPIES as int,
                MAX_COPIES + 1,
                MAX_BLOCKS as int,
            ),
            hosted_where(final(block_info)@, young_block(MAX_COPIES as int), final(dest0).next()),
            disjoint_where(final(block_info)@, young_block(MAX_COPIES as int)),
            sum_tc_between(final(block_info)@, 0, MAX_COPIES + 1, MAX_BLOCKS as int) == final(dest0).next(),
    {
        let ghost t = old(block_info)@;
        let ghost u = used@;
        let ghost mc = MAX_COPIES as int;
        let ghost fy = tc_between_size(0, mc);
        let ghost fp = tc_between_size(mc, mc + 1);
        let ghost fo = tc_at_least_size(mc + 1);
        let ghost fall = tc_at_least_size(mc);
        let ghost mb = MAX_BLOCKS as int;
        proof {
            assert forall|i: int, e: Option<BlockInfo>| #[trigger] fy(i, e) >= 0 by {}
            assert forall|i: int, e: Option<BlockInfo>| #[trigger] fp(i, e) >= 0 by {}
            assert forall|i: int, e: Option<BlockInfo>| #[trigger] fo(i, e) >= 0 by {}
            assert(contrib_nonneg(fy) && contrib_nonneg(fp) && contrib_nonneg(fo));
            assert forall|i: int|
                0 <= i < mb implies fall(i, #[trigger] t[i]) == fp(i, t[i]) + fo(i, t[i]) by {}
            lemma_sum_add(t, fall, fp, fo, mb);
        }
        let mut gen_1_collected = false;
        let mut b: usize = 0;
        while b < MAX_BLOCKS
            invariant
                b <= MAX_BLOCKS,
                block_info@.len() == MAX_BLOCKS,
                forall|i: int| 0 <= i < mb && !is_live(t, i) ==> block_info@[i] == t[i],
                forall|i: int|
                    b <= i < mb && #[trigger] tc_lt(t, mc, i) ==> block_info@[i] == t[i],
                forall|i: int|
                    b <= i < mb && #[trigger] tc_eq(t, mc, i) ==> block_info@[i] == t[i],
                forall|i: int|
                    0 <= i < b && #[trigger] tc_lt(t, mc, i) ==> block_info@[i] == Some(
                        young_evac_entry(t, mc, i),
                    ) && block_words_match(
                        dest0.mem(),
                        sum_contrib(t, fy, i),
                        src0.mem(),
                        blk(t, i).start as int,
                        blk(t, i).size as int,
                    ),
                !gen_1_collected ==> forall|i: int|
                    0 <= i < b && #[trigger] tc_eq(t, mc, i) ==> block_info@[i] == Some(
                        promote_entry(t, mc, old(g1a).next(), i),
                    ) && block_words_match(
                        g1a.mem(),
                        old(g1a).next() + sum_contrib(t, fp, i),
                        src0.mem(),
                        blk(t, i).start as int,
                        blk(t, i).size as int,
                    ),
                gen_1_collected ==> forall|i: int|
                    0 <= i < b && #[trigger] tc_eq(t, mc, i) ==> moved_block(
                        block_info@[i],
                        blk(t, i),
                        blk(t, i).num_times_copied + 1,
                        blk(t, i).num_times_copied + 2,
                        g1i.mem(),
                        src0.mem(),
                    ),
                !gen_1_collected ==> forall|i: int|
                    0 <= i < mb && #[trigger] tc_gt(t, mc, i) ==> block_info@[i] == t[i],
                gen_1_collected ==> forall|i: int|
                    0 <= i < mb && #[trigger] tc_gt(t, mc, i) ==> moved_block(
                        block_info@[i],
                        blk(t, i),
                        blk(t, i).num_times_copied + 1,
                        blk(t, i).num_times_copied + 1,
                        g1i.mem(),
                        old(g1a).mem(),
                    ),
                dest0.wf(),
                dest0.next() == sum_contrib(t, fy, b as int),
                !gen_1_collected ==> *g1i == *old(g1i) && g1a.wf() && g1a.next() == old(g1a).next() + sum_contrib(t, fp, b as int) && (forall|a: int|
                    0 <= a < old(g1a).next() ==> g1a.mem()[a] == old(g1a).mem()[a]),
                gen_1_collected ==> g1a.next() == 0 && g1a.wf() && g1i.wf() && g1i.next()
                    == sum_contrib(t, fo, mb) + sum_contrib(t, fp, b as int),
                hosted_where(
                    block_info@,
                    old_block(mc),
                    if gen_1_collected {
                        g1i.next()
                    } else {
                        g1a.next()
                    },
                ),
                disjoint_where(block_info@, old_block(mc)),
                table_shape(block_info@, HEAP_SIZE as int),
                forall|i: int| is_live(block_info@, i) ==> is_live(t, i),
                sum_contrib(block_info@, fo, mb) == sum_contrib(t, fo, mb) + sum_contrib(
                    t,
                    fp,
                    b as int,
                ),
            decreases MAX_BLOCKS - b,
        {
            let ghost t_before = block_info@;
            let entry = block_info.get(b);
            match entry {
                None => {
                    proof {
                        if is_live(t, b as int) {
                            if blk(t, b as int).num_times_copied < mc {
                                assert(tc_lt(t, mc, b as int));
                            } else if blk(t, b as int).num_times_copied == mc {
                                assert(tc_eq(t, mc, b as int));
                            } else {
                                assert(tc_gt(t, mc, b as int));
                            }
                            assert(false);
                        }
                        assert(fy(b as int, t[b as int]) == 0);
                        assert(fp(b as int, t[b as int]) == 0);
                    }
                },
                Some(info) => {
                    if info.num_times_copied < MAX_COPIES {
                        // A young survivor: evacuate within generation 0.
                        proof {
                            assert(is_live(t, b as int));
                            if blk(t, b as int).num_times_copied == mc {
                                assert(tc_eq(t, mc, b as int));
                                assert(false);
                            } else if blk(t, b as int).num_times_copied > mc {
                                assert(tc_gt(t, mc, b as int));
                                assert(false);
                            }
                            assert(tc_lt(t, mc, b as int));
                            assert(info == blk(t, b as int));
                            assert(young_block(mc)(blk(t, b as int)));
                            assert(fy(b as int, t[b as int]) == info.size as int);
                            lemma_prefix_bound(t, fy, b as int, mb);
                        }
                        let ghost dest_before = *dest0;
                        let new_info = match src0.copy(&info, dest0) {
                            Ok(bi) => bi,
                            Err(_) => {
                                proof {
                                    assert(false);
                                }
                                info
                            },
                        };
                        block_info.set_entry(b, Some(new_info));
                        proof {
                            assert(new_info == young_evac_entry(t, mc, b as int));
                            lemma_sum_update(t_before, fo, mb, b as int, Some(new_info));
                            assert(fo(b as int, Some(new_info)) == 0);
                            assert(fo(b as int, t_before[b as int]) == 0);
                            assert forall|i: int|
                                0 <= i < b && #[trigger] tc_lt(t, mc, i) implies block_words_match(
                                dest0.mem(),
                                sum_contrib(t, fy, i),
                                src0.mem(),
                                blk(t, i).start as int,
                                blk(t, i).size as int,
                            ) by {
                                lemma_prefix_bound(t, fy, i, b as int);
                                assert(fy(i, t[i]) == blk(t, i).size as int);
                                assert forall|a: int|
                                    sum_contrib(t, fy, i) <= a < sum_contrib(t, fy, i) + blk(
                                        t,
                                        i,
                                    ).size implies #[trigger] dest0.mem()[a] == src0.mem()[blk(
                                    t,
                                    i,
                                ).start + (a - sum_contrib(t, fy, i))] by {
                                    assert(a < dest_before.next());
                                    assert(dest0.mem()[a] == dest_before.mem()[a]);
                                }
                            }
                            assert forall|i: int|
                                is_live(block_info@, i) implies is_live(t, i) && 1 <= (
                            #[trigger] blk(block_info@, i)).size && blk(block_info@, i).start
                                + blk(block_info@, i).size <= HEAP_SIZE by {
                                if i != b as int {
                                    assert(block_info@[i] == t_before[i]);
                                    assert(blk(block_info@, i) == blk(t_before, i));
                                    assert(is_live(t_before, i));
                                } else {
                                    assert(blk(block_info@, i) == new_info);
                                }
                            }
                            assert forall|i: int|
                                is_live(block_info@, i) && old_block(mc)(
                                    #[trigger] blk(block_info@, i),
                                ) implies blk(block_info@, i).start + blk(block_info@, i).size <= (
                            if gen_1_collected {
                                g1i.next()
                            } else {
                                g1a.next()
                            }) by {
                                if i == b as int {
                                    assert(blk(block_info@, i) == new_info);
                                } else {
                                    assert(block_info@[i] == t_before[i]);
                                    assert(blk(block_info@, i) == blk(t_before, i));
                                }
                            }
                            assert forall|i: int, j: int|
                                is_live(block_info@, i) && is_live(block_info@, j) && i != j
                                    && old_block(mc)(#[trigger] blk(block_info@, i)) && old_block(
                                    mc,
                                )(#[trigger] blk(block_info@, j)) implies disjoint_blocks(
                                blk(block_info@, i),
                                blk(block_info@, j),
                            ) by {
                                if i == b as int {
                                    assert(blk(block_info@, i) == new_info);
                                }
                                if j == b as int {
                                    assert(blk(block_info@, j) == new_info);
                                }
                                if i != b as int {
                                    assert(block_info@[i] == t_before[i]);
                                    assert(blk(block_info@, i) == blk(t_before, i));
                                }
                                if j != b as int {
                                    assert(block_info@[j] == t_before[j]);
                                    assert(blk(block_info@, j) == blk(t_before, j));
                                }
                            }
                        }
                    } else if info.num_times_copied == MAX_COPIES {
                        proof {
                            assert(is_live(t, b as int));
                            if blk(t, b as int).num_times_copied < mc {
                                assert(tc_lt(t, mc, b as int));
                                assert(false);
                            } else if blk(t, b as int).num_times_copied > mc {
                                assert(tc_gt(t, mc, b as int));
                                assert(false);
                            }
                            assert(tc_eq(t, mc, b as int));
                            assert(info == blk(t, b as int));
                            assert(fp(b as int, t[b as int]) == info.size as int);
                            lemma_prefix_bound(t, fp, b as int, mb);
                        }
                        if gen_1_collected {
                            // The cascade already ran: promote into the fresh
                            // generation-1 space.
                            proof {
                                lemma_sum_nonneg(t, fo, mb);
                                assert(g1i.next() + info.size <= HEAP_SIZE);
                            }
                            let ghost g1i_before = *g1i;
                            let new_info = match src0.copy(&info, g1i) {
                                Ok(bi) => bi,
                                Err(_) => {
                                    proof {
                                        assert(false);
                                    }
                                    info
                                },
                            };
                            block_info.set_entry(b, Some(new_info));
                            proof {
                                lemma_sum_update(t_before, fo, mb, b as int, Some(new_info));
                                assert(fo(b as int, Some(new_info)) == new_info.size as int);
                                assert(fo(b as int, t_before[b as int]) == 0);
                                assert forall|i: int|
                                    0 <= i < b && #[trigger] tc_eq(t, mc, i) implies moved_block(
                                    block_info@[i],
                                    blk(t, i),
                                    blk(t, i).num_times_copied + 1,
                                    blk(t, i).num_times_copied + 2,
                                    g1i.mem(),
                                    src0.mem(),
                                ) by {
                                    let bi = t_before[i].unwrap();
                                    assert(moved_block(
                                        t_before[i],
                                        blk(t, i),
                                        blk(t, i).num_times_copied + 1,
                                        blk(t, i).num_times_copied + 2,
                                        g1i_before.mem(),
                                        src0.mem(),
                                    ));
                                    assert(old_block(mc)(blk(t_before, i)));
                                    assert(bi.start + bi.size <= g1i_before.next());
                                    assert forall|a: int|
                                        bi.start <= a < bi.start + bi.size implies #[trigger] g1i.mem()[a]
                                        == src0.mem()[blk(t, i).start + (a - bi.start)] by {
                                        assert(g1i.mem()[a] == g1i_before.mem()[a]);
                                    }
                                }
                                assert forall|i: int|
                                    0 <= i < mb && #[trigger] tc_gt(t, mc, i) implies moved_block(
                                    block_info@[i],
                                    blk(t, i),
                                    blk(t, i).num_times_copied + 1,
                                    blk(t, i).num_times_copied + 1,
                                    g1i.mem(),
                                    old(g1a).mem(),
                                ) by {
                                    let bi = t_before[i].unwrap();
                                    assert(moved_block(
                                        t_before[i],
                                        blk(t, i),
                                        blk(t, i).num_times_copied + 1,
                                        blk(t, i).num_times_copied + 1,
                                        g1i_before.mem(),
                                        old(g1a).mem(),
                                    ));
                                    assert(old_block(mc)(blk(t_before, i)));
                                    assert(bi.start + bi.size <= g1i_before.next());
                                    assert forall|a: int|
                                        bi.start <= a < bi.start + bi.size implies #[trigger] g1i.mem()[a]
                                        == old(g1a).mem()[blk(t, i).start + (a - bi.start)] by {
                                        assert(g1i.mem()[a] == g1i_before.mem()[a]);
                                    }
                                }
                                assert forall|i: int, j: int|
                                    is_live(block_info@, i) && is_live(block_info@, j) && i != j
                                        && old_block(mc)(#[trigger] blk(block_info@, i))
                                        && old_block(mc)(#[trigger] blk(block_info@, j)) implies disjoint_blocks(
                                    blk(block_info@, i),
                                    blk(block_info@, j),
                                ) by {
                                    if i == b as int {
                                        assert(blk(t_before, j).start + blk(t_before, j).size
                                            <= g1i_before.next());
                                    } else if j == b as int {
                                        assert(blk(t_before, i).start + blk(t_before, i).size
                                            <= g1i_before.next());
                                    } else {
                                        assert(blk(block_info@, i) == blk(t_before, i));
                                        assert(blk(block_info@, j) == blk(t_before, j));
                                    }
                                }
                                assert forall|i: int|
                                    is_live(block_info@, i) implies is_live(t, i) && 1 <= (
                                #[trigger] blk(block_info@, i)).size && blk(block_info@, i).start
                                    + blk(block_info@, i).size <= HEAP_SIZE by {
                                    if i != b as int {
                                        assert(block_info@[i] == t_before[i]);
                                        assert(blk(block_info@, i) == blk(t_before, i));
                                        assert(is_live(t_before, i));
                                    } else {
                                        assert(blk(block_info@, i) == new_info);
                                    }
                                }
                                assert forall|i: int|
                                    is_live(block_info@, i) && old_block(mc)(
                                        #[trigger] blk(block_info@, i),
                                    ) implies blk(block_info@, i).start + blk(block_info@, i).size
                                    <= g1i.next() by {
                                    if i != b as int {
                                        assert(block_info@[i] == t_before[i]);
                                        assert(blk(block_info@, i) == blk(t_before, i));
                                        assert(blk(t_before, i).start + blk(t_before, i).size
                                            <= g1i_before.next());
                                    } else {
                                        assert(blk(block_info@, i) == new_info);
                                    }
                                }
                            }
                        } else {
                            // Try the active generation-1 space first.
                            let ghost g1a_before = *g1a;
                            match src0.copy(&info, g1a) {
                                Ok(new_info) => {
                                    block_info.set_entry(b, Some(new_info));
                                    proof {
                                        assert(new_info == promote_entry(
                                            t,
                                            mc,
                                            old(g1a).next(),
                                            b as int,
                                        ));
                                        lemma_sum_update(t_before, fo, mb, b as int, Some(new_info));
                                        assert(fo(b as int, Some(new_info)) == new_info.size as int);
                                        assert(fo(b as int, t_before[b as int]) == 0);
                                        assert forall|i: int|
                                            0 <= i < b && #[trigger] tc_eq(t, mc, i) implies block_info@[i]
                                            == Some(promote_entry(t, mc, old(g1a).next(), i))
                                            && block_words_match(
                                            g1a.mem(),
                                            old(g1a).next() + sum_contrib(t, fp, i),
                                            src0.mem(),
                                            blk(t, i).start as int,
                                            blk(t, i).size as int,
                                        ) by {
                                            lemma_prefix_bound(t, fp, i, b as int);
                                            assert(fp(i, t[i]) == blk(t, i).size as int);
                                            assert forall|a: int|
                                                old(g1a).next() + sum_contrib(t, fp, i) <= a < old(g1a).next() + sum_contrib(t, fp, i) + blk(
                                                    t,
                                                    i,
                                                ).size implies #[trigger] g1a.mem()[a]
                                                == src0.mem()[blk(t, i).start + (a - (old(g1a).next() + sum_contrib(t, fp, i)))] by {
                                                assert(a < g1a_before.next());
                                                assert(g1a.mem()[a] == g1a_before.mem()[a]);
                                            }
                                        }
                                        assert forall|i: int, j: int|
                                            is_live(block_info@, i) && is_live(block_info@, j) && i
                                                != j && old_block(mc)(#[trigger] blk(block_info@, i))
                                                && old_block(mc)(#[trigger] blk(block_info@, j)) implies disjoint_blocks(
                                            blk(block_info@, i),
                                            blk(block_info@, j),
                                        ) by {
                                            if i == b as int {
                                                assert(blk(t_before, j).start + blk(
                                                    t_before,
                                                    j,
                                                ).size <= g1a_before.next());
                                            } else if j == b as int {
                                                assert(blk(t_before, i).start + blk(
                                                    t_before,
                                                    i,
                                                ).size <= g1a_before.next());
                                            } else {
                                                assert(blk(block_info@, i) == blk(t_before, i));
                                                assert(blk(block_info@, j) == blk(t_before, j));
                                            }
                                        }
                                        assert forall|i: int|
                                            is_live(block_info@, i) implies is_live(t, i) && 1
                                            <= (#[trigger] blk(block_info@, i)).size && blk(
                                            block_info@,
                                            i,
                                        ).start + blk(block_info@, i).size <= HEAP_SIZE by {
                                            if i != b as int {
                                                assert(block_info@[i] == t_before[i]);
                                                assert(blk(block_info@, i) == blk(t_before, i));
                                                assert(is_live(t_before, i));
                                            } else {
                                                assert(blk(block_info@, i) == new_info);
                                            }
                                        }
                                        assert forall|i: int|
                                            is_live(block_info@, i) && old_block(mc)(
                                                #[trigger] blk(block_info@, i),
                                            ) implies blk(block_info@, i).start + blk(
                                            block_info@,
                                            i,
                                        ).size <= g1a.next() by {
                                            if i != b as int {
                                                assert(block_info@[i] == t_before[i]);
                                                assert(blk(block_info@, i) == blk(t_before, i));
                                                assert(blk(t_before, i).start + blk(
                                                    t_before,
                                                    i,
                                                ).size <= g1a_before.next());
                                            } else {
                                                assert(blk(block_info@, i) == new_info);
                                            }
                                        }
                                    }
                                },
                                Err(_) => {
                                    // The promotion target is full: collect
                                    // generation 1 once, then promote into
                                    // the fresh space.
                                    gen_1_collected = true;
                                    let ghost t_c = block_info@;
                                    let ghost g1a_c = *g1a;
                                    proof {
                                        assert(copies_headroom(t, 2));
                                        assert(blk(t, b as int).num_times_copied + 2
                                            <= usize::MAX);
                                        assert(MAX_COPIES < usize::MAX);
                                        assert forall|i: int|
                                            evac_match(t_c, u, MAX_COPIES + 1, i) implies blk(
                                            t_c,
                                            i,
                                        ).num_times_copied < usize::MAX && blk(t_c, i).start + blk(
                                            t_c,
                                            i,
                                        ).size <= g1a.next() by {
                                            assert(is_live(t, i));
                                            assert(old_block(mc)(blk(t_c, i)));
                                            if tc_gt(t, mc, i) {
                                                assert(t_c[i] == t[i]);
                                            } else if tc_lt(t, mc, i) {
                                                if i < b as int {
                                                    assert(t_c[i] == Some(
                                                        young_evac_entry(t, mc, i),
                                                    ));
                                                    assert(false);
                                                } else {
                                                    assert(t_c[i] == t[i]);
                                                    assert(false);
                                                }
                                            } else {
                                                assert(tc_eq(t, mc, i));
                                                if i < b as int {
                                                    assert(t_c[i] == Some(
                                                        promote_entry(t, mc, old(g1a).next(), i),
                                                    ));
                                                } else {
                                                    assert(t_c[i] == t[i]);
                                                    assert(false);
                                                }
                                            }
                                        }
                                        assert forall|i: int|
                                            0 <= i < mb implies used_min_copies_size(
                                            u,
                                            MAX_COPIES + 1,
                                        )(i, #[trigger] t_c[i]) == fo(i, t_c[i]) by {
                                            if t_c[i] is Some {
                                                assert(is_live(t_c, i));
                                                assert(is_live(t, i));
                                                assert(u[i]);
                                            }
                                        }
                                        lemma_sum_pointwise_eq(
                                            t_c,
                                            used_min_copies_size(u, MAX_COPIES + 1),
                                            t_c,
                                            fo,
                                            mb,
                                        );
                                        lemma_sum_mono(t, fp, b as int, mb);
                                        lemma_sum_nonneg(t, fp, b as int);
                                    }
                                    let r1 = Self::collect_gen_1(used, block_info, g1a, g1i);
                                    match r1 {
                                        Ok(()) => {},
                                        Err(_) => {
                                            proof {
                                                assert(false);
                                            }
                                        },
                                    }
                                    proof {
                                        let t_d = block_info@;
                                        // Translate the old collection's outcome
                                        // back to the table as it stood before the cascade.
                                        assert forall|i: int|
                                            0 <= i < b && #[trigger] tc_eq(t, mc, i) implies moved_block(
                                            t_d[i],
                                            blk(t, i),
                                            blk(t, i).num_times_copied + 1,
                                            blk(t, i).num_times_copied + 2,
                                            g1i.mem(),
                                            src0.mem(),
                                        ) && blk(t_d, i).start + blk(t_d, i).size <= g1i.next() by {
                                            assert(t_c[i] == Some(
                                                promote_entry(t, mc, old(g1a).next(), i),
                                            ));
                                            assert(evac_match(t_c, u, MAX_COPIES + 1, i));
                                            assert(t_d[i] == Some(
                                                evac_entry(t_c, u, MAX_COPIES + 1, i),
                                            ));
                                            lemma_evac_placement(t_c, u, MAX_COPIES + 1, i, mb);
                                            let nstart = sum_used_min(t_c, u, MAX_COPIES + 1, i);
                                            let mid = blk(t_c, i);
                                            lemma_sum_nonneg(t, fp, i);
                                            lemma_sum_mono(t, fp, i, b as int);
                                            assert(g1a_c.next() == old(g1a).next() + sum_contrib(
                                                t,
                                                fp,
                                                b as int,
                                            ));
                                            assert(0 <= old(g1a).next() + sum_contrib(t, fp, i)
                                                <= g1a_c.next());
                                            assert(mid.start == old(g1a).next() + sum_contrib(
                                                t,
                                                fp,
                                                i,
                                            ));
                                            assert(block_words_match(
                                                g1i.mem(),
                                                nstart,
                                                g1a_c.mem(),
                                                mid.start as int,
                                                mid.size as int,
                                            ));
                                            assert(block_words_match(
                                                g1a_c.mem(),
                                                old(g1a).next() + sum_contrib(t, fp, i),
                                                src0.mem(),
                                                blk(t, i).start as int,
                                                blk(t, i).size as int,
                                            ));
                                            assert forall|a: int|
                                                nstart <= a < nstart + blk(
                                                    t,
                                                    i,
                                                ).size implies #[trigger] g1i.mem()[a]
                                                == src0.mem()[blk(t, i).start + (a - nstart)] by {
                                                assert(g1i.mem()[a] == g1a_c.mem()[mid.start + (a
                                                    - nstart)]);
                                                assert(g1a_c.mem()[mid.start + (a - nstart)]
                                                    == src0.mem()[blk(t, i).start + ((mid.start + (
                                                a - nstart)) - mid.start)]);
                                            }
                                        }
                                        assert forall|i: int|
                                            0 <= i < mb && #[trigger] tc_gt(t, mc, i) implies moved_block(
                                            t_d[i],
                                            blk(t, i),
                                            blk(t, i).num_times_copied + 1,
                                            blk(t, i).num_times_copied + 1,
                                            g1i.mem(),
                                            old(g1a).mem(),
                                        ) && blk(t_d, i).start + blk(t_d, i).size <= g1i.next() by {
                                            assert(t_c[i] == t[i]);
                                            assert(old_block(mc)(blk(t, i)));
                                            assert(evac_match(t_c, u, MAX_COPIES + 1, i));
                                            assert(t_d[i] == Some(
                                                evac_entry(t_c, u, MAX_COPIES + 1, i),
                                            ));
                                            lemma_evac_placement(t_c, u, MAX_COPIES + 1, i, mb);
                                            let nstart = sum_used_min(t_c, u, MAX_COPIES + 1, i);
                                            let mid = blk(t_c, i);
                                            assert(mid.start + mid.size <= old(g1a).next());
                                            assert(block_words_match(
                                                g1i.mem(),
                                                nstart,
                                                g1a_c.mem(),
                                                mid.start as int,
                                                mid.size as int,
                                            ));
                                            assert forall|a: int|
                                                nstart <= a < nstart + blk(
                                                    t,
                                                    i,
                                                ).size implies #[trigger] g1i.mem()[a] == old(g1a).mem()[blk(t, i).start + (a - nstart)] by {
                                                assert(g1i.mem()[a] == g1a_c.mem()[mid.start + (a
                                                    - nstart)]);
                                                assert(0 <= mid.start + (a - nstart) < old(g1a).next());
                                                assert(g1a_c.mem()[mid.start + (a - nstart)]
                                                    == old(g1a).mem()[mid.start + (a - nstart)]);
                                            }
                                        }
                                        assert forall|i: int|
                                            0 <= i < b && #[trigger] tc_lt(t, mc, i) implies t_d[i]
                                            == Some(young_evac_entry(t, mc, i)) by {
                                            assert(t_c[i] == Some(young_evac_entry(t, mc, i)));
                                            assert(!evac_match(t_c, u, MAX_COPIES + 1, i));
                                        }
                                        assert forall|i: int|
                                            b <= i < mb && (#[trigger] tc_lt(t, mc, i) || tc_eq(
                                                t,
                                                mc,
                                                i,
                                            )) implies t_d[i] == t[i] by {
                                            assert(t_c[i] == t[i]);
                                            assert(!evac_match(t_c, u, MAX_COPIES + 1, i));
                                        }
                                        assert forall|i: int|
                                            0 <= i < mb && !is_live(t, i) implies t_d[i] == t[i] by {
                                            assert(t_c[i] == t[i]);
                                            assert(!evac_match(t_c, u, MAX_COPIES + 1, i));
                                        }
                                        // The fresh space holds exactly the old
                                        // residents plus the already-promoted.
                                        assert(g1i.next() == sum_used_min(
                                            t_c,
                                            u,
                                            MAX_COPIES + 1,
                                            mb,
                                        ));
                                        assert(g1i.next() == sum_contrib(t, fo, mb) + sum_contrib(
                                            t,
                                            fp,
                                            b as int,
                                        ));
                                        // The table-wide old-class sum is unchanged.
                                        assert forall|i: int|
                                            0 <= i < mb implies fo(i, #[trigger] t_d[i]) == fo(
                                            i,
                                            t_c[i],
                                        ) by {
                                            if evac_match(t_c, u, MAX_COPIES + 1, i) {
                                                assert(t_d[i] == Some(
                                                    evac_entry(t_c, u, MAX_COPIES + 1, i),
                                                ));
                                            }
                                        }
                                        lemma_sum_pointwise_eq(t_d, fo, t_c, fo, mb);
                                        // Geometry of the compacted space.
                                        assert forall|i: int, j: int|
                                            is_live(t_d, i) && is_live(t_d, j) && i != j
                                                && old_block(mc)(#[trigger] blk(t_d, i))
                                                && old_block(mc)(#[trigger] blk(t_d, j)) implies disjoint_blocks(
                                            blk(t_d, i),
                                            blk(t_d, j),
                                        ) by {
                                            if !evac_match(t_c, u, MAX_COPIES + 1, i) {
                                                assert(t_d[i] == t_c[i]);
                                                assert(is_live(t_c, i));
                                                assert(is_live(t, i));
                                                assert(u[i]);
                                                assert(blk(t_d, i) == blk(t_c, i));
                                                assert(false);
                                            }
                                            if !evac_match(t_c, u, MAX_COPIES + 1, j) {
                                                assert(t_d[j] == t_c[j]);
                                                assert(is_live(t_c, j));
                                                assert(is_live(t, j));
                                                assert(u[j]);
                                                assert(blk(t_d, j) == blk(t_c, j));
                                                assert(false);
                                            }
                                            assert(t_d[i] == Some(
                                                evac_entry(t_c, u, MAX_COPIES + 1, i),
                                            ));
                                            assert(t_d[j] == Some(
                                                evac_entry(t_c, u, MAX_COPIES + 1, j),
                                            ));
                                            lemma_evac_placement(t_c, u, MAX_COPIES + 1, i, mb);
                                            lemma_evac_placement(t_c, u, MAX_COPIES + 1, j, mb);
                                            if i < j {
                                                lemma_evac_placement(t_c, u, MAX_COPIES + 1, i, j);
                                            } else {
                                                lemma_evac_placement(t_c, u, MAX_COPIES + 1, j, i);
                                            }
                                        }
                                        assert forall|i: int|
                                            is_live(t_d, i) implies is_live(t, i) && 1 <= (
                                            #[trigger] blk(t_d, i)).size && blk(t_d, i).start
                                            + blk(t_d, i).size <= HEAP_SIZE by {
                                            assert(is_live(t_c, i));
                                            if evac_match(t_c, u, MAX_COPIES + 1, i) {
                                                lemma_evac_placement(
                                                    t_c,
                                                    u,
                                                    MAX_COPIES + 1,
                                                    i,
                                                    mb,
                                                );
                                            }
                                        }
                                    }
                                    // Promote the block that triggered the
                                    // cascade into the fresh space.
                                    let ghost t_mid = block_info@;
                                    let ghost g1i_before = *g1i;
                                    proof {
                                        lemma_sum_nonneg(t, fo, mb);
                                        assert(g1i.next() + info.size <= HEAP_SIZE);
                                        assert forall|i: int|
                                            is_live(t_mid, i) && old_block(mc)(
                                                #[trigger] blk(t_mid, i),
                                            ) implies blk(t_mid, i).start + blk(t_mid, i).size
                                            <= g1i_before.next() by {
                                            assert(is_live(t, i));
                                            if blk(t, i).num_times_copied < mc {
                                                assert(tc_lt(t, mc, i));
                                                assert(t_mid[i] == Some(
                                                    young_evac_entry(t, mc, i),
                                                ));
                                            } else if blk(t, i).num_times_copied == mc {
                                                assert(tc_eq(t, mc, i));
                                                if i >= b as int {
                                                    assert(t_mid[i] == t[i]);
                                                }
                                            } else {
                                                assert(tc_gt(t, mc, i));
                                            }
                                        }
                                    }
                                    let new_info = match src0.copy(&info, g1i) {
                                        Ok(bi) => bi,
                                        Err(_) => {
                                            proof {
                                                assert(false);
                                            }
                                            info
                                        },
                                    };
                                    block_info.set_entry(b, Some(new_info));
                                    proof {
                                        lemma_sum_update(t_mid, fo, mb, b as int, Some(new_info));
                                        assert(fo(b as int, Some(new_info)) == new_info.size as int);
                                        assert(fo(b as int, t_mid[b as int]) == 0);
                                        assert forall|i: int|
                                            0 <= i < b && #[trigger] tc_eq(t, mc, i) implies moved_block(
                                            block_info@[i],
                                            blk(t, i),
                                            blk(t, i).num_times_copied + 1,
                                            blk(t, i).num_times_copied + 2,
                                            g1i.mem(),
                                            src0.mem(),
                                        ) by {
                                            let bi = t_mid[i].unwrap();
                                            assert(moved_block(
                                                t_mid[i],
                                                blk(t, i),
                                                blk(t, i).num_times_copied + 1,
                                                blk(t, i).num_times_copied + 2,
                                                g1i_before.mem(),
                                                src0.mem(),
                                            ));
                                            assert(bi.start + bi.size <= g1i_before.next());
                                            assert forall|a: int|
                                                bi.start <= a < bi.start + bi.size implies #[trigger] g1i.mem()[a]
                                                == src0.mem()[blk(t, i).start + (a - bi.start)] by {
                                                assert(g1i.mem()[a] == g1i_before.mem()[a]);
                                            }
                                        }
                                        assert forall|i: int|
                                            0 <= i < mb && #[trigger] tc_gt(t, mc, i) implies moved_block(
                                            block_info@[i],
                                            blk(t, i),
                                            blk(t, i).num_times_copied + 1,
                                            blk(t, i).num_times_copied + 1,
                                            g1i.mem(),
                                            old(g1a).mem(),
                                        ) by {
                                            let bi = t_mid[i].unwrap();
                                            assert(moved_block(
                                                t_mid[i],
                                                blk(t, i),
                                                blk(t, i).num_times_copied + 1,
                                                blk(t, i).num_times_copied + 1,
                                                g1i_before.mem(),
                                                old(g1a).mem(),
                                            ));
                                            assert(bi.start + bi.size <= g1i_before.next());
                                            assert forall|a: int|
                                                bi.start <= a < bi.start + bi.size implies #[trigger] g1i.mem()[a]
                                                == old(g1a).mem()[blk(t, i).start + (a - bi.start)] by {
                                                assert(g1i.mem()[a] == g1i_before.mem()[a]);
                                            }
                                        }
                                        assert forall|i: int, j: int|
                                            is_live(block_info@, i) && is_live(block_info@, j) && i
                                                != j && old_block(mc)(#[trigger] blk(block_info@, i))
                                                && old_block(mc)(#[trigger] blk(block_info@, j)) implies disjoint_blocks(
                                            blk(block_info@, i),
                                            blk(block_info@, j),
                                        ) by {
                                            if i == b as int {
                                                assert(blk(block_info@, j) == blk(t_mid, j));
                                                assert(is_live(t_mid, j));
                                                assert(blk(t_mid, j).start + blk(t_mid, j).size
                                                    <= g1i_before.next());
                                            } else if j == b as int {
                                                assert(blk(block_info@, i) == blk(t_mid, i));
                                                assert(is_live(t_mid, i));
                                                assert(blk(t_mid, i).start + blk(t_mid, i).size
                                                    <= g1i_before.next());
                                            } else {
                                                assert(blk(block_info@, i) == blk(t_mid, i));
                                                assert(blk(block_info@, j) == blk(t_mid, j));
                                            }
                                        }
                                        assert forall|i: int|
                                            is_live(block_info@, i) implies is_live(t, i) && 1
                                            <= (#[trigger] blk(block_info@, i)).size && blk(
                                            block_info@,
                                            i,
                                        ).start + blk(block_info@, i).size <= HEAP_SIZE by {
                                            if i != b as int {
                                                assert(block_info@[i] == t_mid[i]);
                                                assert(blk(block_info@, i) == blk(t_mid, i));
                                                assert(is_live(t_mid, i));
                                            } else {
                                                assert(blk(block_info@, i) == new_info);
                                            }
                                        }
                                        assert forall|i: int|
                                            is_live(block_info@, i) && old_block(mc)(
                                                #[trigger] blk(block_info@, i),
                                            ) implies blk(block_info@, i).start + blk(
                                            block_info@,
                                            i,
                                        ).size <= g1i.next() by {
                                            if i != b as int {
                                                assert(block_info@[i] == t_mid[i]);
                                                assert(blk(block_info@, i) == blk(t_mid, i));
                                                assert(is_live(t, i));
                                                if blk(t, i).num_times_copied < mc {
                                                    assert(tc_lt(t, mc, i));
                                                } else if blk(t, i).num_times_copied == mc {
                                                    assert(tc_eq(t, mc, i));
                                                    if i >= b as int {
                                                        assert(t_mid[i] == t[i]);
                                                    } else {
                                                        assert(blk(t_mid, i).start + blk(
                                                            t_mid,
                                                            i,
                                                        ).size <= g1i_before.next());
                                                    }
                                                } else {
                                                    assert(tc_gt(t, mc, i));
                                                    assert(blk(t_mid, i).start + blk(
                                                        t_mid,
                                                        i,
                                                    ).size <= g1i_before.next());
                                                }
                                            } else {
                                                assert(blk(block_info@, i) == new_info);
                                            }
                                        }
                                    }
                                },
                            }
                        }
                    } else {
                        // Already a generation-1 resident: a young collection
                        // leaves it where it is.
                        proof {
                            if is_live(t, b as int) {
                                if blk(t, b as int).num_times_copied < mc {
                                    assert(tc_lt(t, mc, b as int));
                                    assert(block_info@[b as int] == t[b as int]);
                                    assert(false);
                                } else if blk(t, b as int).num_times_copied == mc {
                                    assert(tc_eq(t, mc, b as int));
                                    assert(block_info@[b as int] == t[b as int]);
                                    assert(false);
                                } else {
                                    assert(tc_gt(t, mc, b as int));
                                }
                            } else {
                                assert(block_info@[b as int] == t[b as int]);
                                assert(false);
                            }
                            assert(fy(b as int, t[b as int]) == 0);
                            assert(fp(b as int, t[b as int]) == 0);
                        }
                    }
                },
            }
            b = b + 1;
        }
        proof {
            let tf = block_info@;
            assert forall|i: int|
                is_live(tf, i) && young_block(mc)(#[trigger] blk(tf, i)) implies tc_lt(t, mc, i)
                && tf[i] == Some(young_evac_entry(t, mc, i)) by {
                assert(is_live(t, i));
                if tc_lt(t, mc, i) {
                } else if tc_eq(t, mc, i) {
                    if gen_1_collected {
                        assert(moved_block(
                            tf[i],
                            blk(t, i),
                            blk(t, i).num_times_copied + 1,
                            blk(t, i).num_times_copied + 2,
                            g1i.mem(),
                            src0.mem(),
                        ));
                        assert(false);
                    } else {
                        assert(tf[i] == Some(promote_entry(t, mc, old(g1a).next(), i)));
                        assert(false);
                    }
                } else {
                    assert(tc_gt(t, mc, i));
                    if gen_1_collected {
                        assert(moved_block(
                            tf[i],
                            blk(t, i),
                            blk(t, i).num_times_copied + 1,
                            blk(t, i).num_times_copied + 1,
                            g1i.mem(),
                            old(g1a).mem(),
                        ));
                        assert(false);
                    } else {
                        assert(tf[i] == t[i]);
                        assert(false);
                    }
                }
            }
            assert forall|i: int|
                is_live(tf, i) && young_block(mc)(#[trigger] blk(tf, i)) implies blk(tf, i).start
                + blk(tf, i).size <= dest0.next() by {
                lemma_prefix_bound(t, fy, i, mb);
                assert(fy(i, t[i]) == blk(t, i).size as int);
            }
            assert forall|i: int, j: int|
                is_live(tf, i) && is_live(tf, j) && i != j && young_block(mc)(
                    #[trigger] blk(tf, i),
                ) && young_block(mc)(#[trigger] blk(tf, j)) implies disjoint_blocks(
                blk(tf, i),
                blk(tf, j),
            ) by {
                assert(tc_lt(t, mc, i) && tf[i] == Some(young_evac_entry(t, mc, i)));
                assert(tc_lt(t, mc, j) && tf[j] == Some(young_evac_entry(t, mc, j)));
                assert(fy(i, t[i]) == blk(t, i).size as int);
                assert(fy(j, t[j]) == blk(t, j).size as int);
                lemma_prefix_bound(t, fy, i, mb);
                lemma_prefix_bound(t, fy, j, mb);
                if i < j {
                    lemma_prefix_bound(t, fy, i, j);
                } else {
                    lemma_prefix_bound(t, fy, j, i);
                }
            }
            assert forall|i: int|
                0 <= i < mb implies tc_between_size(0, mc + 1)(i, #[trigger] tf[i]) == fy(
                i,
                t[i],
            ) by {
                if is_live(t, i) {
                    if tc_lt(t, mc, i) {
                        assert(tf[i] == Some(young_evac_entry(t, mc, i)));
                    } else if tc_eq(t, mc, i) {
                        if gen_1_collected {
                            assert(moved_block(
                                tf[i],
                                blk(t, i),
                                blk(t, i).num_times_copied + 1,
                                blk(t, i).num_times_copied + 2,
                                g1i.mem(),
                                src0.mem(),
                            ));
                        } else {
                            assert(tf[i] == Some(promote_entry(t, mc, old(g1a).next(), i)));
                        }
                    } else {
                        assert(tc_gt(t, mc, i));
                        if gen_1_collected {
                            assert(moved_block(
                                tf[i],
                                blk(t, i),
                                blk(t, i).num_times_copied + 1,
                                blk(t, i).num_times_copied + 1,
                                g1i.mem(),
                                old(g1a).mem(),
                            ));
                        } else {
                            assert(tf[i] == t[i]);
                        }
                    }
                } else {
                    assert(tf[i] == t[i]);
                }
            }
            lemma_sum_pointwise_eq(tf, tc_between_size(0, mc + 1), t, fy, mb);
        }
        gen_1_collected
    }

    /// Does the total size of the used blocks at or past the promotion
    /// threshold exceed one space's capacity? If so, a young collection
    /// cannot succeed.
    #[verifier::loop_isolation(false)]
    fn promotable_exceeds(&self, used: &Vec<bool>) -> (r: bool)
        requires
            self.table().len() == MAX_BLOCKS,
            used@.len() == MAX_BLOCKS,
        ensures
            r == (sum_used_min(self.table(), used@, MAX_COPIES as int, MAX_BLOCKS as int)
                > HEAP_SIZE),
    {
        let ghost f = used_min_copies_size(used@, MAX_COPIES as int);
        proof {
            assert forall|i: int, e: Option<BlockInfo>| #[trigger] f(i, e) >= 0 by {}
            assert(contrib_nonneg(f));
        }
        let mut total: usize = 0;
        let mut i: usize = 0;
        while i < MAX_BLOCKS
            invariant
                i <= MAX_BLOCKS,
                total == sum_contrib(self.table(), f, i as int),
                total <= HEAP_SIZE,
            decreases MAX_BLOCKS - i,
        {
            let mut here: usize = 0;
            if used[i] {
                match self.block_info.get(i) {
                    Some(info) => {
                        if info.num_times_copied >= MAX_COPIES {
                            here = info.size;
                        }
                    },
                    None => {},
                }
            }
            proof {
                assert(f(i as int, self.table()[i as int]) == here as int);
            }
            if here > HEAP_SIZE - total {
                proof {
                    lemma_sum_mono(self.table(), f, i as int + 1, MAX_BLOCKS as int);
                }
                return true;
            }
            total = total + here;
            i = i + 1;
        }
        false
    }

    /// How a young collection with liveness report `used` transforms the
    /// heap, stated over the pruned table (the entries the tracer kept).
    /// The generation-0 roles swap; young survivors are compacted into the
    /// new active generation-0 space with their copy counts bumped; blocks
    /// at the threshold are promoted into generation 1 (appended when no
    /// cascade was needed, else placed in the freshly collected space with
    /// possibly one extra copy); older residents stay put unless the
    /// cascade relocated them; all contents are preserved.
    pub open spec fn collect0_rel(pre: Self, post: Self, u: Seq<bool>) -> bool {
        let tp = pruned(pre.table(), u);
        let mc = MAX_COPIES as int;
        let mb = MAX_BLOCKS as int;
        let g1c = post.active_g1() != pre.active_g1();
        &&& post.active_g0() == 1 - pre.active_g0()
        &&& post.table().len() == mb
        &&& forall|i: int| 0 <= i < mb && !used_live(pre.table(), u, i) ==> post.table()[i] is None
        &&& forall|i: int|
            #[trigger] tc_lt(tp, mc, i) ==> post.table()[i] == Some(young_evac_entry(tp, mc, i))
                && block_words_match(
                post.active_gen0_space().mem(),
                sum_tc_between(tp, 0, mc, i),
                pre.active_gen0_space().mem(),
                blk(tp, i).start as int,
                blk(tp, i).size as int,
            )
        &&& !g1c ==> forall|i: int|
            #[trigger] tc_eq(tp, mc, i) ==> post.table()[i] == Some(
                promote_entry(tp, mc, pre.active_gen1_space().next(), i),
            ) && block_words_match(
                post.active_gen1_space().mem(),
                pre.active_gen1_space().next() + sum_tc_between(tp, mc, mc + 1, i),
                pre.active_gen0_space().mem(),
                blk(tp, i).start as int,
                blk(tp, i).size as int,
            )
        &&& g1c ==> forall|i: int|
            #[trigger] tc_eq(tp, mc, i) ==> moved_block(
                post.table()[i],
                blk(tp, i),
                blk(tp, i).num_times_copied + 1,
                blk(tp, i).num_times_copied + 2,
                post.active_gen1_space().mem(),
                pre.active_gen0_space().mem(),
            )
        &&& !g1c ==> forall|i: int|
            #[trigger] tc_gt(tp, mc, i) ==> post.table()[i] == tp[i] && block_words_match(
                post.active_gen1_space().mem(),
                blk(tp, i).start as int,
                pre.active_gen1_space().mem(),
                blk(tp, i).start as int,
                blk(tp, i).size as int,
            )
        &&& g1c ==> forall|i: int|
            #[trigger] tc_gt(tp, mc, i) ==> moved_block(
                post.table()[i],
                blk(tp, i),
                blk(tp, i).num_times_copied + 1,
                blk(tp, i).num_times_copied + 1,
                post.active_gen1_space().mem(),
                pre.active_gen1_space().mem(),
            )
        &&& post.active_gen0_space().next() == sum_tc_between(tp, 0, mc, mb)
        &&& post.inactive_gen0_space().next() == 0
        &&& !g1c ==> post.active_gen1_space().next() == pre.active_gen1_space().next()
            + sum_tc_between(tp, mc, mc + 1, mb) && post.inactive_gen1_space()
            == pre.inactive_gen1_space()
        &&& g1c ==> post.active_gen1_space().next() == sum_tc_at_least(tp, mc + 1, mb)
            + sum_tc_between(tp, mc, mc + 1, mb) && post.inactive_gen1_space().next() == 0
    }

    /// A collection consumes up to two units of copy-count headroom.
    pub proof fn lemma_collect0_headroom(pre: Self, post: Self, u: Seq<bool>)
        requires
            copies_headroom(pre.table(), 4),
            u.len() == MAX_BLOCKS,
            Self::collect0_rel(pre, post, u),
        ensures
            copies_headroom(post.table(), 2),
    {
        let tp = pruned(pre.table(), u);
        let mc = MAX_COPIES as int;
        assert forall|i: int| is_live(post.table(), i) implies (#[trigger] blk(
            post.table(),
            i,
        )).num_times_copied + 2 <= usize::MAX by {
            assert(used_live(pre.table(), u, i));
            assert(is_live(tp, i));
            assert(tp[i] == pre.table()[i]);
            assert(blk(pre.table(), i).num_times_copied + 4 <= usize::MAX);
            if blk(tp, i).num_times_copied < mc {
                assert(tc_lt(tp, mc, i));
            } else if blk(tp, i).num_times_copied == mc {
                assert(tc_eq(tp, mc, i));
            } else {
                assert(tc_gt(tp, mc, i));
            }
        }
    }

    /// Young collection with an explicit liveness report. When the blocks
    /// at or past the promotion threshold cannot fit in one space the
    /// collection is refused up front, with the heap untouched; otherwise
    /// dead entries are pruned, the survivors are evacuated (cascading into
    /// one old collection if the promotion target fills up), the old active
    /// generation-0 space is cleared, and the roles toggle.
    pub fn collect_gen_0_with(&mut self, used: &Vec<bool>) -> (r: Result<(), HeapError>)
        requires
            old(self).wf(),
            used@.len() == MAX_BLOCKS,
            copies_headroom(old(self).table(), 2),
        ensures
            r is Err <==> Self::collect_failed(*old(self), used@),
            r is Err ==> r == Err::<(), HeapError>(HeapError::OutOfMemory) && *final(self) == *old(self),
            r is Ok ==> final(self).wf() && Self::collect0_rel(*old(self), *final(self), used@),
    {
        if self.promotable_exceeds(used) {
            return Err(HeapError::OutOfMemory);
        }
        let ghost t0 = old(self).table();
        let ghost u = used@;
        let ghost tp = pruned(t0, u);
        let ghost mc = MAX_COPIES as int;
        let ghost mb = MAX_BLOCKS as int;
        self.block_info.retain_used(used);
        proof {
            assert(self.table() =~= tp);
            assert forall|i: int| is_live(tp, i) implies u[i] && is_live(t0, i) && tp[i] == t0[i]
                && blk(tp, i) == blk(t0, i) by {}
            assert forall|i: int|
                is_live(tp, i) implies 1 <= (#[trigger] blk(tp, i)).size && blk(tp, i).start + blk(
                tp,
                i,
            ).size <= HEAP_SIZE && blk(tp, i).num_times_copied + 2 <= usize::MAX by {
                assert(blk(tp, i) == blk(t0, i));
            }
            assert forall|i: int|
                is_live(tp, i) && young_block(mc)(#[trigger] blk(tp, i)) implies blk(tp, i).start
                + blk(tp, i).size <= old(self).active_gen0_space().next() by {
                assert(blk(tp, i) == blk(t0, i));
            }
            assert forall|i: int|
                is_live(tp, i) && old_block(mc)(#[trigger] blk(tp, i)) implies blk(tp, i).start
                + blk(tp, i).size <= old(self).active_gen1_space().next() by {
                assert(blk(tp, i) == blk(t0, i));
            }
            assert forall|i: int, j: int|
                is_live(tp, i) && is_live(tp, j) && i != j && old_block(mc)(#[trigger] blk(tp, i))
                    && old_block(mc)(#[trigger] blk(tp, j)) implies disjoint_blocks(
                blk(tp, i),
                blk(tp, j),
            ) by {
                assert(blk(tp, i) == blk(t0, i) && blk(tp, j) == blk(t0, j));
                assert(is_live(t0, i) && is_live(t0, j));
            }
            assert forall|i: int|
                0 <= i < mb implies tc_between_size(0, mc)(i, #[trigger] tp[i]) <= tc_between_size(
                0,
                mc + 1,
            )(i, t0[i]) by {}
            lemma_sum_pointwise_le(tp, tc_between_size(0, mc), t0, tc_between_size(0, mc + 1), mb);
            assert forall|i: int|
                0 <= i < mb implies tc_at_least_size(mc + 1)(i, #[trigger] tp[i])
                <= tc_at_least_size(mc + 1)(i, t0[i]) by {}
            lemma_sum_pointwise_le(
                tp,
                tc_at_least_size(mc + 1),
                t0,
                tc_at_least_size(mc + 1),
                mb,
            );
            assert forall|i: int|
                0 <= i < mb implies tc_at_least_size(mc)(i, #[trigger] tp[i])
                == used_min_copies_size(u, mc)(i, t0[i]) by {}
            lemma_sum_pointwise_eq(tp, tc_at_least_size(mc), t0, used_min_copies_size(u, mc), mb);
        }
        let g1c = if self.active_gen_0 == 0 {
            if self.active_gen_1 == 0 {
                Self::evacuate_young(
                    &mut self.block_info,
                    used,
                    &self.gen_0_space_0,
                    &mut self.gen_0_space_1,
                    &mut self.gen_1_space_0,
                    &mut self.gen_1_space_1,
                )
            } else {
                Self::evacuate_young(
                    &mut self.block_info,
                    used,
                    &self.gen_0_space_0,
                    &mut self.gen_0_space_1,
                    &mut self.gen_1_space_1,
                    &mut self.gen_1_space_0,
                )
            }
        } else {
            if self.active_gen_1 == 0 {
                Self::evacuate_young(
                    &mut self.block_info,
                    used,
                    &self.gen_0_space_1,
                    &mut self.gen_0_space_0,
                    &mut self.gen_1_space_0,
                    &mut self.gen_1_space_1,
                )
            } else {
                Self::evacuate_young(
                    &mut self.block_info,
                    used,
                    &self.gen_0_space_1,
                    &mut self.gen_0_space_0,
                    &mut self.gen_1_space_1,
                    &mut self.gen_1_space_0,
                )
            }
        };
        if self.active_gen_0 == 0 {
            self.gen_0_space_0.clear();
            self.active_gen_0 = 1;
        } else {
            self.gen_0_space_1.clear();
            self.active_gen_0 = 0;
        }
        if g1c {
            self.active_gen_1 = 1 - self.active_gen_1;
        }
        proof {
            let pre = *old(self);
            let post = *self;
            if pre.active_g0() == 0 {
                if pre.active_g1() == 0 {
                    assert(Self::collect0_rel(pre, post, u));
                    assert(post.wf());
                } else {
                    assert(Self::collect0_rel(pre, post, u));
                    assert(post.wf());
                }
            } else {
                if pre.active_g1() == 0 {
                    assert(Self::collect0_rel(pre, post, u));
                    assert(post.wf());
                } else {
                    assert(Self::collect0_rel(pre, post, u));
                    assert(post.wf());
                }
            }
        }
        Ok(())
    }

    /// Trace, then collect with the tracer's report. Hands the report
    /// back so callers can speak about it.
    fn collect_gen_0<T: Tracer>(&mut self, tracer: &T) -> (r: (
        Result<(), HeapError>,
        Ghost<Seq<bool>>,
    ))
        requires
            old(self).wf(),
            copies_headroom(old(self).table(), 2),
        ensures
            r.1@.len() == MAX_BLOCKS,
            r.0 is Err <==> Self::collect_failed(*old(self), r.1@),
            r.0 is Err ==> r.0 == Err::<(), HeapError>(HeapError::OutOfMemory) && *final(self)
                == *old(self),
            r.0 is Ok ==> final(self).wf() && Self::collect0_rel(*old(self), *final(self), r.1@),
    {
        let mut used: Vec<bool> = Vec::new();
        while used.len() < MAX_BLOCKS
            invariant
                used@.len() <= MAX_BLOCKS,
            decreases MAX_BLOCKS - used.len(),
        {
            used.push(false);
        }
        tracer.trace(&mut used);
        let ghost u = used@;
        let r = self.collect_gen_0_with(&used);
        (r, Ghost(u))
    }

    /// Bump-allocate in the active generation-0 space.
    fn malloc_gen0(&mut self, num_words: usize) -> (r: Result<usize, HeapError>)
        requires
            old(self).wf(),
            num_words >= 1,
        ensures
            final(self).table() == old(self).table(),
            final(self).active_g0() == old(self).active_g0(),
            final(self).active_g1() == old(self).active_g1(),
            final(self).inactive_gen0_space() == old(self).inactive_gen0_space(),
            final(self).gen1(0) == old(self).gen1(0),
            final(self).gen1(1) == old(self).gen1(1),
            final(self).active_gen0_space().mem() == old(self).active_gen0_space().mem(),
            final(self).active_gen0_space().wf(),
            old(self).active_gen0_space().next() + num_words > HEAP_SIZE ==> r == Err::<
                usize,
                HeapError,
            >(HeapError::OutOfMemory) && *final(self) == *old(self),
            old(self).active_gen0_space().next() + num_words <= HEAP_SIZE ==> r == Ok::<
                usize,
                HeapError,
            >(old(self).active_gen0_space().next() as usize) && final(self).active_gen0_space().next() == old(self).active_gen0_space().next() + num_words,
    {
        if self.active_gen_0 == 0 {
            self.gen_0_space_0.malloc(num_words)
        } else {
            self.gen_0_space_1.malloc(num_words)
        }
    }

    /// Allocate `num_words` fresh words in a fresh block, collecting the
    /// young generation (and retrying once) if a slot or the room is
    /// missing.
    pub fn malloc<T: Tracer>(&mut self, num_words: usize, tracer: &T) -> (r: Result<
        Pointer,
        HeapError,
    >)
        requires
            old(self).wf(),
            copies_headroom(old(self).table(), 4),
        ensures
            final(self).wf(),
            Self::malloc_rel(*old(self), *final(self), num_words, r),
    {
        if num_words == 0 {
            return Err(HeapError::ZeroSizeRequest);
        }
        let ghost pre = *old(self);
        let ghost mut u1: Seq<bool> = Seq::empty();
        let ghost mut mid1 = *self;
        let ghost mut collected_first = false;
        let avail_block = match self.block_info.available_block() {
            None => {
                let (c, trace1) = self.collect_gen_0(tracer);
                proof {
                    u1 = trace1@;
                    mid1 = *self;
                    collected_first = true;
                }
                match c {
                    Ok(()) => {},
                    Err(e) => {
                        proof {
                            assert(Self::collect_failed(pre, u1));
                            assert(Self::malloc_rel(
                                pre,
                                *self,
                                num_words,
                                Err(HeapError::OutOfMemory),
                            ));
                        }
                        return Err(HeapError::OutOfMemory);
                    },
                }
                match self.block_info.available_block() {
                    None => {
                        proof {
                            assert(Self::collect0_rel(pre, *self, u1));
                            assert(Self::malloc_rel(
                                pre,
                                *self,
                                num_words,
                                Err(HeapError::OutOfBlocks),
                            ));
                        }
                        return Err(HeapError::OutOfBlocks);
                    },
                    Some(b) => b,
                }
            },
            Some(b) => b,
        };
        let ghost base = *self;
        let ghost mut u2: Seq<bool> = Seq::empty();
        let ghost mut alloc_base = *self;
        let ghost mut retried = false;
        let start = match self.malloc_gen0(num_words) {
            Ok(a) => a,
            Err(_) => {
                proof {
                    if collected_first {
                        Self::lemma_collect0_headroom(pre, base, u1);
                    }
                }
                let (c2, trace2) = self.collect_gen_0(tracer);
                proof {
                    u2 = trace2@;
                    retried = true;
                }
                match c2 {
                    Ok(()) => {},
                    Err(e) => {
                        proof {
                            assert(Self::collect_failed(base, u2));
                            assert(*self == base);
                            if collected_first {
                                assert(Self::collect0_rel(pre, mid1, u1));
                                assert(is_first_free(mid1.table(), avail_block as int));
                                assert(Self::malloc_rel(
                                    pre,
                                    *self,
                                    num_words,
                                    Err(HeapError::OutOfMemory),
                                ));
                            } else {
                                assert(base == pre);
                                assert(is_first_free(pre.table(), avail_block as int));
                                assert(Self::malloc_rel(
                                    pre,
                                    *self,
                                    num_words,
                                    Err(HeapError::OutOfMemory),
                                ));
                            }
                        }
                        return Err(HeapError::OutOfMemory);
                    },
                }
                proof {
                    alloc_base = *self;
                }
                match self.malloc_gen0(num_words) {
                    Ok(a) => a,
                    Err(_) => {
                        proof {
                            let post = *self;
                            assert(post == alloc_base);
                            assert(Self::collect0_rel(base, alloc_base, u2));
                            if collected_first {
                                assert(Self::collect0_rel(pre, mid1, u1));
                                assert(is_first_free(mid1.table(), avail_block as int));
                                assert(Self::malloc_rel(
                                    pre,
                                    post,
                                    num_words,
                                    Err(HeapError::OutOfMemory),
                                ));
                            } else {
                                assert(base == pre);
                                assert(is_first_free(pre.table(), avail_block as int));
                                assert(Self::malloc_rel(
                                    pre,
                                    post,
                                    num_words,
                                    Err(HeapError::OutOfMemory),
                                ));
                            }
                        }
                        return Err(HeapError::OutOfMemory);
                    },
                }
            },
        };
        let info = BlockInfo { start, size: num_words, num_times_copied: 0 };
        self.block_info.set_entry(avail_block, Some(info));
        let ghost post = *self;
        let ghost p = Pointer { block_num: avail_block, size: num_words, offset: 0 };
        proof {
            if retried {
                assert(!used_live(base.table(), u2, avail_block as int));
                assert(alloc_base.table()[avail_block as int] is None);
            }
            lemma_install_young_block(
                alloc_base.table(),
                avail_block as int,
                info,
                alloc_base.active_gen0_space().next(),
                alloc_base.active_gen1_space().next(),
                HEAP_SIZE as int,
                MAX_COPIES as int,
            );
            assert(Self::install_rel(alloc_base, post, num_words, avail_block as int, p));
            if !collected_first && !retried {
                assert(Self::malloc_rel(pre, post, num_words, Ok(p)));
            } else if !collected_first && retried {
                assert(Self::collect0_rel(pre, alloc_base, u2));
                assert(is_first_free(pre.table(), avail_block as int));
                assert(Self::malloc_rel(pre, post, num_words, Ok(p)));
            } else if collected_first && !retried {
                assert(Self::collect0_rel(pre, mid1, u1));
                assert(is_first_free(mid1.table(), avail_block as int));
                assert(Self::malloc_rel(pre, post, num_words, Ok(p)));
            } else {
                assert(Self::collect0_rel(pre, mid1, u1));
                assert(Self::collect0_rel(mid1, alloc_base, u2));
                assert(is_first_free(mid1.table(), avail_block as int));
                assert(Self::malloc_rel(pre, post, num_words, Ok(p)));
            }
        }
        Ok(Pointer::new(avail_block, num_words))
    }

    /// A collection with report `u` cannot succeed: the blocks it must
    /// place in one generation-1 space do not fit.
    pub open spec fn collect_failed(h: Self, u: Seq<bool>) -> bool {
        sum_used_min(h.table(), u, MAX_COPIES as int, MAX_BLOCKS as int) > HEAP_SIZE
    }

    pub open spec fn fits_gen0(h: Self, n: int) -> bool {
        h.active_gen0_space().next() + n <= HEAP_SIZE
    }

    pub open spec fn has_free(h: Self) -> bool {
        !table_full(h.table())
    }

    /// A successful allocation step (no collection): the descriptor for the
    /// fresh block is installed in slot `b` at the generation-0 cursor.
    pub open spec fn install_rel(
        pre: Self,
        post: Self,
        num_words: usize,
        b: int,
        p: Pointer,
    ) -> bool {
        &&& p == (Pointer { block_num: b as usize, size: num_words, offset: 0 })
        &&& post.table() == pre.table().update(
            b,
            Some(
                BlockInfo {
                    start: pre.active_gen0_space().next() as usize,
                    size: num_words,
                    num_times_copied: 0,
                },
            ),
        )
        &&& post.active_g0() == pre.active_g0()
        &&& post.active_g1() == pre.active_g1()
        &&& post.active_gen0_space().next() == pre.active_gen0_space().next() + num_words
        &&& post.active_gen0_space().mem() == pre.active_gen0_space().mem()
        &&& post.inactive_gen0_space() == pre.inactive_gen0_space()
        &&& post.gen1(0) == pre.gen1(0)
        &&& post.gen1(1) == pre.gen1(1)
    }

    /// The exact allocation protocol: reject zero-size requests; collect
    /// when no slot or no room is available; retry once; propagate
    /// `OutOfMemory` from a collection whose promotable blocks cannot fit
    /// (the heap is then unchanged); report `OutOfBlocks` or `OutOfMemory`
    /// only after the retry also fails.
    pub open spec fn malloc_rel(
        pre: Self,
        post: Self,
        n: usize,
        r: Result<Pointer, HeapError>,
    ) -> bool {
        if n == 0 {
            r == Err::<Pointer, HeapError>(HeapError::ZeroSizeRequest) && post == pre
        } else if Self::has_free(pre) {
            if Self::fits_gen0(pre, n as int) {
                exists|b: int, p: Pointer|
                    is_first_free(pre.table(), b) && r == Ok::<Pointer, HeapError>(p)
                        && #[trigger] Self::install_rel(pre, post, n, b, p)
            } else {
                exists|u: Seq<bool>, b: int|
                    #![trigger is_first_free(pre.table(), b), Self::collect_failed(pre, u)]
                    {
                        &&& u.len() == MAX_BLOCKS
                        &&& is_first_free(pre.table(), b)
                        &&& if Self::collect_failed(pre, u) {
                            r == Err::<Pointer, HeapError>(HeapError::OutOfMemory) && post == pre
                        } else {
                            exists|mid: Self|
                                #[trigger] Self::collect0_rel(pre, mid, u) && (if Self::fits_gen0(
                                    mid,
                                    n as int,
                                ) {
                                    exists|p: Pointer|
                                        r == Ok::<Pointer, HeapError>(p)
                                            && #[trigger] Self::install_rel(mid, post, n, b, p)
                                } else {
                                    r == Err::<Pointer, HeapError>(HeapError::OutOfMemory) && post
                                        == mid
                                })
                        }
                    }
            }
        } else {
            exists|u: Seq<bool>|
                #![trigger Self::collect_failed(pre, u)]
                {
                    &&& u.len() == MAX_BLOCKS
                    &&& if Self::collect_failed(pre, u) {
                        r == Err::<Pointer, HeapError>(HeapError::OutOfMemory) && post == pre
                    } else {
                        exists|mid: Self|
                            #[trigger] Self::collect0_rel(pre, mid, u) && (if !Self::has_free(
                                mid,
                            ) {
                                r == Err::<Pointer, HeapError>(HeapError::OutOfBlocks) && post
                                    == mid
                            } else if Self::fits_gen0(mid, n as int) {
                                exists|b: int, p: Pointer|
                                    is_first_free(mid.table(), b) && r == Ok::<Pointer, HeapError>(
                                        p,
                                    ) && #[trigger] Self::install_rel(mid, post, n, b, p)
                            } else {
                                exists|u2: Seq<bool>, b: int|
                                    #![trigger is_first_free(mid.table(), b), Self::collect_failed(mid, u2)]
                                    {
                                        &&& u2.len() == MAX_BLOCKS
                                        &&& is_first_free(mid.table(), b)
                                        &&& if Self::collect_failed(mid, u2) {
                                            r == Err::<Pointer, HeapError>(HeapError::OutOfMemory)
                                                && post == mid
                                        } else {
                                            exists|mid2: Self|
                                                #[trigger] Self::collect0_rel(mid, mid2, u2) && (
                                                if Self::fits_gen0(mid2, n as int) {
                                                    exists|p: Pointer|
                                                        r == Ok::<Pointer, HeapError>(p)
                                                            && #[trigger] Self::install_rel(
                                                            mid2,
                                                            post,
                                                            n,
                                                            b,
                                                            p,
                                                        )
                                                } else {
                                                    r == Err::<Pointer, HeapError>(
                                                        HeapError::OutOfMemory,
                                                    ) && post == mid2
                                                })
                                        }
                                    }
                            })
                    }
                }
        }
    }
}

/// Installing a fresh (never-copied) block at the generation-0 bump cursor
/// keeps both residency classes well placed and moves the young size sum up
/// by the block's size.
pub proof fn lemma_install_young_block(
    t: Seq<Option<BlockInfo>>,
    b: int,
    info: BlockInfo,
    g0_next: int,
    g1_next: int,
    heap_size: int,
    mc: int,
)
    requires
        0 <= b < t.len(),
        t[b] is None,
        mc >= 0,
        table_shape(t, heap_size),
        hosted_where(t, young_block(mc), g0_next),
        hosted_where(t, old_block(mc), g1_next),
        disjoint_where(t, young_block(mc)),
        disjoint_where(t, old_block(mc)),
        sum_tc_between(t, 0, mc + 1, t.len() as int) == g0_next,
        info.start == g0_next,
        1 <= info.size,
        g0_next + info.size <= heap_size,
        info.num_times_copied == 0,
    ensures
        table_shape(t.update(b, Some(info)), heap_size),
        hosted_where(t.update(b, Some(info)), young_block(mc), g0_next + info.size),
        hosted_where(t.update(b, Some(info)), old_block(mc), g1_next),
        disjoint_where(t.update(b, Some(info)), young_block(mc)),
        disjoint_where(t.update(b, Some(info)), old_block(mc)),
        sum_tc_between(t.update(b, Some(info)), 0, mc + 1, t.len() as int) == g0_next + info.size,
        sum_tc_at_least(t.update(b, Some(info)), mc + 1, t.len() as int) == sum_tc_at_least(
            t,
            mc + 1,
            t.len() as int,
        ),
{
    let t1 = t.update(b, Some(info));
    lemma_sum_update(t, tc_between_size(0, mc + 1), t.len() as int, b, Some(info));
    lemma_sum_update(t, tc_at_least_size(mc + 1), t.len() as int, b, Some(info));
    assert(tc_between_size(0, mc + 1)(b, t[b]) == 0);
    assert(tc_between_size(0, mc + 1)(b, Some(info)) == info.size as int);
    assert(tc_at_least_size(mc + 1)(b, t[b]) == 0);
    assert(tc_at_least_size(mc + 1)(b, Some(info)) == 0);
    assert forall|i: int| is_live(t1, i) implies 1 <= (#[trigger] blk(t1, i)).size && blk(
        t1,
        i,
    ).start + blk(t1, i).size <= heap_size by {
        if i != b {
            assert(is_live(t, i));
            assert(blk(t1, i) == blk(t, i));
        }
    }
    assert forall|i: int|
        is_live(t1, i) && young_block(mc)(#[trigger] blk(t1, i)) implies blk(t1, i).start + blk(
        t1,
        i,
    ).size <= g0_next + info.size by {
        if i != b {
            assert(is_live(t, i));
            assert(blk(t1, i) == blk(t, i));
        }
    }
    assert forall|i: int|
        is_live(t1, i) && old_block(mc)(#[trigger] blk(t1, i)) implies blk(t1, i).start + blk(
        t1,
        i,
    ).size <= g1_next by {
        assert(i != b);
        assert(is_live(t, i));
        assert(blk(t1, i) == blk(t, i));
    }
    assert forall|i: int, j: int|
        is_live(t1, i) && is_live(t1, j) && i != j && young_block(mc)(#[trigger] blk(t1, i))
            && young_block(mc)(#[trigger] blk(t1, j)) implies disjoint_blocks(
        blk(t1, i),
        blk(t1, j),
    ) by {
        if i != b && j != b {
            assert(is_live(t, i) && is_live(t, j));
            assert(blk(t1, i) == blk(t, i) && blk(t1, j) == blk(t, j));
        } else if i == b {
            assert(is_live(t, j));
            assert(blk(t1, j) == blk(t, j));
            assert(blk(t, j).start + blk(t, j).size <= g0_next);
        } else {
            assert(is_live(t, i));
            assert(blk(t1, i) == blk(t, i));
            assert(blk(t, i).start + blk(t, i).size <= g0_next);
        }
    }
    assert forall|i: int, j: int|
        is_live(t1, i) && is_live(t1, j) && i != j && old_block(mc)(#[trigger] blk(t1, i))
            && old_block(mc)(#[trigger] blk(t1, j)) implies disjoint_blocks(
        blk(t1, i),
        blk(t1, j),
    ) by {
        assert(i != b && j != b);
        assert(is_live(t, i) && is_live(t, j));
        assert(blk(t1, i) == blk(t, i) && blk(t1, j) == blk(t, j));
    }
}

/// Block `i` is live with copy count strictly below the threshold.
pub open spec fn tc_lt(t: Seq<Option<BlockInfo>>, mc: int, i: int) -> bool {
    is_live(t, i) && blk(t, i).num_times_copied < mc
}

/// Block `i` is live exactly at the threshold: the next evacuation promotes
/// it.
pub open spec fn tc_eq(t: Seq<Option<BlockInfo>>, mc: int, i: int) -> bool {
    is_live(t, i) && blk(t, i).num_times_copied == mc
}

/// Block `i` is live past the threshold: a generation-1 resident.
pub open spec fn tc_gt(t: Seq<Option<BlockInfo>>, mc: int, i: int) -> bool {
    is_live(t, i) && blk(t, i).num_times_copied > mc
}

/// The entry a young evacuation installs for a surviving young block.
pub open spec fn young_evac_entry(t: Seq<Option<BlockInfo>>, mc: int, i: int) -> BlockInfo {
    BlockInfo {
        start: sum_tc_between(t, 0, mc, i) as usize,
        size: blk(t, i).size,
        num_times_copied: (blk(t, i).num_times_copied + 1) as usize,
    }
}

/// The entry a young evacuation installs for a promoted block when no
/// cascade was needed: appended to the generation-1 cursor `g1_next`.
pub open spec fn promote_entry(t: Seq<Option<BlockInfo>>, mc: int, g1_next: int, i: int) -> BlockInfo {
    BlockInfo {
        start: (g1_next + sum_tc_between(t, mc, mc + 1, i)) as usize,
        size: blk(t, i).size,
        num_times_copied: (blk(t, i).num_times_copied + 1) as usize,
    }
}

/// The entry holds a relocated copy of `orig`: same size, copy count within
/// `[lo_tc, hi_tc]`, contents in `mem` equal to the original words in
/// `src_mem`.
pub open spec fn moved_block(
    entry: Option<BlockInfo>,
    orig: BlockInfo,
    lo_tc: int,
    hi_tc: int,
    mem: Seq<u64>,
    src_mem: Seq<u64>,
) -> bool {
    &&& entry is Some
    &&& entry.unwrap().size == orig.size
    &&& lo_tc <= entry.unwrap().num_times_copied <= hi_tc
    &&& block_words_match(
        mem,
        entry.unwrap().start as int,
        src_mem,
        orig.start as int,
        orig.size as int,
    )
}

} // verus!

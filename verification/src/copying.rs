//! `CopyingHeap`: two semi-spaces and one block table. When allocation
//! fails, the live blocks (as reported by the tracer) are evacuated from the
//! active space into the empty inactive space, the roles swap, and the
//! allocation is retried once.

use vstd::prelude::*;
use crate::evacuate::evacuate_used_at_least;
use crate::evacuate::lemma_evac_placement;
use crate::model::any_block;
use crate::model::blk;
use crate::model::copies_headroom;
use crate::model::disjoint_blocks;
use crate::model::disjoint_where;
use crate::model::evac_entry;
use crate::model::evac_match;
use crate::model::hosted_where;
use crate::model::is_first_free;
use crate::model::is_live;
use crate::model::lemma_install_block;
use crate::model::lemma_sum_pointwise_eq;
use crate::model::lemma_sum_pointwise_le;
use crate::model::lemma_sum_zero;
use crate::model::live_size;
use crate::model::sum_live_sizes;
use crate::model::sum_used_min;
use crate::model::table_address;
use crate::model::table_full;
use crate::model::table_shape;
use crate::model::used_live;
use crate::model::used_min_copies_size;
use crate::ram::block_words_match;
use crate::ram::RamHeap;
use crate::table::BlockTable;
use crate::types::BlockInfo;
use crate::types::HeapError;
use crate::types::Pointer;
use crate::types::Tracer;
use crate::util::independent_elements_from;

verus! {

/// A two-space copying collector.
pub struct CopyingHeap<const HEAP_SIZE: usize, const MAX_BLOCKS: usize> {
    space_0: RamHeap<HEAP_SIZE>,
    space_1: RamHeap<HEAP_SIZE>,
    block_info: BlockTable<MAX_BLOCKS>,
    active_heap: usize,
}

impl<const HEAP_SIZE: usize, const MAX_BLOCKS: usize> CopyingHeap<HEAP_SIZE, MAX_BLOCKS> {
    /// The block table's entries.
    pub closed spec fn table(&self) -> Seq<Option<BlockInfo>> {
        self.block_info@
    }

    /// Which semi-space receives allocations (0 or 1).
    pub closed spec fn active_ix(&self) -> int {
        self.active_heap as int
    }

    /// The semi-space with index `i`.
    pub closed spec fn space(&self, i: int) -> RamHeap<HEAP_SIZE> {
        if i == 0 {
            self.space_0
        } else {
            self.space_1
        }
    }

    pub open spec fn active_space(&self) -> RamHeap<HEAP_SIZE> {
        self.space(self.active_ix())
    }

    pub open spec fn inactive_space(&self) -> RamHeap<HEAP_SIZE> {
        self.space(1 - self.active_ix())
    }

    /// Well-formedness between operations: live blocks are hosted in the
    /// active space without overlap, their sizes sum exactly to the active
    /// cursor (compaction), and the inactive space is empty (no strays).
    pub open spec fn wf(&self) -> bool {
        &&& MAX_BLOCKS >= 1
        &&& self.active_ix() == 0 || self.active_ix() == 1
        &&& self.space(0).wf() && self.space(1).wf()
        &&& self.table().len() == MAX_BLOCKS
        &&& table_shape(self.table(), HEAP_SIZE as int)
        &&& hosted_where(self.table(), any_block(), self.active_space().next())
        &&& disjoint_where(self.table(), any_block())
        &&& sum_live_sizes(self.table(), MAX_BLOCKS as int) == self.active_space().next()
        &&& self.inactive_space().next() == 0
    }

    /// What `address` returns.
    pub open spec fn spec_address(&self, p: Pointer) -> Result<usize, HeapError> {
        table_address(self.table(), MAX_BLOCKS as int, p)
    }

    /// What `load` returns.
    pub open spec fn spec_load(&self, p: Pointer) -> Result<u64, HeapError> {
        match self.spec_address(p) {
            Ok(a) => Ok(self.active_space().mem()[a as int]),
            Err(e) => Err(e),
        }
    }

    /// How a collection with liveness report `used` transforms the heap:
    /// the roles of the spaces swap; exactly the used live blocks survive,
    /// compacted in ascending index order into the new active space with
    /// their copy counts bumped by one and their contents intact; the new
    /// inactive space is empty.
    pub open spec fn collect_rel(pre: Self, post: Self, used: Seq<bool>) -> bool {
        &&& post.active_ix() == 1 - pre.active_ix()
        &&& post.table().len() == MAX_BLOCKS
        &&& forall|i: int|
            0 <= i < MAX_BLOCKS ==> post.table()[i] == (if used_live(pre.table(), used, i) {
                Some(evac_entry(pre.table(), used, 0, i))
            } else {
                None::<BlockInfo>
            })
        &&& post.active_space().next() == sum_used_min(pre.table(), used, 0, MAX_BLOCKS as int)
        &&& post.inactive_space().next() == 0
        &&& forall|i: int|
            used_live(pre.table(), used, i) ==> block_words_match(
                post.active_space().mem(),
                sum_used_min(pre.table(), used, 0, i),
                pre.active_space().mem(),
                blk(pre.table(), i).start as int,
                blk(pre.table(), i).size as int,
            )
    }

    /// A successful allocation step (no collection): the descriptor for the
    /// fresh block is installed in slot `b` at the active cursor.
    pub open spec fn install_rel(
        pre: Self,
        post: Self,
        num_words: usize,
        b: int,
        p: Pointer,
    ) -> bool {
        &&& p == (Pointer { block_num: b as usize, size: num_words, offset: 0 })
        &&& post.table() == pre.table().update(
            b,
            Some(
                BlockInfo {
                    start: pre.active_space().next() as usize,
                    size: num_words,
                    num_times_copied: 0,
                },
            ),
        )
        &&& post.active_ix() == pre.active_ix()
        &&& post.active_space().next() == pre.active_space().next() + num_words
        &&& post.active_space().mem() == pre.active_space().mem()
        &&& post.inactive_space() == pre.inactive_space()
    }

    pub open spec fn fits(h: Self, n: int) -> bool {
        h.active_space().next() + n <= HEAP_SIZE
    }

    pub open spec fn has_free(h: Self) -> bool {
        !table_full(h.table())
    }

    /// The exact allocation protocol: reject zero-size requests; collect
    /// when no slot or no room is available; retry once; report
    /// `OutOfBlocks` or `OutOfMemory` only after the retry also fails.
    pub open spec fn malloc_rel(
        pre: Self,
        post: Self,
        n: usize,
        r: Result<Pointer, HeapError>,
    ) -> bool {
        if n == 0 {
            r == Err::<Pointer, HeapError>(HeapError::ZeroSizeRequest) && post == pre
        } else if Self::has_free(pre) {
            if Self::fits(pre, n as int) {
                exists|b: int, p: Pointer|
                    is_first_free(pre.table(), b) && r == Ok::<Pointer, HeapError>(p)
                        && #[trigger] Self::install_rel(pre, post, n, b, p)
            } else {
                exists|u: Seq<bool>, mid: Self, b: int|
                    {
                        &&& u.len() == MAX_BLOCKS
                        &&& #[trigger] Self::collect_rel(pre, mid, u)
                        &&& #[trigger] is_first_free(pre.table(), b)
                        &&& if Self::fits(mid, n as int) {
                            exists|p: Pointer|
                                r == Ok::<Pointer, HeapError>(p) && #[trigger] Self::install_rel(
                                    mid,
                                    post,
                                    n,
                                    b,
                                    p,
                                )
                        } else {
                            r == Err::<Pointer, HeapError>(HeapError::OutOfMemory) && post == mid
                        }
                    }
            }
        } else {
            exists|u: Seq<bool>, mid: Self|
                {
                    &&& u.len() == MAX_BLOCKS
                    &&& #[trigger] Self::collect_rel(pre, mid, u)
                    &&& if !Self::has_free(mid) {
                        r == Err::<Pointer, HeapError>(HeapError::OutOfBlocks) && post == mid
                    } else if Self::fits(mid, n as int) {
                        exists|b: int, p: Pointer|
                            is_first_free(mid.table(), b) && r == Ok::<Pointer, HeapError>(p)
                                && #[trigger] Self::install_rel(mid, post, n, b, p)
                    } else {
                        exists|u2: Seq<bool>, mid2: Self, b: int|
                            {
                                &&& u2.len() == MAX_BLOCKS
                                &&& #[trigger] Self::collect_rel(mid, mid2, u2)
                                &&& #[trigger] is_first_free(mid.table(), b)
                                &&& if Self::fits(mid2, n as int) {
                                    exists|p: Pointer|
                                        r == Ok::<Pointer, HeapError>(p)
                                            && #[trigger] Self::install_rel(mid2, post, n, b, p)
                                } else {
                                    r == Err::<Pointer, HeapError>(HeapError::OutOfMemory) && post
                                        == mid2
                                }
                            }
                    }
                }
        }
    }

    /// After a collection the heap is well-formed again.
    pub proof fn lemma_collect_preserves_wf(pre: Self, post: Self, u: Seq<bool>)
        requires
            pre.wf(),
            u.len() == MAX_BLOCKS,
            Self::collect_rel(pre, post, u),
            post.active_ix() == 0 || post.active_ix() == 1,
            post.space(0).wf(),
            post.space(1).wf(),
        ensures
            post.wf(),
    {
        let t0 = pre.table();
        let t1 = post.table();
        let f = used_min_copies_size(u, 0);
        assert forall|i: int|
            0 <= i < MAX_BLOCKS implies f(i, #[trigger] t0[i]) <= live_size()(i, t0[i]) by {}
        lemma_sum_pointwise_le(t0, f, t0, live_size(), MAX_BLOCKS as int);
        assert forall|i: int| is_live(t1, i) implies 1 <= (#[trigger] blk(t1, i)).size && blk(
            t1,
            i,
        ).start + blk(t1, i).size <= post.active_space().next() && blk(t1, i).start + blk(
            t1,
            i,
        ).size <= HEAP_SIZE by {
            assert(used_live(t0, u, i));
            assert(evac_match(t0, u, 0, i));
            assert(any_block()(blk(t0, i)));
            lemma_evac_placement(t0, u, 0, i, MAX_BLOCKS as int);
        }
        assert forall|i: int, j: int|
            is_live(t1, i) && is_live(t1, j) && i != j && any_block()(#[trigger] blk(t1, i))
                && any_block()(#[trigger] blk(t1, j)) implies disjoint_blocks(
            blk(t1, i),
            blk(t1, j),
        ) by {
            assert(used_live(t0, u, i) && used_live(t0, u, j));
            assert(evac_match(t0, u, 0, i) && evac_match(t0, u, 0, j));
            assert(t1[i] == Some(evac_entry(t0, u, 0, i)));
            assert(t1[j] == Some(evac_entry(t0, u, 0, j)));
            lemma_evac_placement(t0, u, 0, i, MAX_BLOCKS as int);
            lemma_evac_placement(t0, u, 0, j, MAX_BLOCKS as int);
            if i < j {
                lemma_evac_placement(t0, u, 0, i, j);
            } else {
                lemma_evac_placement(t0, u, 0, j, i);
            }
        }
        assert forall|i: int|
            0 <= i < MAX_BLOCKS implies live_size()(i, #[trigger] t1[i]) == f(i, t0[i]) by {
            if used_live(t0, u, i) {
                assert(t1[i] == Some(evac_entry(t0, u, 0, i)));
            }
        }
        lemma_sum_pointwise_eq(t1, live_size(), t0, f, MAX_BLOCKS as int);
    }

    /// A collection consumes one unit of copy-count headroom.
    pub proof fn lemma_collect_headroom(pre: Self, post: Self, u: Seq<bool>)
        requires
            copies_headroom(pre.table(), 2),
            u.len() == MAX_BLOCKS,
            Self::collect_rel(pre, post, u),
        ensures
            copies_headroom(post.table(), 1),
    {
        assert forall|i: int| is_live(post.table(), i) implies (#[trigger] blk(
            post.table(),
            i,
        )).num_times_copied + 1 <= usize::MAX by {
            assert(used_live(pre.table(), u, i));
            assert(blk(pre.table(), i).num_times_copied + 2 <= usize::MAX);
        }
    }

    pub fn new() -> (r: Self)
        requires
            MAX_BLOCKS >= 1,
        ensures
            r.wf(),
            r.active_ix() == 0,
            r.active_space().next() == 0,
            forall|i: int| 0 <= i < MAX_BLOCKS ==> r.table()[i] is None,
    {
        let r = CopyingHeap {
            space_0: RamHeap::new(),
            space_1: RamHeap::new(),
            block_info: BlockTable::new(),
            active_heap: 0,
        };
        proof {
            lemma_sum_zero(r.table(), live_size(), MAX_BLOCKS as int);
        }
        r
    }

    /// Resolve a pointer to its current word address (diagnostic).
    pub fn address(&self, p: Pointer) -> (r: Result<usize, HeapError>)
        requires
            self.wf(),
        ensures
            r == self.spec_address(p),
    {
        self.block_info.address(p)
    }

    /// Read the word a pointer names, out of the active space.
    pub fn load(&self, p: Pointer) -> (r: Result<u64, HeapError>)
        requires
            self.wf(),
        ensures
            r == self.spec_load(p),
    {
        let address = match self.block_info.address(p) {
            Err(e) => {
                return Err(e);
            },
            Ok(a) => a,
        };
        proof {
            let b = p.block_num as int;
            assert(is_live(self.table(), b));
            assert(any_block()(blk(self.table(), b)));
            assert(address < self.active_space().next());
        }
        if self.active_heap == 0 {
            self.space_0.load(address)
        } else {
            self.space_1.load(address)
        }
    }

    /// Write the word a pointer names, into the active space.
    pub fn store(&mut self, p: Pointer, value: u64) -> (r: Result<(), HeapError>)
        requires
            old(self).wf(),
        ensures
            final(self).wf(),
            final(self).table() == old(self).table(),
            final(self).active_ix() == old(self).active_ix(),
            final(self).active_space().next() == old(self).active_space().next(),
            final(self).inactive_space() == old(self).inactive_space(),
            old(self).spec_address(p) matches Ok(a) ==> r is Ok && final(self).active_space().mem()
                == old(self).active_space().mem().update(a as int, value),
            old(self).spec_address(p) matches Err(e) ==> r == Err::<(), HeapError>(e) && *final(self) == *old(self),
    {
        let address = match self.block_info.address(p) {
            Err(e) => {
                return Err(e);
            },
            Ok(a) => a,
        };
        proof {
            let b = p.block_num as int;
            assert(is_live(old(self).table(), b));
            assert(any_block()(blk(old(self).table(), b)));
            assert(address < HEAP_SIZE);
        }
        if self.active_heap == 0 {
            self.space_0.store(address, value)
        } else {
            self.space_1.store(address, value)
        }
    }

    /// The live block indices, ascending.
    pub fn blocks_in_use(&self) -> (r: Vec<usize>)
        requires
            self.wf(),
        ensures
            forall|k: int| 0 <= k < r@.len() ==> is_live(self.table(), #[trigger] r@[k] as int),
            forall|k1: int, k2: int| 0 <= k1 < k2 < r@.len() ==> r@[k1] < r@[k2],
            forall|i: int| is_live(self.table(), i) ==> r@.contains(i as usize),
    {
        self.block_info.blocks_in_use()
    }

    /// The base pointer of a live block.
    pub fn allocated_block_ptr(&self, block: usize) -> (r: Option<Pointer>)
        requires
            self.wf(),
        ensures
            r == if is_live(self.table(), block as int) {
                Some(
                    Pointer {
                        block_num: block,
                        size: blk(self.table(), block as int).size,
                        offset: 0,
                    },
                )
            } else {
                None::<Pointer>
            },
    {
        self.block_info.allocated_block_ptr(block)
    }

    /// `(index, times copied)` for every live block, ascending.
    pub fn blocks_num_copies(&self) -> (r: Vec<(usize, usize)>)
        requires
            self.wf(),
        ensures
            forall|k: int|
                0 <= k < r@.len() ==> is_live(self.table(), #[trigger] r@[k].0 as int) && r@[k].1
                    == blk(self.table(), r@[k].0 as int).num_times_copied,
            forall|k1: int, k2: int| 0 <= k1 < k2 < r@.len() ==> r@[k1].0 < r@[k2].0,
            forall|i: int|
                is_live(self.table(), i) ==> r@.contains(
                    (i as usize, blk(self.table(), i).num_times_copied),
                ),
    {
        self.block_info.blocks_num_copies()
    }

    /// Collect with an explicit liveness report: evacuate the used live
    /// blocks into the inactive space, clear the old active space, and swap
    /// roles. This never fails: the survivors always fit, because they
    /// occupy no more room than they did in the space they leave.
    pub fn collect_with(&mut self, used: &Vec<bool>) -> (r: Result<(), HeapError>)
        requires
            old(self).wf(),
            used@.len() == MAX_BLOCKS,
            copies_headroom(old(self).table(), 1),
        ensures
            final(self).wf(),
            r is Ok,
            Self::collect_rel(*old(self), *final(self), used@),
    {
        let ghost t0 = old(self).table();
        let ghost u = used@;
        proof {
            assert forall|i: int| evac_match(t0, u, 0, i) implies blk(t0, i).start + blk(
                t0,
                i,
            ).size <= old(self).active_space().next() && blk(t0, i).num_times_copied
                < usize::MAX by {
                assert(any_block()(blk(t0, i)));
            }
            assert forall|i: int|
                0 <= i < MAX_BLOCKS implies used_min_copies_size(u, 0)(i, #[trigger] t0[i])
                <= live_size()(i, t0[i]) by {}
            lemma_sum_pointwise_le(
                t0,
                used_min_copies_size(u, 0),
                t0,
                live_size(),
                MAX_BLOCKS as int,
            );
        }
        let slots = independent_elements_from(self.active_heap, 1 - self.active_heap, 2);
        match slots {
            Some((active, _inactive)) => {
                if active == 0 {
                    evacuate_used_at_least(
                        &mut self.block_info,
                        used,
                        0,
                        &self.space_0,
                        &mut self.space_1,
                    );
                    self.space_0.clear();
                    self.active_heap = 1;
                } else {
                    evacuate_used_at_least(
                        &mut self.block_info,
                        used,
                        0,
                        &self.space_1,
                        &mut self.space_0,
                    );
                    self.space_1.clear();
                    self.active_heap = 0;
                }
            },
            None => {
                proof {
                    assert(false);
                }
            },
        }
        let ghost t_evac = self.table();
        self.block_info.retain_used(used);
        proof {
            let post = *self;
            assert forall|i: int|
                0 <= i < MAX_BLOCKS implies post.table()[i] == (if used_live(t0, u, i) {
                Some(evac_entry(t0, u, 0, i))
            } else {
                None::<BlockInfo>
            }) by {
                if used_live(t0, u, i) {
                    assert(evac_match(t0, u, 0, i));
                    assert(t_evac[i] == Some(evac_entry(t0, u, 0, i)));
                } else if 0 <= i < u.len() && u[i] {
                    assert(!evac_match(t0, u, 0, i));
                    assert(t_evac[i] == t0[i]);
                }
            }
            assert(Self::collect_rel(*old(self), post, u));
            Self::lemma_collect_preserves_wf(*old(self), post, u);
        }
        Ok(())
    }

    /// Trace, then collect with the tracer's report.
    fn collect<T: Tracer>(&mut self, tracer: &T) -> (r: (Result<(), HeapError>, Ghost<Seq<bool>>))
        requires
            old(self).wf(),
            copies_headroom(old(self).table(), 1),
        ensures
            final(self).wf(),
            r.0 is Ok,
            r.1@.len() == MAX_BLOCKS,
            Self::collect_rel(*old(self), *final(self), r.1@),
    {
        let mut used: Vec<bool> = Vec::new();
        while used.len() < MAX_BLOCKS
            invariant
                used@.len() <= MAX_BLOCKS,
            decreases MAX_BLOCKS - used.len(),
        {
            used.push(false);
        }
        tracer.trace(&mut used);
        let ghost u = used@;
        let r = self.collect_with(&used);
        (r, Ghost(u))
    }

    /// Bump-allocate in the active space.
    fn malloc_active(&mut self, num_words: usize) -> (r: Result<usize, HeapError>)
        requires
            old(self).wf(),
            num_words >= 1,
        ensures
            final(self).table() == old(self).table(),
            final(self).active_ix() == old(self).active_ix(),
            final(self).space(1 - final(self).active_ix()) == old(self).space(
                1 - old(self).active_ix(),
            ),
            final(self).active_space().mem() == old(self).active_space().mem(),
            final(self).active_space().wf(),
            old(self).active_space().next() + num_words > HEAP_SIZE ==> r == Err::<
                usize,
                HeapError,
            >(HeapError::OutOfMemory) && *final(self) == *old(self),
            old(self).active_space().next() + num_words <= HEAP_SIZE ==> r == Ok::<usize, HeapError>(
                old(self).active_space().next() as usize,
            ) && final(self).active_space().next() == old(self).active_space().next() + num_words,
    {
        if self.active_heap == 0 {
            self.space_0.malloc(num_words)
        } else {
            self.space_1.malloc(num_words)
        }
    }

    /// Allocate `num_words` fresh words in a fresh block, collecting (and
    /// retrying once) if a slot or the room is missing.
    pub fn malloc<T: Tracer>(&mut self, num_words: usize, tracer: &T) -> (r: Result<
        Pointer,
        HeapError,
    >)
        requires
            old(self).wf(),
            copies_headroom(old(self).table(), 2),
        ensures
            final(self).wf(),
            Self::malloc_rel(*old(self), *final(self), num_words, r),
    {
        if num_words == 0 {
            return Err(HeapError::ZeroSizeRequest);
        }
        let ghost pre = *old(self);
        let ghost mut u1: Seq<bool> = Seq::empty();
        let ghost mut mid1 = *self;
        let ghost mut collected_first = false;
        let avail_block = match self.block_info.available_block() {
            None => {
                let (_c, trace1) = self.collect(tracer);
                proof {
                    u1 = trace1@;
                    mid1 = *self;
                    collected_first = true;
                }
                match self.block_info.available_block() {
                    None => {
                        proof {
                            assert(Self::collect_rel(pre, *self, u1));
                            assert(Self::malloc_rel(
                                pre,
                                *self,
                                num_words,
                                Err(HeapError::OutOfBlocks),
                            ));
                        }
                        return Err(HeapError::OutOfBlocks);
                    },
                    Some(b) => b,
                }
            },
            Some(b) => b,
        };
        let ghost base = *self;
        let ghost mut u2: Seq<bool> = Seq::empty();
        let ghost mut alloc_base = *self;
        let ghost mut retried = false;
        let start = match self.malloc_active(num_words) {
            Ok(a) => a,
            Err(_) => {
                proof {
                    if collected_first {
                        Self::lemma_collect_headroom(pre, base, u1);
                    }
                }
                let (_c2, trace2) = self.collect(tracer);
                proof {
                    u2 = trace2@;
                    alloc_base = *self;
                    retried = true;
                }
                match self.malloc_active(num_words) {
                    Ok(a) => a,
                    Err(_) => {
                        proof {
                            let post = *self;
                            assert(post == alloc_base);
                            assert(Self::collect_rel(base, alloc_base, u2));
                            if collected_first {
                                assert(Self::collect_rel(pre, mid1, u1));
                                assert(is_first_free(mid1.table(), avail_block as int));
                                assert(Self::malloc_rel(
                                    pre,
                                    post,
                                    num_words,
                                    Err(HeapError::OutOfMemory),
                                ));
                            } else {
                                assert(base == pre);
                                assert(is_first_free(pre.table(), avail_block as int));
                                assert(Self::malloc_rel(
                                    pre,
                                    post,
                                    num_words,
                                    Err(HeapError::OutOfMemory),
                                ));
                            }
                        }
                        return Err(HeapError::OutOfMemory);
                    },
                }
            },
        };
        let info = BlockInfo { start, size: num_words, num_times_copied: 0 };
        self.block_info.set_entry(avail_block, Some(info));
        let ghost post = *self;
        let ghost p = Pointer { block_num: avail_block, size: num_words, offset: 0 };
        proof {
            if retried {
                // The slot chosen before the collection is still free after
                // it: a collection never fills a slot.
                assert(alloc_base.table()[avail_block as int] is None);
            }
            lemma_install_block(
                alloc_base.table(),
                avail_block as int,
                info,
                alloc_base.active_space().next(),
                HEAP_SIZE as int,
            );
            assert(Self::install_rel(alloc_base, post, num_words, avail_block as int, p));
            if !collected_first && !retried {
                assert(Self::malloc_rel(pre, post, num_words, Ok(p)));
            } else if !collected_first && retried {
                assert(Self::collect_rel(pre, alloc_base, u2));
                assert(is_first_free(pre.table(), avail_block as int));
                assert(Self::malloc_rel(pre, post, num_words, Ok(p)));
            } else if collected_first && !retried {
                assert(Self::collect_rel(pre, mid1, u1));
                assert(is_first_free(mid1.table(), avail_block as int));
                assert(Self::malloc_rel(pre, post, num_words, Ok(p)));
            } else {
                assert(Self::collect_rel(pre, mid1, u1));
                assert(Self::collect_rel(mid1, alloc_base, u2));
                assert(is_first_free(mid1.table(), avail_block as int));
                assert(Self::malloc_rel(pre, post, num_words, Ok(p)));
            }
        }
        Ok(Pointer::new(avail_block, num_words))
    }

    /// The no-strays check: between operations the inactive semi-space is
    /// empty. That holds by proof, so there is nothing to test at run
    /// time.
    pub fn assert_no_strays(&self)
        requires
            self.wf(),
        ensures
            self.inactive_space().next() == 0,
    {
    }
}

} // verus!

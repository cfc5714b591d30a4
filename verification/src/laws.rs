//! The library's general laws, stated and proved once over the models the
//! operation contracts use: pointer round trips, stability of stored words
//! across stores to other blocks and across collections, the compaction
//! equality, copy-count monotonicity, and the error cascade.

use vstd::prelude::*;
use crate::copying::CopyingHeap;
use crate::generational::tc_eq;
use crate::generational::tc_gt;
use crate::generational::tc_lt;
use crate::generational::GenerationalHeap;
use crate::model::any_block;
use crate::model::blk;
use crate::model::disjoint_blocks;
use crate::model::evac_entry;
use crate::model::is_live;
use crate::model::pruned;
use crate::model::sum_live_sizes;
use crate::model::sum_tc_between;
use crate::model::sum_used_min;
use crate::model::table_address;
use crate::model::used_live;
use crate::types::BlockInfo;
use crate::types::HeapError;
use crate::types::Pointer;

verus! {

/// Round trip: if `p` resolves to an address, then after a store of `v`
/// through `p` (the state change `store` promises on success), a load
/// through `p` returns exactly `v`.
pub proof fn law_round_trip<const HEAP_SIZE: usize, const MAX_BLOCKS: usize>(
    h1: CopyingHeap<HEAP_SIZE, MAX_BLOCKS>,
    h2: CopyingHeap<HEAP_SIZE, MAX_BLOCKS>,
    p: Pointer,
    v: u64,
)
    requires
        h1.wf(),
        h1.spec_address(p) is Ok,
        h2.table() == h1.table(),
        h2.active_ix() == h1.active_ix(),
        h2.active_space().mem() == h1.active_space().mem().update(
            h1.spec_address(p).unwrap() as int,
            v,
        ),
    ensures
        h2.spec_load(p) == Ok::<u64, HeapError>(v),
{
    let a = h1.spec_address(p).unwrap() as int;
    assert(is_live(h1.table(), p.block_num as int));
    assert(any_block()(blk(h1.table(), p.block_num as int)));
    assert(0 <= a < HEAP_SIZE);
}

/// Stores do not interfere: a store through `q` leaves every word of a
/// different live block unchanged, because live blocks never overlap.
pub proof fn law_store_preserves_other_blocks<const HEAP_SIZE: usize, const MAX_BLOCKS: usize>(
    h1: CopyingHeap<HEAP_SIZE, MAX_BLOCKS>,
    h2: CopyingHeap<HEAP_SIZE, MAX_BLOCKS>,
    q: Pointer,
    v: u64,
    p: Pointer,
)
    requires
        h1.wf(),
        h1.spec_address(q) is Ok,
        h1.spec_address(p) is Ok,
        p.block_num != q.block_num,
        h2.table() == h1.table(),
        h2.active_ix() == h1.active_ix(),
        h2.active_space().mem() == h1.active_space().mem().update(
            h1.spec_address(q).unwrap() as int,
            v,
        ),
    ensures
        h2.spec_load(p) == h1.spec_load(p),
{
    let t = h1.table();
    let bp = blk(t, p.block_num as int);
    let bq = blk(t, q.block_num as int);
    assert(is_live(t, p.block_num as int) && is_live(t, q.block_num as int));
    assert(any_block()(bp) && any_block()(bq));
    assert(disjoint_blocks(bp, bq));
    let ap = h1.spec_address(p).unwrap() as int;
    let aq = h1.spec_address(q).unwrap() as int;
    assert(ap != aq);
}

/// Pointer stability: a collection that keeps `p`'s block live relocates it
/// without changing the word `p` names, so a load through `p` after the
/// collection returns what it returned before.
pub proof fn law_collect_preserves_loads<const HEAP_SIZE: usize, const MAX_BLOCKS: usize>(
    pre: CopyingHeap<HEAP_SIZE, MAX_BLOCKS>,
    post: CopyingHeap<HEAP_SIZE, MAX_BLOCKS>,
    u: Seq<bool>,
    p: Pointer,
)
    requires
        pre.wf(),
        u.len() == MAX_BLOCKS,
        CopyingHeap::<HEAP_SIZE, MAX_BLOCKS>::collect_rel(pre, post, u),
        pre.spec_address(p) is Ok,
        u[p.block_num as int],
    ensures
        post.spec_address(p) is Ok,
        post.spec_load(p) == pre.spec_load(p),
{
    let t = pre.table();
    let b = p.block_num as int;
    assert(is_live(t, b));
    assert(used_live(t, u, b));
    assert(post.table()[b] == Some(evac_entry(t, u, 0, b)));
    crate::evacuate::lemma_evac_placement(t, u, 0, b, MAX_BLOCKS as int);
    assert forall|i: int|
        0 <= i < MAX_BLOCKS implies crate::model::used_min_copies_size(u, 0)(i, #[trigger] t[i])
        <= crate::model::live_size()(i, t[i]) by {}
    crate::model::lemma_sum_pointwise_le(
        t,
        crate::model::used_min_copies_size(u, 0),
        t,
        crate::model::live_size(),
        MAX_BLOCKS as int,
    );
    assert(any_block()(blk(t, b)));
    let nstart = sum_used_min(t, u, 0, b);
    assert(0 <= nstart && nstart + blk(t, b).size <= HEAP_SIZE);
    assert(post.active_space().mem()[nstart + p.offset] == pre.active_space().mem()[blk(t, b).start
        + p.offset]);
}

/// Compaction: immediately after a collection the live sizes sum exactly to
/// the new active cursor, and the heap is again well formed.
pub proof fn law_compaction<const HEAP_SIZE: usize, const MAX_BLOCKS: usize>(
    pre: CopyingHeap<HEAP_SIZE, MAX_BLOCKS>,
    post: CopyingHeap<HEAP_SIZE, MAX_BLOCKS>,
    u: Seq<bool>,
)
    requires
        pre.wf(),
        u.len() == MAX_BLOCKS,
        CopyingHeap::<HEAP_SIZE, MAX_BLOCKS>::collect_rel(pre, post, u),
        post.active_ix() == 0 || post.active_ix() == 1,
        post.space(0).wf(),
        post.space(1).wf(),
    ensures
        post.wf(),
        sum_live_sizes(post.table(), MAX_BLOCKS as int) == post.active_space().next(),
        post.inactive_space().next() == 0,
{
    CopyingHeap::<HEAP_SIZE, MAX_BLOCKS>::lemma_collect_preserves_wf(pre, post, u);
}

/// Promotion monotonicity, copying collector: every survivor of a
/// collection has been copied exactly once more than before.
pub proof fn law_copy_count_increment<const HEAP_SIZE: usize, const MAX_BLOCKS: usize>(
    pre: CopyingHeap<HEAP_SIZE, MAX_BLOCKS>,
    post: CopyingHeap<HEAP_SIZE, MAX_BLOCKS>,
    u: Seq<bool>,
)
    requires
        u.len() == MAX_BLOCKS,
        crate::model::copies_headroom(pre.table(), 1),
        CopyingHeap::<HEAP_SIZE, MAX_BLOCKS>::collect_rel(pre, post, u),
    ensures
        forall|i: int|
            used_live(pre.table(), u, i) ==> is_live(post.table(), i) && blk(
                post.table(),
                i,
            ).num_times_copied == blk(pre.table(), i).num_times_copied + 1,
        forall|i: int|
            0 <= i < MAX_BLOCKS && !used_live(pre.table(), u, i) ==> !is_live(post.table(), i),
{
    assert forall|i: int| used_live(pre.table(), u, i) implies is_live(post.table(), i) && blk(
        post.table(),
        i,
    ).num_times_copied == blk(pre.table(), i).num_times_copied + 1 by {
        assert(post.table()[i] == Some(evac_entry(pre.table(), u, 0, i)));
    }
}

/// Promotion monotonicity, generational collector: a young collection never
/// decreases a copy count, and raises each survivor's count by at most two
/// (two only for a block promoted just before the cascade).
pub proof fn law_generational_copy_counts<
    const HEAP_SIZE: usize,
    const MAX_BLOCKS: usize,
    const MAX_COPIES: usize,
>(
    pre: GenerationalHeap<HEAP_SIZE, MAX_BLOCKS, MAX_COPIES>,
    post: GenerationalHeap<HEAP_SIZE, MAX_BLOCKS, MAX_COPIES>,
    u: Seq<bool>,
)
    requires
        u.len() == MAX_BLOCKS,
        pre.table().len() == MAX_BLOCKS,
        crate::model::copies_headroom(pre.table(), 2),
        GenerationalHeap::<HEAP_SIZE, MAX_BLOCKS, MAX_COPIES>::collect0_rel(pre, post, u),
    ensures
        forall|i: int|
            #[trigger] used_live(pre.table(), u, i) ==> is_live(post.table(), i) && blk(
                pre.table(),
                i,
            ).num_times_copied <= blk(post.table(), i).num_times_copied <= blk(
                pre.table(),
                i,
            ).num_times_copied + 2,
{
    let tp = pruned(pre.table(), u);
    let mc = MAX_COPIES as int;
    assert forall|i: int| #[trigger] used_live(pre.table(), u, i) implies is_live(post.table(), i)
        && blk(
        pre.table(),
        i,
    ).num_times_copied <= blk(post.table(), i).num_times_copied <= blk(
        pre.table(),
        i,
    ).num_times_copied + 2 by {
        assert(is_live(tp, i) && tp[i] == pre.table()[i]);
        if blk(tp, i).num_times_copied < mc {
            assert(tc_lt(tp, mc, i));
        } else if blk(tp, i).num_times_copied == mc {
            assert(tc_eq(tp, mc, i));
        } else {
            assert(tc_gt(tp, mc, i));
        }
    }
}

/// Generational residency: in a well-formed generational heap every block
/// at or below the promotion threshold lies inside the active generation-0
/// space, and every block past it lies inside the active generation-1
/// space; after a young collection the generation-0 space is exactly full.
pub proof fn law_generational_residency<
    const HEAP_SIZE: usize,
    const MAX_BLOCKS: usize,
    const MAX_COPIES: usize,
>(h: GenerationalHeap<HEAP_SIZE, MAX_BLOCKS, MAX_COPIES>)
    requires
        h.wf(),
    ensures
        forall|i: int|
            is_live(h.table(), i) && (#[trigger] blk(h.table(), i)).num_times_copied <= MAX_COPIES
                ==> blk(h.table(), i).start + blk(h.table(), i).size
                <= h.active_gen0_space().next(),
        forall|i: int|
            is_live(h.table(), i) && (#[trigger] blk(h.table(), i)).num_times_copied > MAX_COPIES
                ==> blk(h.table(), i).start + blk(h.table(), i).size
                <= h.active_gen1_space().next(),
        sum_tc_between(h.table(), 0, MAX_COPIES + 1, MAX_BLOCKS as int)
            == h.active_gen0_space().next(),
{
    let mc = MAX_COPIES as int;
    assert forall|i: int|
        is_live(h.table(), i) && (#[trigger] blk(h.table(), i)).num_times_copied
            <= MAX_COPIES implies blk(h.table(), i).start + blk(h.table(), i).size
        <= h.active_gen0_space().next() by {
        assert(crate::model::young_block(mc)(blk(h.table(), i)));
    }
    assert forall|i: int|
        is_live(h.table(), i) && (#[trigger] blk(h.table(), i)).num_times_copied
            > MAX_COPIES implies blk(h.table(), i).start + blk(h.table(), i).size
        <= h.active_gen1_space().next() by {
        assert(crate::model::old_block(mc)(blk(h.table(), i)));
    }
}

/// Non-overlap: in a well-formed copying heap the address ranges of two
/// distinct live blocks never intersect.
pub proof fn law_live_ranges_disjoint<const HEAP_SIZE: usize, const MAX_BLOCKS: usize>(
    h: CopyingHeap<HEAP_SIZE, MAX_BLOCKS>,
    i: int,
    j: int,
)
    requires
        h.wf(),
        is_live(h.table(), i),
        is_live(h.table(), j),
        i != j,
    ensures
        disjoint_blocks(blk(h.table(), i), blk(h.table(), j)),
{
    assert(any_block()(blk(h.table(), i)));
    assert(any_block()(blk(h.table(), j)));
}

/// The error cascade of address resolution, in its documented priority:
/// an illegal block number outranks everything; an unallocated slot
/// outranks the offset check; an oversized offset outranks the length
/// check; a mismatched length is reported last.
pub proof fn law_error_cascade(t: Seq<Option<BlockInfo>>, max_blocks: int, p: Pointer)
    requires
        1 <= max_blocks,
    ensures
        p.block_num >= max_blocks ==> table_address(t, max_blocks, p) == Err::<usize, HeapError>(
            HeapError::IllegalBlock(p.block_num, (max_blocks - 1) as usize),
        ),
        p.block_num < max_blocks && !is_live(t, p.block_num as int) ==> table_address(
            t,
            max_blocks,
            p,
        ) == Err::<usize, HeapError>(HeapError::UnallocatedBlock(p.block_num)),
        p.block_num < max_blocks && is_live(t, p.block_num as int) && p.offset >= blk(
            t,
            p.block_num as int,
        ).size ==> table_address(t, max_blocks, p) == Err::<usize, HeapError>(
            HeapError::OffsetTooBig(p.offset, p.block_num, blk(t, p.block_num as int).size),
        ),
        p.block_num < max_blocks && is_live(t, p.block_num as int) && p.offset < blk(
            t,
            p.block_num as int,
        ).size && p.size != blk(t, p.block_num as int).size ==> table_address(t, max_blocks, p)
            == Err::<usize, HeapError>(
            HeapError::MisalignedPointer(p.size, blk(t, p.block_num as int).size, p.block_num),
        ),
        p.block_num < max_blocks && is_live(t, p.block_num as int) && p.offset < blk(
            t,
            p.block_num as int,
        ).size && p.size == blk(t, p.block_num as int).size ==> table_address(t, max_blocks, p)
            == Ok::<usize, HeapError>((blk(t, p.block_num as int).start + p.offset) as usize),
{
}

/// Round trip, generational heap: a store through `p` updates the word in
/// the space the residency rule selects, and a load through `p` then
/// returns exactly the stored value.
pub proof fn law_generational_round_trip<
    const HEAP_SIZE: usize,
    const MAX_BLOCKS: usize,
    const MAX_COPIES: usize,
>(
    h1: GenerationalHeap<HEAP_SIZE, MAX_BLOCKS, MAX_COPIES>,
    h2: GenerationalHeap<HEAP_SIZE, MAX_BLOCKS, MAX_COPIES>,
    p: Pointer,
    v: u64,
)
    requires
        h1.wf(),
        h1.spec_address(p) is Ok,
        h2.table() == h1.table(),
        h2.active_g0() == h1.active_g0(),
        h2.active_g1() == h1.active_g1(),
        h1.is_old_resident(p.block_num as int) ==> h2.active_gen1_space().mem()
            == h1.active_gen1_space().mem().update(h1.spec_address(p).unwrap() as int, v)
            && h2.active_gen0_space() == h1.active_gen0_space(),
        !h1.is_old_resident(p.block_num as int) ==> h2.active_gen0_space().mem()
            == h1.active_gen0_space().mem().update(h1.spec_address(p).unwrap() as int, v)
            && h2.active_gen1_space() == h1.active_gen1_space(),
    ensures
        h2.spec_load(p) == Ok::<u64, HeapError>(v),
{
    let a = h1.spec_address(p).unwrap() as int;
    let b = p.block_num as int;
    assert(is_live(h1.table(), b));
    if h1.is_old_resident(b) {
        assert(crate::model::old_block(MAX_COPIES as int)(blk(h1.table(), b)));
        assert(0 <= a < HEAP_SIZE);
    } else {
        assert(crate::model::young_block(MAX_COPIES as int)(blk(h1.table(), b)));
        assert(0 <= a < HEAP_SIZE);
    }
}

/// Pointer stability, generational heap: a young collection that keeps
/// `p`'s block live relocates it (or leaves it in place) without changing
/// the word `p` names, so a load through `p` afterwards returns what it
/// returned before.
pub proof fn law_generational_collect_preserves_loads<
    const HEAP_SIZE: usize,
    const MAX_BLOCKS: usize,
    const MAX_COPIES: usize,
>(
    pre: GenerationalHeap<HEAP_SIZE, MAX_BLOCKS, MAX_COPIES>,
    post: GenerationalHeap<HEAP_SIZE, MAX_BLOCKS, MAX_COPIES>,
    u: Seq<bool>,
    p: Pointer,
)
    requires
        pre.wf(),
        post.wf(),
        u.len() == MAX_BLOCKS,
        crate::model::copies_headroom(pre.table(), 2),
        GenerationalHeap::<HEAP_SIZE, MAX_BLOCKS, MAX_COPIES>::collect0_rel(pre, post, u),
        pre.spec_address(p) is Ok,
        u[p.block_num as int],
    ensures
        post.spec_address(p) is Ok,
        post.spec_load(p) == pre.spec_load(p),
{
    let mc = MAX_COPIES as int;
    let mb = MAX_BLOCKS as int;
    let tp = pruned(pre.table(), u);
    let b = p.block_num as int;
    let g1c = post.active_g1() != pre.active_g1();
    assert(is_live(pre.table(), b));
    assert(used_live(pre.table(), u, b));
    assert(is_live(tp, b) && tp[b] == pre.table()[b]);
    assert(blk(tp, b) == blk(pre.table(), b));
    let orig = blk(pre.table(), b);
    if pre.is_old_resident(b) {
        assert(crate::model::old_block(mc)(orig));
    } else {
        assert(crate::model::young_block(mc)(orig));
    }
    if orig.num_times_copied < mc {
        assert(tc_lt(tp, mc, b));
        assert(post.table()[b] == Some(crate::generational::young_evac_entry(tp, mc, b)));
        let fy = crate::model::tc_between_size(0, mc);
        assert forall|i: int, e: Option<BlockInfo>| #[trigger] fy(i, e) >= 0 by {}
        assert(crate::model::contrib_nonneg(fy));
        crate::model::lemma_sum_nonneg(tp, fy, b);
        assert(fy(b, tp[b]) == orig.size as int);
        crate::model::lemma_prefix_bound(tp, fy, b, mb);
        assert forall|i: int|
            0 <= i < mb implies fy(i, #[trigger] tp[i]) <= crate::model::tc_between_size(
            0,
            mc + 1,
        )(i, pre.table()[i]) by {}
        crate::model::lemma_sum_pointwise_le(
            tp,
            fy,
            pre.table(),
            crate::model::tc_between_size(0, mc + 1),
            mb,
        );
        let nstart = sum_tc_between(tp, 0, mc, b);
        assert(0 <= nstart && nstart + orig.size <= HEAP_SIZE);
        assert(blk(post.table(), b).start == nstart);
        assert(post.active_gen0_space().mem()[nstart + p.offset]
            == pre.active_gen0_space().mem()[orig.start + p.offset]);
        assert(!post.is_old_resident(b));
        assert(!pre.is_old_resident(b));
        assert(post.spec_load(p) == pre.spec_load(p));
    } else if orig.num_times_copied == mc {
        assert(tc_eq(tp, mc, b));
        if !g1c {
            let fp = crate::model::tc_between_size(mc, mc + 1);
            assert forall|i: int, e: Option<BlockInfo>| #[trigger] fp(i, e) >= 0 by {}
            assert(crate::model::contrib_nonneg(fp));
            crate::model::lemma_sum_nonneg(tp, fp, b);
            assert(fp(b, tp[b]) == orig.size as int);
            crate::model::lemma_prefix_bound(tp, fp, b, mb);
            let nstart = pre.active_gen1_space().next() + sum_tc_between(tp, mc, mc + 1, b);
            assert(0 <= nstart && nstart + orig.size <= post.active_gen1_space().next());
            assert(blk(post.table(), b).start == nstart);
            assert(post.active_gen1_space().mem()[nstart + p.offset]
                == pre.active_gen0_space().mem()[orig.start + p.offset]);
            assert(post.is_old_resident(b));
            assert(!pre.is_old_resident(b));
            assert(post.spec_load(p) == pre.spec_load(p));
        } else {
            let nb = blk(post.table(), b);
            assert(1 <= nb.size && nb.start + nb.size <= HEAP_SIZE);
            assert(post.active_gen1_space().mem()[nb.start + p.offset]
                == pre.active_gen0_space().mem()[orig.start + p.offset]);
            assert(post.is_old_resident(b));
            assert(!pre.is_old_resident(b));
            assert(post.spec_load(p) == pre.spec_load(p));
        }
    } else {
        assert(tc_gt(tp, mc, b));
        if !g1c {
            assert(post.table()[b] == tp[b]);
            assert(post.active_gen1_space().mem()[orig.start + p.offset]
                == pre.active_gen1_space().mem()[orig.start + p.offset]);
            assert(post.is_old_resident(b));
            assert(pre.is_old_resident(b));
            assert(post.spec_load(p) == pre.spec_load(p));
        } else {
            let nb = blk(post.table(), b);
            assert(1 <= nb.size && nb.start + nb.size <= HEAP_SIZE);
            assert(post.active_gen1_space().mem()[nb.start + p.offset]
                == pre.active_gen1_space().mem()[orig.start + p.offset]);
            assert(post.is_old_resident(b));
            assert(pre.is_old_resident(b));
            assert(post.spec_load(p) == pre.spec_load(p));
        }
    }
}

/// Stores do not interfere, generational heap: a store through `q` leaves
/// every word of a different live block unchanged — blocks in the same
/// residency class never overlap, and blocks in different classes live in
/// different spaces.
pub proof fn law_generational_store_preserves_other_blocks<
    const HEAP_SIZE: usize,
    const MAX_BLOCKS: usize,
    const MAX_COPIES: usize,
>(
    h1: GenerationalHeap<HEAP_SIZE, MAX_BLOCKS, MAX_COPIES>,
    h2: GenerationalHeap<HEAP_SIZE, MAX_BLOCKS, MAX_COPIES>,
    q: Pointer,
    v: u64,
    p: Pointer,
)
    requires
        h1.wf(),
        h1.spec_address(q) is Ok,
        h1.spec_address(p) is Ok,
        p.block_num != q.block_num,
        h2.table() == h1.table(),
        h2.active_g0() == h1.active_g0(),
        h2.active_g1() == h1.active_g1(),
        h1.is_old_resident(q.block_num as int) ==> h2.active_gen1_space().mem()
            == h1.active_gen1_space().mem().update(h1.spec_address(q).unwrap() as int, v)
            && h2.active_gen0_space() == h1.active_gen0_space(),
        !h1.is_old_resident(q.block_num as int) ==> h2.active_gen0_space().mem()
            == h1.active_gen0_space().mem().update(h1.spec_address(q).unwrap() as int, v)
            && h2.active_gen1_space() == h1.active_gen1_space(),
    ensures
        h2.spec_load(p) == h1.spec_load(p),
{
    let mc = MAX_COPIES as int;
    let t = h1.table();
    let bp = blk(t, p.block_num as int);
    let bq = blk(t, q.block_num as int);
    assert(is_live(t, p.block_num as int) && is_live(t, q.block_num as int));
    if h1.is_old_resident(p.block_num as int) {
        assert(crate::model::old_block(mc)(bp));
    } else {
        assert(crate::model::young_block(mc)(bp));
    }
    if h1.is_old_resident(q.block_num as int) {
        assert(crate::model::old_block(mc)(bq));
    } else {
        assert(crate::model::young_block(mc)(bq));
    }
    if h1.is_old_resident(p.block_num as int) == h1.is_old_resident(q.block_num as int) {
        assert(disjoint_blocks(bp, bq));
        let ap = h1.spec_address(p).unwrap() as int;
        let aq = h1.spec_address(q).unwrap() as int;
        assert(ap != aq);
    }
}

} // verus!

//! The mathematical vocabulary the heap contracts are written in: liveness
//! and geometry of block-table entries, size sums over entry classes, and
//! the exact address-resolution cascade.

use vstd::prelude::*;
use crate::types::BlockInfo;
use crate::types::HeapError;
use crate::types::Pointer;

verus! {

/// Entry `i` exists and holds a descriptor: the block is live.
pub open spec fn is_live(t: Seq<Option<BlockInfo>>, i: int) -> bool {
    0 <= i < t.len() && t[i] is Some
}

/// The descriptor of entry `i` (meaningful only when `is_live(t, i)`).
pub open spec fn blk(t: Seq<Option<BlockInfo>>, i: int) -> BlockInfo {
    t[i].unwrap()
}

/// Block `i` is live and the tracer's vector marks it reachable.
pub open spec fn used_live(t: Seq<Option<BlockInfo>>, used: Seq<bool>, i: int) -> bool {
    is_live(t, i) && 0 <= i < used.len() && used[i]
}

/// No slot is free.
pub open spec fn table_full(t: Seq<Option<BlockInfo>>) -> bool {
    forall|j: int| 0 <= j < t.len() ==> t[j] is Some
}

/// Slot `b` is the lowest-numbered free slot.
pub open spec fn is_first_free(t: Seq<Option<BlockInfo>>, b: int) -> bool {
    &&& 0 <= b < t.len()
    &&& t[b] is None
    &&& forall|j: int| 0 <= j < b ==> t[j] is Some
}

/// The two address ranges do not overlap.
pub open spec fn disjoint_blocks(a: BlockInfo, b: BlockInfo) -> bool {
    a.start + a.size <= b.start || b.start + b.size <= a.start
}

/// Every live block has positive size and fits below `bound`.
pub open spec fn table_shape(t: Seq<Option<BlockInfo>>, bound: int) -> bool {
    forall|i: int|
        is_live(t, i) ==> 1 <= (#[trigger] blk(t, i)).size && blk(t, i).start + blk(t, i).size
            <= bound
}

/// Every live block has copy-count headroom of at least `slack` below the
/// machine limit, so a collector can increment it.
pub open spec fn copies_headroom(t: Seq<Option<BlockInfo>>, slack: int) -> bool {
    forall|i: int|
        is_live(t, i) ==> (#[trigger] blk(t, i)).num_times_copied + slack <= usize::MAX
}

/// Every live block satisfying `f` lies entirely below the cursor `next`.
pub open spec fn hosted_where(
    t: Seq<Option<BlockInfo>>,
    f: spec_fn(BlockInfo) -> bool,
    next: int,
) -> bool {
    forall|i: int|
        is_live(t, i) && f(#[trigger] blk(t, i)) ==> blk(t, i).start + blk(t, i).size <= next
}

/// Live blocks satisfying `f` are pairwise disjoint.
pub open spec fn disjoint_where(t: Seq<Option<BlockInfo>>, f: spec_fn(BlockInfo) -> bool) -> bool {
    forall|i: int, j: int|
        is_live(t, i) && is_live(t, j) && i != j && f(#[trigger] blk(t, i)) && f(
            #[trigger] blk(t, j),
        ) ==> disjoint_blocks(blk(t, i), blk(t, j))
}

/// Class filter: any block at all.
pub open spec fn any_block() -> spec_fn(BlockInfo) -> bool {
    |b: BlockInfo| true
}

/// Class filter: a block still resident in generation 0.
pub open spec fn young_block(max_copies: int) -> spec_fn(BlockInfo) -> bool {
    |b: BlockInfo| b.num_times_copied <= max_copies
}

/// Class filter: a block promoted to generation 1.
pub open spec fn old_block(max_copies: int) -> spec_fn(BlockInfo) -> bool {
    |b: BlockInfo| b.num_times_copied > max_copies
}

/// Sum of a per-entry contribution over the first `n` entries.
pub open spec fn sum_contrib(
    t: Seq<Option<BlockInfo>>,
    f: spec_fn(int, Option<BlockInfo>) -> int,
    n: int,
) -> int
    decreases n,
{
    if n <= 0 {
        0
    } else {
        sum_contrib(t, f, n - 1) + f(n - 1, t[n - 1])
    }
}

/// The size of an entry, zero when the slot is empty.
pub open spec fn size_of(e: Option<BlockInfo>) -> int {
    match e {
        Option::Some(b) => b.size as int,
        Option::None => 0,
    }
}

/// Contribution: the size of every live entry.
pub open spec fn live_size() -> spec_fn(int, Option<BlockInfo>) -> int {
    |i: int, e: Option<BlockInfo>| size_of(e)
}

/// Contribution: the size of entries that are live, marked used, and
/// already copied at least `min` times.
pub open spec fn used_min_copies_size(used: Seq<bool>, min: int) -> spec_fn(
    int,
    Option<BlockInfo>,
) -> int {
    |i: int, e: Option<BlockInfo>|
        if 0 <= i < used.len() && used[i] && e is Some && e.unwrap().num_times_copied >= min {
            e.unwrap().size as int
        } else {
            0
        }
}

/// Contribution: the size of live entries with copy count in `[lo, hi)`.
pub open spec fn tc_between_size(lo: int, hi: int) -> spec_fn(int, Option<BlockInfo>) -> int {
    |i: int, e: Option<BlockInfo>|
        if e is Some && lo <= e.unwrap().num_times_copied < hi {
            e.unwrap().size as int
        } else {
            0
        }
}

/// Contribution: the size of live entries copied at least `lo` times.
pub open spec fn tc_at_least_size(lo: int) -> spec_fn(int, Option<BlockInfo>) -> int {
    |i: int, e: Option<BlockInfo>|
        if e is Some && e.unwrap().num_times_copied >= lo {
            e.unwrap().size as int
        } else {
            0
        }
}

/// Total size of the live blocks among the first `n` entries.
pub open spec fn sum_live_sizes(t: Seq<Option<BlockInfo>>, n: int) -> int {
    sum_contrib(t, live_size(), n)
}

/// Total size of used live blocks with copy count at least `min`.
pub open spec fn sum_used_min(
    t: Seq<Option<BlockInfo>>,
    used: Seq<bool>,
    min: int,
    n: int,
) -> int {
    sum_contrib(t, used_min_copies_size(used, min), n)
}

/// Total size of live blocks with copy count in `[lo, hi)`.
pub open spec fn sum_tc_between(t: Seq<Option<BlockInfo>>, lo: int, hi: int, n: int) -> int {
    sum_contrib(t, tc_between_size(lo, hi), n)
}

/// Total size of live blocks with copy count at least `lo`.
pub open spec fn sum_tc_at_least(t: Seq<Option<BlockInfo>>, lo: int, n: int) -> int {
    sum_contrib(t, tc_at_least_size(lo), n)
}

/// An evacuation that takes used blocks copied at least `min` times installs
/// this descriptor for block `i`: compacted at the running sum of the sizes
/// of the matching blocks before it, with the copy count bumped.
pub open spec fn evac_match(t: Seq<Option<BlockInfo>>, used: Seq<bool>, min: int, i: int) -> bool {
    used_live(t, used, i) && blk(t, i).num_times_copied >= min
}

pub open spec fn evac_entry(t: Seq<Option<BlockInfo>>, used: Seq<bool>, min: int, i: int) -> BlockInfo {
    BlockInfo {
        start: sum_used_min(t, used, min, i) as usize,
        size: blk(t, i).size,
        num_times_copied: (blk(t, i).num_times_copied + 1) as usize,
    }
}

/// The words a descriptor denotes within a space's memory.
pub open spec fn block_words(mem: Seq<u64>, b: BlockInfo) -> Seq<u64> {
    mem.subrange(b.start as int, b.start + b.size)
}

/// The exact address-resolution cascade of the block table: illegal block
/// number, then unallocated slot, then oversized offset, then mismatched
/// pointer length; only then the resolved address.
pub open spec fn table_address(
    t: Seq<Option<BlockInfo>>,
    max_blocks: int,
    p: Pointer,
) -> Result<usize, HeapError> {
    if p.block_num >= max_blocks {
        Err(HeapError::IllegalBlock(p.block_num, (max_blocks - 1) as usize))
    } else if !is_live(t, p.block_num as int) {
        Err(HeapError::UnallocatedBlock(p.block_num))
    } else if p.offset >= blk(t, p.block_num as int).size {
        Err(HeapError::OffsetTooBig(p.offset, p.block_num, blk(t, p.block_num as int).size))
    } else if p.size != blk(t, p.block_num as int).size {
        Err(HeapError::MisalignedPointer(p.size, blk(t, p.block_num as int).size, p.block_num))
    } else {
        Ok((blk(t, p.block_num as int).start + p.offset) as usize)
    }
}

/// All contributions of `f` are non-negative.
pub open spec fn contrib_nonneg(f: spec_fn(int, Option<BlockInfo>) -> int) -> bool {
    forall|i: int, e: Option<BlockInfo>| #[trigger] f(i, e) >= 0
}

pub proof fn lemma_sum_nonneg(
    t: Seq<Option<BlockInfo>>,
    f: spec_fn(int, Option<BlockInfo>) -> int,
    n: int,
)
    requires
        contrib_nonneg(f),
    ensures
        sum_contrib(t, f, n) >= 0,
    decreases n,
{
    if n > 0 {
        lemma_sum_nonneg(t, f, n - 1);
    }
}

/// With non-negative contributions the sum grows with its range.
pub proof fn lemma_sum_mono(
    t: Seq<Option<BlockInfo>>,
    f: spec_fn(int, Option<BlockInfo>) -> int,
    n1: int,
    n2: int,
)
    requires
        contrib_nonneg(f),
        n1 <= n2,
    ensures
        sum_contrib(t, f, n1) <= sum_contrib(t, f, n2),
    decreases n2 - n1,
{
    if n1 < n2 {
        lemma_sum_mono(t, f, n1, n2 - 1);
    }
}

/// Pointwise dominated contributions give a dominated sum.
pub proof fn lemma_sum_pointwise_le(
    t1: Seq<Option<BlockInfo>>,
    f1: spec_fn(int, Option<BlockInfo>) -> int,
    t2: Seq<Option<BlockInfo>>,
    f2: spec_fn(int, Option<BlockInfo>) -> int,
    n: int,
)
    requires
        forall|i: int| 0 <= i < n ==> f1(i, #[trigger] t1[i]) <= f2(i, t2[i]),
    ensures
        sum_contrib(t1, f1, n) <= sum_contrib(t2, f2, n),
    decreases n,
{
    if n > 0 {
        lemma_sum_pointwise_le(t1, f1, t2, f2, n - 1);
    }
}

/// Pointwise equal contributions give equal sums.
pub proof fn lemma_sum_pointwise_eq(
    t1: Seq<Option<BlockInfo>>,
    f1: spec_fn(int, Option<BlockInfo>) -> int,
    t2: Seq<Option<BlockInfo>>,
    f2: spec_fn(int, Option<BlockInfo>) -> int,
    n: int,
)
    requires
        forall|i: int| 0 <= i < n ==> f1(i, #[trigger] t1[i]) == f2(i, t2[i]),
    ensures
        sum_contrib(t1, f1, n) == sum_contrib(t2, f2, n),
    decreases n,
{
    if n > 0 {
        lemma_sum_pointwise_eq(t1, f1, t2, f2, n - 1);
    }
}

/// The table after a tracer report `used` has pruned the dead slots.
pub open spec fn pruned(t: Seq<Option<BlockInfo>>, used: Seq<bool>) -> Seq<Option<BlockInfo>> {
    Seq::new(t.len(), |i: int| if 0 <= i < used.len() && used[i] { t[i] } else { None })
}

/// A pointwise split of one contribution into two gives a split sum.
pub proof fn lemma_sum_add(
    t: Seq<Option<BlockInfo>>,
    f: spec_fn(int, Option<BlockInfo>) -> int,
    g: spec_fn(int, Option<BlockInfo>) -> int,
    h: spec_fn(int, Option<BlockInfo>) -> int,
    n: int,
)
    requires
        forall|i: int| 0 <= i < n ==> f(i, #[trigger] t[i]) == g(i, t[i]) + h(i, t[i]),
    ensures
        sum_contrib(t, f, n) == sum_contrib(t, g, n) + sum_contrib(t, h, n),
    decreases n,
{
    if n > 0 {
        lemma_sum_add(t, f, g, h, n - 1);
    }
}

/// A prefix sum plus the entry at its boundary stays below any later sum.
pub proof fn lemma_prefix_bound(
    t: Seq<Option<BlockInfo>>,
    f: spec_fn(int, Option<BlockInfo>) -> int,
    i: int,
    n: int,
)
    requires
        contrib_nonneg(f),
        0 <= i < n,
    ensures
        sum_contrib(t, f, i) >= 0,
        sum_contrib(t, f, i) + f(i, t[i]) <= sum_contrib(t, f, n),
{
    lemma_sum_nonneg(t, f, i);
    assert(sum_contrib(t, f, i + 1) == sum_contrib(t, f, i) + f(i, t[i]));
    lemma_sum_mono(t, f, i + 1, n);
}

/// A sum of all-zero contributions is zero.
pub proof fn lemma_sum_zero(
    t: Seq<Option<BlockInfo>>,
    f: spec_fn(int, Option<BlockInfo>) -> int,
    n: int,
)
    requires
        forall|i: int| 0 <= i < n ==> f(i, #[trigger] t[i]) == 0,
    ensures
        sum_contrib(t, f, n) == 0,
    decreases n,
{
    if n > 0 {
        lemma_sum_zero(t, f, n - 1);
    }
}

/// Updating one entry shifts the sum by that entry's contribution change.
pub proof fn lemma_sum_update(
    t: Seq<Option<BlockInfo>>,
    f: spec_fn(int, Option<BlockInfo>) -> int,
    n: int,
    j: int,
    e: Option<BlockInfo>,
)
    requires
        0 <= j < t.len(),
        n <= t.len(),
    ensures
        sum_contrib(t.update(j, e), f, n) == sum_contrib(t, f, n) + if j < n {
            f(j, e) - f(j, t[j])
        } else {
            0
        },
    decreases n,
{
    if n > 0 {
        lemma_sum_update(t, f, n - 1, j, e);
        if j == n - 1 {
            assert(t.update(j, e)[n - 1] == e);
        } else {
            assert(t.update(j, e)[n - 1] == t[n - 1]);
        }
    }
}

/// Installing a fresh block at the bump cursor of a space that already
/// hosts all live blocks keeps the table well-shaped, hosted, disjoint, and
/// keeps the live sizes summing exactly to the (advanced) cursor.
pub proof fn lemma_install_block(
    t: Seq<Option<BlockInfo>>,
    b: int,
    info: BlockInfo,
    next: int,
    heap_size: int,
)
    requires
        0 <= b < t.len(),
        t[b] is None,
        table_shape(t, heap_size),
        hosted_where(t, any_block(), next),
        disjoint_where(t, any_block()),
        sum_live_sizes(t, t.len() as int) == next,
        info.start == next,
        1 <= info.size,
        next + info.size <= heap_size,
    ensures
        table_shape(t.update(b, Some(info)), heap_size),
        hosted_where(t.update(b, Some(info)), any_block(), next + info.size),
        disjoint_where(t.update(b, Some(info)), any_block()),
        sum_live_sizes(t.update(b, Some(info)), t.len() as int) == next + info.size,
{
    let t1 = t.update(b, Some(info));
    lemma_sum_update(t, live_size(), t.len() as int, b, Some(info));
    assert(live_size()(b, t[b]) == 0);
    assert(live_size()(b, Some(info)) == info.size as int);
    assert forall|i: int| is_live(t1, i) implies 1 <= (#[trigger] blk(t1, i)).size && blk(
        t1,
        i,
    ).start + blk(t1, i).size <= heap_size && blk(t1, i).start + blk(t1, i).size <= next
        + info.size by {
        if i != b {
            assert(is_live(t, i));
            assert(blk(t1, i) == blk(t, i));
            assert(any_block()(blk(t, i)));
        }
    }
    assert forall|i: int, j: int|
        is_live(t1, i) && is_live(t1, j) && i != j && any_block()(#[trigger] blk(t1, i))
            && any_block()(#[trigger] blk(t1, j)) implies disjoint_blocks(
        blk(t1, i),
        blk(t1, j),
    ) by {
        if i != b && j != b {
            assert(is_live(t, i) && is_live(t, j));
            assert(blk(t1, i) == blk(t, i) && blk(t1, j) == blk(t, j));
            assert(any_block()(blk(t, i)) && any_block()(blk(t, j)));
        } else if i == b {
            assert(is_live(t, j));
            assert(any_block()(blk(t, j)));
            assert(blk(t, j).start + blk(t, j).size <= next);
        } else {
            assert(is_live(t, i));
            assert(any_block()(blk(t, i)));
            assert(blk(t, i).start + blk(t, i).size <= next);
        }
    }
}

} // verus!

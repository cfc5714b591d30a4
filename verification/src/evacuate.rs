//! The evacuation loop shared by the copying collector and the old-space
//! (generation 1) collector: walk the table in ascending index order, copy
//! every used block whose copy count is at least a threshold into an empty
//! destination space, and install the returned descriptors. Because the
//! destination is bump-allocated from zero, the result is perfectly
//! compacted: each evacuated block lands at the running sum of the sizes of
//! the matching blocks before it.

use vstd::prelude::*;
use crate::model::blk;
use crate::model::contrib_nonneg;
use crate::model::evac_entry;
use crate::model::evac_match;
use crate::model::lemma_sum_mono;
use crate::model::lemma_sum_nonneg;
use crate::model::sum_used_min;
use crate::model::table_shape;
use crate::model::used_min_copies_size;
use crate::ram::block_words_match;
use crate::ram::RamHeap;
use crate::table::BlockTable;
use crate::types::BlockInfo;

verus! {

/// Evacuate every used block copied at least `min_copies` times from `src`
/// into the empty space `dest`, compacting them in ascending index order.
/// Entries of blocks that do not match are left untouched.
#[verifier::loop_isolation(false)]
pub(crate) fn evacuate_used_at_least<const HEAP_SIZE: usize, const MAX_BLOCKS: usize>(
    block_info: &mut BlockTable<MAX_BLOCKS>,
    used: &Vec<bool>,
    min_copies: usize,
    src: &RamHeap<HEAP_SIZE>,
    dest: &mut RamHeap<HEAP_SIZE>,
)
    requires
        old(block_info)@.len() == MAX_BLOCKS,
        used@.len() == MAX_BLOCKS,
        src.wf(),
        old(dest).wf(),
        old(dest).next() == 0,
        table_shape(old(block_info)@, HEAP_SIZE as int),
        forall|i: int|
            evac_match(old(block_info)@, used@, min_copies as int, i) ==> blk(
                old(block_info)@,
                i,
            ).num_times_copied < usize::MAX,
        forall|i: int|
            evac_match(old(block_info)@, used@, min_copies as int, i) ==> blk(
                old(block_info)@,
                i,
            ).start + blk(old(block_info)@, i).size <= src.next(),
        sum_used_min(old(block_info)@, used@, min_copies as int, MAX_BLOCKS as int) <= HEAP_SIZE,
    ensures
        final(block_info)@.len() == MAX_BLOCKS,
        forall|i: int|
            0 <= i < MAX_BLOCKS && evac_match(old(block_info)@, used@, min_copies as int, i)
                ==> final(block_info)@[i] == Some(
                evac_entry(old(block_info)@, used@, min_copies as int, i),
            ),
        forall|i: int|
            0 <= i < MAX_BLOCKS && !evac_match(old(block_info)@, used@, min_copies as int, i)
                ==> final(block_info)@[i] == old(block_info)@[i],
        final(dest).wf(),
        final(dest).next() == sum_used_min(
            old(block_info)@,
            used@,
            min_copies as int,
            MAX_BLOCKS as int,
        ),
        forall|i: int|
            evac_match(old(block_info)@, used@, min_copies as int, i) ==> block_words_match(
                final(dest).mem(),
                sum_used_min(old(block_info)@, used@, min_copies as int, i),
                src.mem(),
                blk(old(block_info)@, i).start as int,
                blk(old(block_info)@, i).size as int,
            ),
{
    let ghost t = old(block_info)@;
    let ghost u = used@;
    let ghost m = min_copies as int;
    let ghost f = used_min_copies_size(u, m);
    proof {
        assert forall|i: int, e: Option<BlockInfo>| #[trigger] f(i, e) >= 0 by {}
        assert(contrib_nonneg(f));
    }
    let mut b: usize = 0;
    while b < MAX_BLOCKS
        invariant
            b <= MAX_BLOCKS,
            block_info@.len() == MAX_BLOCKS,
            forall|i: int| b <= i < MAX_BLOCKS ==> block_info@[i] == t[i],
            forall|i: int|
                0 <= i < b && evac_match(t, u, m, i) ==> block_info@[i] == Some(
                    evac_entry(t, u, m, i),
                ),
            forall|i: int|
                0 <= i < b && !evac_match(t, u, m, i) ==> block_info@[i] == t[i],
            dest.wf(),
            dest.next() == sum_used_min(t, u, m, b as int),
            forall|i: int|
                0 <= i < b && evac_match(t, u, m, i) ==> block_words_match(
                    dest.mem(),
                    sum_used_min(t, u, m, i),
                    src.mem(),
                    blk(t, i).start as int,
                    blk(t, i).size as int,
                ),
        decreases MAX_BLOCKS - b,
    {
        let entry = block_info.get(b);
        let is_match = used[b] && match entry {
            Some(info) => info.num_times_copied >= min_copies,
            None => false,
        };
        if is_match {
            let info = match entry {
                Some(info) => info,
                None => {
                    proof {
                        assert(false);
                    }
                    BlockInfo { start: 0, size: 0, num_times_copied: 0 }
                },
            };
            proof {
                assert(evac_match(t, u, m, b as int));
                assert(f(b as int, t[b as int]) == info.size as int);
                assert(sum_used_min(t, u, m, b as int + 1) == sum_used_min(t, u, m, b as int) + f(
                    b as int,
                    t[b as int],
                ));
                lemma_sum_mono(t, f, b as int + 1, MAX_BLOCKS as int);
                lemma_sum_nonneg(t, f, b as int);
                assert(dest.next() + info.size <= HEAP_SIZE);
            }
            let ghost dest_before = *dest;
            let new_info = match src.copy(&info, dest) {
                Ok(bi) => bi,
                Err(_) => {
                    proof {
                        assert(false);
                    }
                    info
                },
            };
            proof {
                assert(new_info == evac_entry(t, u, m, b as int));
            }
            block_info.set_entry(b, Some(new_info));
            proof {
                // Earlier evacuated blocks sit below the old cursor, so the
                // new copy did not disturb them.
                assert forall|i: int| 0 <= i < b && evac_match(t, u, m, i) implies block_words_match(
                    dest.mem(),
                    sum_used_min(t, u, m, i),
                    src.mem(),
                    blk(t, i).start as int,
                    blk(t, i).size as int,
                ) by {
                    lemma_sum_nonneg(t, f, i);
                    assert(f(i, t[i]) == blk(t, i).size as int);
                    assert(sum_used_min(t, u, m, i + 1) == sum_used_min(t, u, m, i) + f(i, t[i]));
                    lemma_sum_mono(t, f, i + 1, b as int);
                    assert forall|a: int|
                        sum_used_min(t, u, m, i) <= a < sum_used_min(t, u, m, i) + blk(
                            t,
                            i,
                        ).size implies #[trigger] dest.mem()[a] == src.mem()[blk(t, i).start + (a
                        - sum_used_min(t, u, m, i))] by {
                        assert(a < dest_before.next());
                        assert(dest.mem()[a] == dest_before.mem()[a]);
                    }
                }
            }
        } else {
            proof {
                assert(!evac_match(t, u, m, b as int));
                assert(f(b as int, t[b as int]) == 0);
                assert(sum_used_min(t, u, m, b as int + 1) == sum_used_min(t, u, m, b as int));
            }
        }
        b = b + 1;
    }
}

/// The descriptor an evacuation installs is placed compactly: it ends no
/// later than the final cursor, and distinct evacuated blocks never overlap.
pub proof fn lemma_evac_placement(
    t: Seq<Option<BlockInfo>>,
    u: Seq<bool>,
    m: int,
    i: int,
    n: int,
)
    requires
        evac_match(t, u, m, i),
        i < n <= t.len(),
    ensures
        sum_used_min(t, u, m, i) >= 0,
        sum_used_min(t, u, m, i) + blk(t, i).size <= sum_used_min(t, u, m, n),
{
    let f = used_min_copies_size(u, m);
    assert forall|k: int, e: Option<BlockInfo>| #[trigger] f(k, e) >= 0 by {}
    assert(contrib_nonneg(f));
    lemma_sum_nonneg(t, f, i);
    assert(f(i, t[i]) == blk(t, i).size as int);
    assert(sum_used_min(t, u, m, i + 1) == sum_used_min(t, u, m, i) + f(i, t[i]));
    lemma_sum_mono(t, f, i + 1, n);
}

} // verus!

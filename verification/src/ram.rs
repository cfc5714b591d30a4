//! `RamHeap`: a fixed-capacity, word-addressed bump region. It knows nothing
//! about blocks or collection; it only hands out contiguous word runs and
//! reads and writes single words.

use vstd::prelude::*;
use crate::types::BlockInfo;
use crate::types::HeapError;

verus! {

/// A bump region of `HEAP_SIZE` 64-bit words.
///
/// `next_address` is the high-water mark: the number of words handed out
/// since the last clear. Loads are checked against the high-water mark (a
/// word must have been reserved to be readable); stores are checked against
/// the capacity (any reserved slot may be rewritten).
pub struct RamHeap<const HEAP_SIZE: usize> {
    heap: Vec<u64>,
    next_address: usize,
}

impl<const HEAP_SIZE: usize> RamHeap<HEAP_SIZE> {
    /// The stored words.
    pub closed spec fn mem(&self) -> Seq<u64> {
        self.heap@
    }

    /// The bump cursor (high-water mark).
    pub closed spec fn next(&self) -> int {
        self.next_address as int
    }

    pub open spec fn wf(&self) -> bool {
        &&& self.mem().len() == HEAP_SIZE
        &&& 0 <= self.next() <= HEAP_SIZE
    }

    /// What a load of `address` returns.
    pub open spec fn spec_load(&self, address: usize) -> Result<u64, HeapError> {
        if address < self.next() {
            Ok(self.mem()[address as int])
        } else {
            Err(HeapError::IllegalAddress(address, self.next() as usize))
        }
    }

    pub fn new() -> (r: Self)
        ensures
            r.wf(),
            r.next() == 0,
            forall|a: int| 0 <= a < HEAP_SIZE ==> r.mem()[a] == 0,
    {
        let mut heap: Vec<u64> = Vec::new();
        while heap.len() < HEAP_SIZE
            invariant
                heap@.len() <= HEAP_SIZE,
                forall|a: int| 0 <= a < heap@.len() ==> heap@[a] == 0,
            decreases HEAP_SIZE - heap.len(),
        {
            heap.push(0);
        }
        RamHeap { heap, next_address: 0 }
    }

    /// Reset the cursor; the words left behind are garbage.
    pub fn clear(&mut self)
        ensures
            final(self).next() == 0,
            final(self).mem() == old(self).mem(),
    {
        self.next_address = 0;
    }

    /// Read the word at `address`, which must lie below the high-water mark.
    pub fn load(&self, address: usize) -> (r: Result<u64, HeapError>)
        requires
            self.wf(),
        ensures
            r == self.spec_load(address),
    {
        if address >= self.next_address {
            Err(HeapError::IllegalAddress(address, self.next_address))
        } else {
            Ok(self.heap[address])
        }
    }

    /// Write the word at `address`, which must lie below the capacity.
    pub fn store(&mut self, address: usize, value: u64) -> (r: Result<(), HeapError>)
        requires
            old(self).wf(),
        ensures
            final(self).wf(),
            final(self).next() == old(self).next(),
            address < HEAP_SIZE ==> r is Ok && final(self).mem() == old(self).mem().update(
                address as int,
                value,
            ),
            address >= HEAP_SIZE ==> r == Err::<(), HeapError>(
                HeapError::IllegalAddress(address, HEAP_SIZE),
            ) && *final(self) == *old(self),
    {
        if address >= HEAP_SIZE {
            Err(HeapError::IllegalAddress(address, HEAP_SIZE))
        } else {
            self.heap.set(address, value);
            Ok(())
        }
    }

    /// Reserve `num_words` fresh words and return the first address.
    pub fn malloc(&mut self, num_words: usize) -> (r: Result<usize, HeapError>)
        requires
            old(self).wf(),
        ensures
            final(self).wf(),
            final(self).mem() == old(self).mem(),
            num_words == 0 ==> r == Err::<usize, HeapError>(HeapError::ZeroSizeRequest) && *final(self) == *old(self),
            num_words >= 1 && old(self).next() + num_words > HEAP_SIZE ==> r == Err::<
                usize,
                HeapError,
            >(HeapError::OutOfMemory) && *final(self) == *old(self),
            num_words >= 1 && old(self).next() + num_words <= HEAP_SIZE ==> r == Ok::<
                usize,
                HeapError,
            >(old(self).next() as usize) && final(self).next() == old(self).next() + num_words,
    {
        if num_words == 0 {
            return Err(HeapError::ZeroSizeRequest);
        }
        if num_words > HEAP_SIZE - self.next_address {
            return Err(HeapError::OutOfMemory);
        }
        let old_next = self.next_address;
        self.next_address = self.next_address + num_words;
        Ok(old_next)
    }

    /// Relocate the block `src` describes out of this space into `dest`:
    /// reserve a fresh run there, copy the words, and return the descriptor
    /// of the new location with the copy count bumped.
    pub fn copy(&self, src: &BlockInfo, dest: &mut Self) -> (r: Result<BlockInfo, HeapError>)
        requires
            self.wf(),
            old(dest).wf(),
            1 <= src.size,
            src.start + src.size <= self.next(),
            src.num_times_copied < usize::MAX,
        ensures
            final(dest).wf(),
            final(dest).next() >= old(dest).next(),
            old(dest).next() + src.size > HEAP_SIZE ==> r == Err::<BlockInfo, HeapError>(
                HeapError::OutOfMemory,
            ) && *final(dest) == *old(dest),
            old(dest).next() + src.size <= HEAP_SIZE ==> {
                &&& r == Ok::<BlockInfo, HeapError>(
                    BlockInfo {
                        start: old(dest).next() as usize,
                        size: src.size,
                        num_times_copied: (src.num_times_copied + 1) as usize,
                    },
                )
                &&& final(dest).next() == old(dest).next() + src.size
                &&& forall|a: int|
                    (0 <= a < old(dest).next() || old(dest).next() + src.size <= a < HEAP_SIZE)
                        ==> final(dest).mem()[a] == old(dest).mem()[a]
                &&& block_words_match(final(dest).mem(), old(dest).next(), self.mem(), src.start as int, src.size as int)
            },
    {
        let d = match dest.malloc(src.size) {
            Err(e) => {
                return Err(e);
            },
            Ok(ad) => ad,
        };
        let mut i: usize = 0;
        while i < src.size
            invariant
                self.wf(),
                dest.wf(),
                i <= src.size,
                1 <= src.size,
                src.start + src.size <= self.next(),
                d == old(dest).next(),
                d + src.size <= HEAP_SIZE,
                dest.next() == d + src.size,
                forall|a: int|
                    (0 <= a < d || d + src.size <= a < HEAP_SIZE) ==> dest.mem()[a] == old(dest).mem()[a],
                forall|a: int|
                    d <= a < d + i ==> #[trigger] dest.mem()[a] == self.mem()[src.start + (a
                        - d)],
            decreases src.size - i,
        {
            let value = match self.load(src.start + i) {
                Ok(v) => v,
                Err(e) => {
                    return Err(e);
                },
            };
            match dest.store(d + i, value) {
                Ok(()) => {},
                Err(e) => {
                    return Err(e);
                },
            }
            i = i + 1;
        }
        proof {
            assert(block_words_match(
                dest.mem(),
                d as int,
                self.mem(),
                src.start as int,
                src.size as int,
            ));
        }
        Ok(
            BlockInfo {
                start: d,
                size: src.size,
                num_times_copied: src.num_times_copied + 1,
            },
        )
    }
}

/// The `size` words at `dest_start` in `dest_mem` equal the `size` words at
/// `src_start` in `src_mem`.
pub open spec fn block_words_match(
    dest_mem: Seq<u64>,
    dest_start: int,
    src_mem: Seq<u64>,
    src_start: int,
    size: int,
) -> bool {
    forall|a: int|
        dest_start <= a < dest_start + size ==> #[trigger] dest_mem[a] == src_mem[src_start + (a
            - dest_start)]
}

} // verus!

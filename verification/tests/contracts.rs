use gc_heaps::BlockInfo;
use gc_heaps::BlockTable;
use gc_heaps::CopyingHeap;
use gc_heaps::GenerationalHeap;
use gc_heaps::HeapError;
use gc_heaps::OnceAndDoneHeap;
use gc_heaps::Pointer;
use gc_heaps::RamHeap;
use gc_heaps::Tracer;
use gc_heaps::independent_elements_from;

/// A tracer that reports exactly the block indices it was told to keep.
struct KeepTracer {
    keep: Vec<usize>,
}

impl Tracer for KeepTracer {
    fn trace(&self, live: &mut Vec<bool>) {
        for b in self.keep.iter() {
            if *b < live.len() {
                live[*b] = true;
            }
        }
    }
}

#[test]
fn ram_bump_addresses() {
    let mut ram = RamHeap::<10>::new();
    assert_eq!(ram.malloc(3).unwrap(), 0);
    assert_eq!(ram.malloc(4).unwrap(), 3);
    assert_eq!(ram.malloc(4), Err(HeapError::OutOfMemory));
    assert_eq!(ram.malloc(0), Err(HeapError::ZeroSizeRequest));
    assert_eq!(ram.malloc(3).unwrap(), 7);
    assert_eq!(ram.malloc(1), Err(HeapError::OutOfMemory));
    ram.clear();
    assert_eq!(ram.malloc(10).unwrap(), 0);
}

#[test]
fn ram_load_store_round_trip() {
    let mut ram = RamHeap::<8>::new();
    ram.malloc(8).unwrap();
    for a in 0..8 {
        ram.store(a, (a * 11) as u64).unwrap();
    }
    for a in 0..8 {
        assert_eq!(ram.load(a).unwrap(), (a * 11) as u64);
    }
}

#[test]
fn ram_two_bounds() {
    // Stores are checked against the capacity, loads against the
    // high-water mark: a reserved-but-unread slot can be written, but a
    // never-reserved slot cannot be read.
    let mut ram = RamHeap::<6>::new();
    ram.malloc(2).unwrap();
    assert_eq!(ram.store(5, 7), Ok(()));
    assert_eq!(ram.store(6, 7), Err(HeapError::IllegalAddress(6, 6)));
    assert_eq!(ram.load(5), Err(HeapError::IllegalAddress(5, 2)));
    assert_eq!(ram.load(1).unwrap(), 0);
}

#[test]
fn copying_addresses_are_prefix_sums() {
    let mut heap = CopyingHeap::<96, 12>::new();
    let tracer = KeepTracer { keep: Vec::new() };
    let p0 = heap.malloc(2, &tracer).unwrap();
    let p1 = heap.malloc(10, &tracer).unwrap();
    let p2 = heap.malloc(4, &tracer).unwrap();
    assert_eq!(heap.address(p0).unwrap(), 0);
    assert_eq!(heap.address(p1).unwrap(), 2);
    assert_eq!(heap.address(p2).unwrap(), 12);
    assert_eq!(heap.address(p1.with_offset(9)).unwrap(), 11);
}

#[test]
fn store_does_not_disturb_other_blocks() {
    let mut heap = CopyingHeap::<32, 4>::new();
    let tracer = KeepTracer { keep: Vec::new() };
    let p = heap.malloc(3, &tracer).unwrap();
    let q = heap.malloc(3, &tracer).unwrap();
    for i in 0..3 {
        heap.store(p.with_offset(i), 100 + i as u64).unwrap();
        heap.store(q.with_offset(i), 200 + i as u64).unwrap();
    }
    heap.store(q.with_offset(1), 999).unwrap();
    for i in 0..3 {
        assert_eq!(heap.load(p.with_offset(i)).unwrap(), 100 + i as u64);
    }
    assert_eq!(heap.load(q.with_offset(1)).unwrap(), 999);
}

#[test]
fn copying_collection_compacts_and_preserves() {
    let mut heap = CopyingHeap::<24, 4>::new();
    let keep_none = KeepTracer { keep: Vec::new() };
    let p0 = heap.malloc(4, &keep_none).unwrap();
    let p1 = heap.malloc(8, &keep_none).unwrap();
    let p2 = heap.malloc(6, &keep_none).unwrap();
    for i in 0..6 {
        heap.store(p2.with_offset(i), 60 + i as u64).unwrap();
    }
    for i in 0..4 {
        heap.store(p0.with_offset(i), 40 + i as u64).unwrap();
    }
    // Keep blocks 0 and 2; the next allocation cannot fit, so it forces a
    // collection that drops block 1 and compacts the rest.
    let keep = KeepTracer { keep: vec![p0.block_num(), p2.block_num()] };
    let p3 = heap.malloc(8, &keep).unwrap();
    // Compaction: surviving blocks sit at the prefix sums of their sizes,
    // the fresh block right after them.
    assert_eq!(heap.address(p0).unwrap(), 0);
    assert_eq!(heap.address(p2).unwrap(), 4);
    assert_eq!(heap.address(p3).unwrap(), 10);
    // The slot was picked before the collection ran: the lowest slot that
    // was already free at that point.
    assert_eq!(p3.block_num(), 3);
    // Stability: the surviving words moved with their blocks.
    for i in 0..4 {
        assert_eq!(heap.load(p0.with_offset(i)).unwrap(), 40 + i as u64);
    }
    for i in 0..6 {
        assert_eq!(heap.load(p2.with_offset(i)).unwrap(), 60 + i as u64);
    }
    // Each survivor was evacuated exactly once.
    for (b, c) in heap.blocks_num_copies() {
        if b == p0.block_num() || b == p2.block_num() {
            assert_eq!(c, 1);
        } else {
            assert_eq!(c, 0);
        }
    }
    heap.assert_no_strays();
}

#[test]
fn copying_dangling_pointer_reports_unallocated() {
    let mut heap = CopyingHeap::<16, 4>::new();
    let keep_none = KeepTracer { keep: Vec::new() };
    let p0 = heap.malloc(4, &keep_none).unwrap();
    let p1 = heap.malloc(8, &keep_none).unwrap();
    // Only block 1 stays reachable; the collection triggered by the next
    // allocation reclaims block 0, and the retained pointer dangles.
    let keep = KeepTracer { keep: vec![p1.block_num()] };
    let _p2 = heap.malloc(6, &keep).unwrap();
    assert_eq!(heap.load(p0), Err(HeapError::UnallocatedBlock(p0.block_num())));
}

#[test]
fn once_heap_errors() {
    let tracer = KeepTracer { keep: Vec::new() };
    let mut heap = OnceAndDoneHeap::<8, 4>::new();
    let p = heap.malloc(5, &tracer).unwrap();
    assert_eq!(p.block_num(), 0);
    assert_eq!(heap.malloc(4, &tracer), Err(HeapError::OutOfMemory));
    assert_eq!(heap.malloc(0, &tracer), Err(HeapError::ZeroSizeRequest));
    // The once-and-done heap never reclaims: dropping everything from the
    // root set frees nothing.
    let mut tiny = OnceAndDoneHeap::<8, 2>::new();
    tiny.malloc(1, &tracer).unwrap();
    tiny.malloc(1, &tracer).unwrap();
    assert_eq!(tiny.malloc(1, &tracer), Err(HeapError::OutOfBlocks));
    tiny.assert_no_strays();
}

#[test]
fn blocks_in_use_is_sorted() {
    let mut heap = CopyingHeap::<32, 8>::new();
    let keep_none = KeepTracer { keep: Vec::new() };
    let mut ptrs = Vec::new();
    for _ in 0..5 {
        ptrs.push(heap.malloc(2, &keep_none).unwrap());
    }
    let in_use = heap.blocks_in_use();
    assert_eq!(in_use, vec![0, 1, 2, 3, 4]);
    for (k, b) in in_use.iter().enumerate() {
        let base = heap.allocated_block_ptr(*b).unwrap();
        assert_eq!(base, ptrs[k]);
        assert_eq!(base.offset(), 0);
        assert_eq!(base.len(), 2);
    }
    assert_eq!(heap.allocated_block_ptr(7), None);
    assert_eq!(heap.allocated_block_ptr(100), None);
}

#[test]
fn generational_promotes_at_threshold() {
    // With a threshold of zero, the very first evacuation promotes a block
    // into generation 1, and it keeps working from there.
    let mut heap = GenerationalHeap::<16, 4, 0>::new();
    let keep_none = KeepTracer { keep: Vec::new() };
    let p0 = heap.malloc(4, &keep_none).unwrap();
    let p1 = heap.malloc(4, &keep_none).unwrap();
    for i in 0..4 {
        heap.store(p0.with_offset(i), 10 + i as u64).unwrap();
        heap.store(p1.with_offset(i), 20 + i as u64).unwrap();
    }
    let keep = KeepTracer { keep: vec![p0.block_num(), p1.block_num()] };
    let p2 = heap.malloc(12, &keep).unwrap();
    assert_eq!(p2.len(), 12);
    for (b, c) in heap.blocks_num_copies() {
        if b == p2.block_num() {
            assert_eq!(c, 0);
        } else {
            assert_eq!(c, 1);
        }
    }
    for i in 0..4 {
        assert_eq!(heap.load(p0.with_offset(i)).unwrap(), 10 + i as u64);
        assert_eq!(heap.load(p1.with_offset(i)).unwrap(), 20 + i as u64);
    }
    heap.assert_no_strays();
}

#[test]
fn generational_error_cascade() {
    let heap = GenerationalHeap::<16, 4, 2>::new();
    assert_eq!(
        heap.address(Pointer::new(9, 1)),
        Err(HeapError::IllegalBlock(9, 3)),
    );
    assert_eq!(
        heap.address(Pointer::new(2, 1)),
        Err(HeapError::UnallocatedBlock(2)),
    );
}

#[test]
fn pointer_accessors() {
    let p = Pointer::new(3, 7);
    assert_eq!(p.block_num(), 3);
    assert_eq!(p.len(), 7);
    assert_eq!(p.offset(), 0);
    let q = p.with_offset(5);
    assert_eq!(q.block_num(), 3);
    assert_eq!(q.len(), 7);
    assert_eq!(q.offset(), 5);
}

#[test]
fn independent_elements_check() {
    assert_eq!(independent_elements_from(0, 1, 2), Some((0, 1)));
    assert_eq!(independent_elements_from(1, 0, 2), Some((1, 0)));
    assert_eq!(independent_elements_from(1, 1, 2), None);
    assert_eq!(independent_elements_from(0, 2, 2), None);
}

#[test]
fn ram_copy_relocates() {
    let mut src = RamHeap::<8>::new();
    let mut dest = RamHeap::<8>::new();
    src.malloc(4).unwrap();
    for a in 0..4 {
        src.store(a, 9 - a as u64).unwrap();
    }
    let info = BlockInfo { start: 1, size: 3, num_times_copied: 0 };
    let moved = src.copy(&info, &mut dest).unwrap();
    assert_eq!((moved.start, moved.size, moved.num_times_copied), (0, 3, 1));
    for k in 0..3 {
        assert_eq!(dest.load(k).unwrap(), src.load(1 + k).unwrap());
    }
    dest.malloc(3).unwrap();
    let big = BlockInfo { start: 0, size: 4, num_times_copied: 0 };
    assert_eq!(src.copy(&big, &mut dest), Err(HeapError::OutOfMemory));
}

#[test]
fn old_collection_compacts() {
    let mut table = BlockTable::<4>::new();
    let mut src = RamHeap::<16>::new();
    let mut dest = RamHeap::<16>::new();
    src.malloc(10).unwrap();
    for a in 0..10 {
        src.store(a, a as u64 * 3).unwrap();
    }
    table.set_entry(0, Some(BlockInfo { start: 0, size: 3, num_times_copied: 4 }));
    table.set_entry(2, Some(BlockInfo { start: 7, size: 3, num_times_copied: 5 }));
    let used = vec![true, false, true, false];
    GenerationalHeap::<16, 4, 2>::collect_gen_1(&used, &mut table, &mut src, &mut dest).unwrap();
    let b0 = table.get(0).unwrap();
    assert_eq!((b0.start, b0.size, b0.num_times_copied), (0, 3, 5));
    let b2 = table.get(2).unwrap();
    assert_eq!((b2.start, b2.size, b2.num_times_copied), (3, 3, 6));
    for k in 0..3 {
        assert_eq!(dest.load(b0.start + k).unwrap(), (k as u64) * 3);
        assert_eq!(dest.load(b2.start + k).unwrap(), ((7 + k) as u64) * 3);
    }
}

#[test]
fn active_inactive_indices() {
    let heap = GenerationalHeap::<16, 4, 2>::new();
    assert_eq!(heap.active_inactive_gen_0_gen_1(), (0, 1, 0, 1));
}

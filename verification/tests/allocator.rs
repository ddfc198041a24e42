use lumina_mm::buddy::BuddyAllocator;
use lumina_mm::global::GlobalAllocator;
use lumina_mm::heap::{Heap, HEADER_SIZE};

#[test]
fn allocate_then_deallocate_restores_free_lists() {
    // A freed allocation merges back through exactly the split chain,
    // restoring the pre-allocation snapshot of the free lists.
    let mut b = BuddyAllocator::new();
    b.init(0x1000, 1024);
    let snapshot = b.free_lists.clone();
    let ptr = b.allocate(100, 1).unwrap();
    assert_ne!(b.free_lists, snapshot);
    b.deallocate(ptr, 100, 1);
    assert_eq!(b.free_lists, snapshot);
}

#[test]
fn hundred_byte_allocation_splits_down_to_128() {
    // Region of 1024 bytes: one maximal block. allocate(100) rounds to a
    // 128-byte block, splitting 1024 -> 512 -> 256 -> 128 and leaving free
    // blocks of 512, 256 and 128 bytes; the matching deallocate reverses
    // exactly that chain back to one 1024-byte block.
    let mut b = BuddyAllocator::new();
    b.init(0x1000, 1024);
    // 1024 = 32 << 5: one block of order 5 at the region start.
    assert_eq!(b.free_lists[5], vec![0x1000]);
    let ptr = b.allocate(100, 1).unwrap();
    assert_eq!(ptr, 0x1000);
    assert_eq!(b.free_lists[2], vec![0x1080]); // 128-byte buddy
    assert_eq!(b.free_lists[3], vec![0x1100]); // 256-byte buddy
    assert_eq!(b.free_lists[4], vec![0x1200]); // 512-byte buddy
    assert_eq!(b.free_lists[5], Vec::<usize>::new());
    b.deallocate(ptr, 100, 1);
    assert_eq!(b.free_lists[2], Vec::<usize>::new());
    assert_eq!(b.free_lists[3], Vec::<usize>::new());
    assert_eq!(b.free_lists[4], Vec::<usize>::new());
    assert_eq!(b.free_lists[5], vec![0x1000]);
}

#[test]
fn exactly_as_many_minimum_allocations_as_blocks() {
    // 1024 bytes = 2^5 minimum-size blocks: exactly 32 minimum-size
    // allocations succeed; the 33rd runs out of memory.
    let mut b = BuddyAllocator::new();
    b.init(0x1000, 1024);
    for i in 0..32 {
        assert!(b.allocate(32, 1).is_some(), "allocation {} should succeed", i);
    }
    assert_eq!(b.allocate(32, 1), None);
}

#[test]
fn freeing_buddies_merges_either_order() {
    // Two buddy blocks merge into one block one order larger, whichever is
    // freed first.
    for first_low in [true, false] {
        let mut b = BuddyAllocator::new();
        b.init(0x1000, 64);
        let a1 = b.allocate(32, 1).unwrap();
        let a2 = b.allocate(32, 1).unwrap();
        assert_eq!((a1, a2), (0x1000, 0x1020));
        if first_low {
            b.deallocate(a1, 32, 1);
            b.deallocate(a2, 32, 1);
        } else {
            b.deallocate(a2, 32, 1);
            b.deallocate(a1, 32, 1);
        }
        assert_eq!(b.free_lists[0], Vec::<usize>::new());
        assert_eq!(b.free_lists[1], vec![0x1000]);
    }
}

#[test]
fn freeing_non_buddies_never_merges() {
    let mut b = BuddyAllocator::new();
    b.init(0x1000, 128);
    let a1 = b.allocate(32, 1).unwrap();
    let a2 = b.allocate(32, 1).unwrap();
    let a3 = b.allocate(32, 1).unwrap();
    let _a4 = b.allocate(32, 1).unwrap();
    assert_eq!((a1, a2, a3), (0x1000, 0x1020, 0x1040));
    // 0x1000 and 0x1040 are the same order but not buddies.
    b.deallocate(a1, 32, 1);
    b.deallocate(a3, 32, 1);
    assert_eq!(b.free_lists[0], vec![0x1000, 0x1040]);
    assert_eq!(b.free_lists[1], Vec::<usize>::new());
}

#[test]
fn init_twice_changes_nothing() {
    let mut b = BuddyAllocator::new();
    b.init(0x1000, 1024);
    let snapshot = b.free_lists.clone();
    b.init(0x8000, 4096);
    assert_eq!(b.free_lists, snapshot);
    assert_eq!(b.memory_start, 0x1000);
    assert_eq!(b.memory_size, 1024);
}

#[test]
fn misaligned_region_is_carved_into_aligned_blocks() {
    // Region [0x1020, 0x1080): blocks must stay aligned to their own size,
    // so the carve yields 32 + 64 rather than one unaligned 96-block.
    let mut b = BuddyAllocator::new();
    b.init(0x1020, 0x60);
    assert_eq!(b.free_lists[0], vec![0x1020]);
    assert_eq!(b.free_lists[1], vec![0x1040]);
}

#[test]
fn allocate_before_init_fails() {
    let mut b = BuddyAllocator::new();
    assert_eq!(b.allocate(32, 1), None);
}

#[test]
fn oversized_requests_are_capped_at_max_order() {
    // A request beyond the top order is served (under-sized) from the top
    // order, the documented capping behaviour.
    let b = BuddyAllocator::new();
    assert_eq!(b.find_order_for_request(1 << 20, 1), 10);
    assert_eq!(b.get_order_for_size(32), 0);
    assert_eq!(b.get_order_for_size(33), 1);
    assert_eq!(b.get_order_for_size(100), 2);
}

#[test]
fn facade_returns_sentinel_before_init() {
    let mut g = GlobalAllocator::new();
    assert_eq!(g.allocate(32, 1), None);
    g.init(0x1000, 1024);
    // The first call forwards the region to the inner allocator and
    // carves it.
    assert_eq!(g.allocator.memory_start, 0x1000);
    assert_eq!(g.allocator.memory_size, 1024);
    assert_eq!(g.allocator.free_lists[5], vec![0x1000]);
    let p = g.allocate(32, 1).unwrap();
    assert_eq!(p, 0x1000);
    g.deallocate(p, 32, 1);
    // A second init is a no-op.
    g.init(0x9000, 64);
    assert_eq!(g.allocator.memory_start, 0x1000);
}

#[test]
fn heap_first_fit_allocates_and_frees() {
    let mut h = Heap::new();
    h.init(0x1000, 0x1000);
    assert_eq!(h.total_size(), 0x1000);
    assert_eq!(h.allocation_count(), 0);
    let p1 = h.allocate(64, 8).unwrap();
    assert_eq!(p1, 0x1000 + HEADER_SIZE);
    assert_eq!(h.allocation_count(), 1);
    let p2 = h.allocate(32, 8).unwrap();
    assert_eq!(h.allocation_count(), 2);
    h.deallocate(p1);
    h.deallocate(p2);
    assert_eq!(h.allocation_count(), 0);
}

#[test]
fn heap_refuses_oversized_request() {
    let mut h = Heap::new();
    h.init(0x1000, 0x100);
    assert_eq!(h.allocate(0x1000, 8), None);
}

//! End-to-end scenarios for the heap memory manager.
//!
//! Addresses returned by the allocator are word offsets into the backing
//! region; one word is eight bytes.  A fresh region of `w` words holds
//! one free block of `8 * w - 16` bytes starting at word 1, between the
//! two sentinel words.

use kernel::allocator::HeapAllocator;

/// 1 MiB backing region, in words.
const MIB_WORDS: usize = 1 << 17;

fn mib_heap() -> HeapAllocator {
    let mut heap = HeapAllocator::new();
    heap.init(MIB_WORDS);
    heap
}

#[test]
fn fresh_heap_serves_first_request_at_base() {
    let mut heap = mib_heap();
    // Footprint of 64 bytes is 64 + 16 = 80; the block starts at word 1,
    // right after the sentinel.
    assert_eq!(heap.allocate(64), Some(1));
}

#[test]
fn second_allocation_starts_at_first_footprint() {
    let mut heap = mib_heap();
    let p1 = heap.allocate(64).unwrap();
    let p2 = heap.allocate(64).unwrap();
    // Splitting: address difference equals the footprint granted to the
    // first request, 80 bytes = 10 words.
    assert_eq!(p1, 1);
    assert_eq!(p2, p1 + 80 / 8);
}

#[test]
fn split_footprints_are_rounded_to_words() {
    let mut heap = mib_heap();
    let p1 = heap.allocate(100).unwrap(); // footprint 120 bytes
    let p2 = heap.allocate(50).unwrap(); // footprint 72 bytes
    assert_eq!((p2 - p1) * 8, 120);
}

#[test]
fn end_to_end_full_recoalescence() {
    // Initialize with a 1 MiB region; allocate twice, free both, then a
    // single region-spanning request must succeed at the base again,
    // proving the blocks merged back into one.
    let mut heap = mib_heap();
    let p1 = heap.allocate(64).unwrap();
    assert_eq!(p1, 1);
    let p2 = heap.allocate(64).unwrap();
    assert_eq!(p2, p1 + 80 / 8);
    heap.deallocate(p1);
    heap.deallocate(p2);
    let full = 8 * MIB_WORDS as u64 - 32;
    assert_eq!(heap.allocate(full), Some(1));
}

#[test]
fn three_adjacent_blocks_coalesce_in_any_order() {
    let orders: [[usize; 3]; 6] = [
        [0, 1, 2],
        [0, 2, 1],
        [1, 0, 2],
        [1, 2, 0],
        [2, 0, 1],
        [2, 1, 0],
    ];
    let full = 8 * MIB_WORDS as u64 - 32;
    for order in orders.iter() {
        let mut heap = mib_heap();
        let mut ptrs = [0usize; 3];
        for (slot, ptr) in ptrs.iter_mut().enumerate() {
            *ptr = heap.allocate(64).unwrap();
            assert_eq!(*ptr, 1 + slot * 10);
        }
        for &k in order.iter() {
            heap.deallocate(ptrs[k]);
        }
        // One free block spans all three original footprints plus the
        // leftover: the region-spanning request succeeds at the base.
        assert_eq!(heap.allocate(full), Some(1));
    }
}

#[test]
fn exhaustion_returns_sentinel_and_preserves_heap() {
    // 64-word region: one free block of 496 bytes.
    let mut heap = HeapAllocator::new();
    heap.init(64);
    assert_eq!(heap.allocate(1000), None);
    // The failed request left the free list intact: a fitting request
    // still succeeds, and with the whole block.
    assert_eq!(heap.allocate(480), Some(1));
    assert_eq!(heap.allocate(1), None);
}

#[test]
fn whole_block_handed_out_when_excess_is_small() {
    let mut heap = HeapAllocator::new();
    heap.init(64); // one block of 496 bytes
    // Footprint 472; excess 24 < 32, so no split: the region is full.
    let p = heap.allocate(456).unwrap();
    assert_eq!(p, 1);
    assert_eq!(heap.allocate(1), None);
    heap.deallocate(p);
    assert_eq!(heap.allocate(480), Some(1));
}

#[test]
fn freed_block_is_reused() {
    let mut heap = mib_heap();
    let p1 = heap.allocate(64).unwrap();
    let _p2 = heap.allocate(64).unwrap();
    heap.deallocate(p1);
    // The freed 80-byte block is the head of its class again.
    assert_eq!(heap.allocate(64), Some(p1));
}

#[test]
fn coalesce_left_then_allocate_across_both() {
    let mut heap = mib_heap();
    let p1 = heap.allocate(64).unwrap(); // 80 bytes at word 1
    let p2 = heap.allocate(64).unwrap(); // 80 bytes at word 11
    let _p3 = heap.allocate(64).unwrap(); // keeps the right side busy
    heap.deallocate(p1);
    heap.deallocate(p2);
    // p1 and p2 merged into one 160-byte block: a 144-byte request fits
    // exactly in it (footprint 160) and returns the left base.
    assert_eq!(heap.allocate(144), Some(p1));
}

#[test]
fn class_list_serves_its_head_first() {
    let mut heap = mib_heap();
    let p1 = heap.allocate(64).unwrap();
    let _p2 = heap.allocate(64).unwrap(); // keeps p1 and p3 apart
    let p3 = heap.allocate(64).unwrap();
    let _p4 = heap.allocate(64).unwrap(); // keeps p3 off the big block
    heap.deallocate(p1);
    heap.deallocate(p3);
    // p1 and p3 sit in the same class, p3 pushed last: it is the head.
    assert_eq!(heap.allocate(64), Some(p3));
    assert_eq!(heap.allocate(64), Some(p1));
}

#[test]
fn mixed_sequence_restores_full_capacity() {
    let mut heap = mib_heap();
    let a = heap.allocate(100).unwrap();
    let b = heap.allocate(200).unwrap();
    let c = heap.allocate(50).unwrap();
    heap.deallocate(b);
    let d = heap.allocate(40).unwrap();
    heap.deallocate(a);
    heap.deallocate(d);
    heap.deallocate(c);
    // Every pointer went back: the whole region is one free block again.
    let full = 8 * MIB_WORDS as u64 - 32;
    assert_eq!(heap.allocate(full), Some(1));
}

#[test]
fn smallest_requests_get_minimum_blocks() {
    let mut heap = mib_heap();
    let p1 = heap.allocate(1).unwrap();
    let p2 = heap.allocate(1).unwrap();
    // Minimum block size is 32 bytes = 4 words.
    assert_eq!(p2 - p1, 4);
}

use mooos::alignment::align_up;
use mooos::linked_list::{LinkedListAllocator, ListNode, NODE_ALIGN, NODE_SIZE};

fn regions(a: &LinkedListAllocator) -> Vec<(usize, usize)> {
    let mut out = Vec::new();
    let mut i: usize = 0;
    while i < a.region_count() {
        let node = a.region_at(i);
        out.push((node.addr, node.size));
        i += 1;
    }
    out
}

#[test]
fn node_footprint_constants() {
    assert_eq!(NODE_SIZE, 16);
    assert_eq!(NODE_ALIGN, 8);
}

#[test]
fn align_up_values() {
    assert_eq!(align_up(0, 1), 0);
    assert_eq!(align_up(5, 8), 8);
    assert_eq!(align_up(8, 8), 8);
    assert_eq!(align_up(9, 16), 16);
    assert_eq!(align_up(1000, 256), 1024);
}

#[test]
fn list_node_addresses() {
    let node = ListNode::new(32, 64);
    assert_eq!(node.start_addr(), 32);
    assert_eq!(node.end_addr(), 96);
}

#[test]
fn new_allocator_is_empty() {
    let a = LinkedListAllocator::new();
    assert_eq!(a.region_count(), 0);
}

#[test]
fn size_align_values() {
    // raised to the node footprint
    assert_eq!(LinkedListAllocator::size_align(1, 1), (16, 8));
    assert_eq!(LinkedListAllocator::size_align(0, 1), (16, 8));
    // padded to the effective alignment
    assert_eq!(LinkedListAllocator::size_align(17, 8), (24, 8));
    // a large alignment is kept
    assert_eq!(LinkedListAllocator::size_align(32, 16), (32, 16));
    assert_eq!(LinkedListAllocator::size_align(33, 16), (48, 16));
}

#[test]
fn scenario_heap_1024() {
    // heap [0, 1024), node footprint 16 bytes
    let mut a = LinkedListAllocator::new();
    a.init(0, 1024);
    assert_eq!(regions(&a), vec![(0, 1024)]);

    // allocate(32, 8) returns 0 and leaves [32, 1024)
    assert_eq!(a.allocate(32, 8), Some(0));
    assert_eq!(regions(&a), vec![(32, 992)]);

    // deallocate(0, 32, 8) re-adds [0, 32) at the front: two disjoint regions
    a.deallocate(0, 32, 8);
    assert_eq!(regions(&a), vec![(0, 32), (32, 992)]);

    // allocate(992, 8) consumes [32, 1024) exactly, leaving only [0, 32):
    // the two byte-adjacent regions were never merged
    assert_eq!(a.allocate(992, 8), Some(32));
    assert_eq!(regions(&a), vec![(0, 32)]);
}

#[test]
fn results_are_aligned() {
    let mut a = LinkedListAllocator::new();
    a.init(0, 4096);
    for &align in &[1usize, 2, 4, 8, 16, 32, 64] {
        let got = a.allocate(24, align).expect("allocation failed");
        assert_eq!(got % align, 0);
    }
}

#[test]
fn exhaustion_returns_none() {
    let mut a = LinkedListAllocator::new();
    a.init(0, 1024);
    // larger than the heap's total capacity: failure, not a crash
    assert_eq!(a.allocate(2048, 8), None);
    assert_eq!(a.allocate(usize::MAX - 64, 8), None);
    // the free list is untouched
    assert_eq!(regions(&a), vec![(0, 1024)]);
}

#[test]
fn no_coalescing_of_adjacent_regions() {
    let mut a = LinkedListAllocator::new();
    a.init(0, 1024);
    let first = a.allocate(496, 8).expect("allocation failed");
    let second = a.allocate(528, 8).expect("allocation failed");
    assert_eq!((first, second), (0, 496));
    assert_eq!(regions(&a), vec![]);

    a.deallocate(0, 496, 8);
    a.deallocate(496, 528, 8);
    // byte-adjacent, but still two distinct regions
    assert_eq!(regions(&a), vec![(496, 528), (0, 496)]);

    // enough total free memory, but no single region fits
    assert_eq!(a.allocate(1024, 8), None);
}

#[test]
fn first_fit_prefers_most_recently_freed() {
    let mut a = LinkedListAllocator::new();
    a.init(0, 1024);
    let first = a.allocate(496, 8).expect("allocation failed");
    let second = a.allocate(528, 8).expect("allocation failed");
    a.deallocate(first, 496, 8);
    a.deallocate(second, 528, 8);
    // both regions can hold 16 bytes; the most recently freed one, [496,
    // 1024), stands at the front of the list and wins, though [0, 496)
    // would be the tighter fit
    assert_eq!(a.allocate(16, 8), Some(496));
}

#[test]
fn split_never_leaves_an_undersized_tail() {
    let mut a = LinkedListAllocator::new();
    a.init(0, 64);
    // a 56-byte request would leave an 8-byte tail, too small for a node:
    // the region is refused rather than leaking the tail
    assert_eq!(a.allocate(56, 8), None);
    assert_eq!(regions(&a), vec![(0, 64)]);
    // a 48-byte request leaves a 16-byte tail, exactly a node's footprint
    assert_eq!(a.allocate(48, 8), Some(0));
    assert_eq!(regions(&a), vec![(48, 16)]);
}

#[test]
fn conservation_over_a_mixed_history() {
    let mut a = LinkedListAllocator::new();
    a.init(0, 2048);
    let total = |a: &LinkedListAllocator| regions(a).iter().map(|r| r.1).sum::<usize>();

    let mut live: Vec<(usize, usize, usize)> = Vec::new();
    for &(size, align) in &[(32usize, 8usize), (100, 4), (16, 8), (7, 1), (256, 2)] {
        let ptr = a.allocate(size, align).expect("allocation failed");
        live.push((ptr, size, align));
        let live_total: usize = live
            .iter()
            .map(|&(_, s, al)| LinkedListAllocator::size_align(s, al).0)
            .sum();
        assert_eq!(total(&a) + live_total, 2048);
    }
    while let Some((ptr, size, align)) = live.pop() {
        a.deallocate(ptr, size, align);
        let live_total: usize = live
            .iter()
            .map(|&(_, s, al)| LinkedListAllocator::size_align(s, al).0)
            .sum();
        assert_eq!(total(&a) + live_total, 2048);
    }
    assert_eq!(total(&a), 2048);
}

#[test]
fn zero_size_allocation_reserves_a_node() {
    let mut a = LinkedListAllocator::new();
    a.init(0, 1024);
    // even a zero-byte request reserves a node-sized block, so it can be
    // given back as a free region later
    assert_eq!(a.allocate(0, 1), Some(0));
    assert_eq!(regions(&a), vec![(16, 1008)]);
    a.deallocate(0, 0, 1);
    assert_eq!(regions(&a), vec![(0, 16), (16, 1008)]);
}

#[test]
fn alloc_from_region_decision() {
    let region = ListNode::new(64, 64);
    // fits exactly
    assert_eq!(LinkedListAllocator::alloc_from_region(&region, 64, 8), Ok(64));
    // fits with a node-sized tail
    assert_eq!(LinkedListAllocator::alloc_from_region(&region, 48, 8), Ok(64));
    // would leave an 8-byte tail: refused
    assert_eq!(LinkedListAllocator::alloc_from_region(&region, 56, 8), Err(()));
    // too small
    assert_eq!(LinkedListAllocator::alloc_from_region(&region, 128, 8), Err(()));
    // alignment padding counts against the region's space
    assert_eq!(LinkedListAllocator::alloc_from_region(&region, 64, 128), Err(()));
    // an overflowing end means the region does not fit, not a crash
    let high = ListNode::new(usize::MAX - 64, 64);
    assert_eq!(
        LinkedListAllocator::alloc_from_region(&high, usize::MAX, 8),
        Err(())
    );
}

use os_core::allocator::{align_up, is_power_of_two};
use os_core::allocator::bump::BumpAllocator;
use os_core::allocator::linked_list::{LinkedListAllocator, ListNode, NODE_ALIGN, NODE_SIZE};

const HEAP_START: usize = 0x4444_0000;

fn overlap(a: usize, a_len: usize, b: usize, b_len: usize) -> bool {
    a < b + b_len && b < a + a_len
}

#[test]
fn align_up_keeps_aligned_addresses() {
    assert_eq!(align_up(0, 8), Some(0));
    assert_eq!(align_up(64, 8), Some(64));
    assert_eq!(align_up(4096, 4096), Some(4096));
}

#[test]
fn align_up_rounds_to_next_multiple() {
    assert_eq!(align_up(1, 8), Some(8));
    assert_eq!(align_up(9, 8), Some(16));
    assert_eq!(align_up(4097, 4096), Some(8192));
    assert_eq!(align_up(13, 1), Some(13));
    assert_eq!(align_up(10, 12), Some(12));
}

#[test]
fn align_up_reports_overflow() {
    assert_eq!(align_up(usize::MAX, 8), None);
    assert_eq!(align_up(usize::MAX - 6, 8), None);
    assert_eq!(align_up(usize::MAX - 7, 8), Some(usize::MAX - 7));
}

#[test]
fn bump_new_is_empty() {
    let bump = BumpAllocator::new();
    assert_eq!(bump.heap_start(), 0);
    assert_eq!(bump.heap_end(), 0);
    assert_eq!(bump.next(), 0);
    assert_eq!(bump.allocations(), 0);
}

#[test]
fn bump_new_serves_only_empty_requests() {
    let mut bump = BumpAllocator::new();
    assert_eq!(bump.allocate(1, 1), None);
    assert_eq!(bump.allocations(), 0);
    assert_eq!(bump.allocate(0, 1), Some(0));
    assert_eq!(bump.allocations(), 1);
}

#[test]
fn bump_init_sets_bounds() {
    let mut bump = BumpAllocator::new();
    bump.init(HEAP_START, 1024);
    assert_eq!(bump.heap_start(), HEAP_START);
    assert_eq!(bump.heap_end(), HEAP_START + 1024);
    assert_eq!(bump.next(), HEAP_START);
    assert_eq!(bump.allocations(), 0);
}

#[test]
fn bump_three_blocks_then_too_large() {
    let mut bump = BumpAllocator::new();
    bump.init(HEAP_START, 1024);
    let a = bump.allocate(64, 8).unwrap();
    let b = bump.allocate(64, 8).unwrap();
    let c = bump.allocate(64, 8).unwrap();
    assert_eq!(a, HEAP_START);
    assert_eq!(b, HEAP_START + 64);
    assert_eq!(c, HEAP_START + 128);
    assert!(!overlap(a, 64, b, 64));
    assert!(!overlap(a, 64, c, 64));
    assert!(!overlap(b, 64, c, 64));
    assert_eq!(bump.allocate(900, 8), None);
    assert_eq!(bump.next(), HEAP_START + 192);
    assert_eq!(bump.allocations(), 3);
}

#[test]
fn bump_blocks_are_aligned_and_inside() {
    let mut bump = BumpAllocator::new();
    bump.init(HEAP_START + 1, 4096);
    let requests = [(3usize, 1usize), (10, 16), (1, 64), (100, 8), (7, 256), (0, 4)];
    let mut blocks: Vec<(usize, usize)> = Vec::new();
    for (size, align) in requests {
        let addr = bump.allocate(size, align).unwrap();
        assert_eq!(addr % align, 0);
        assert!(addr >= HEAP_START + 1);
        assert!(addr + size <= HEAP_START + 1 + 4096);
        for (other, other_size) in &blocks {
            assert!(!overlap(addr, size, *other, *other_size));
        }
        blocks.push((addr, size));
    }
    assert_eq!(blocks[0].0, HEAP_START + 1);
    assert_eq!(blocks[1].0, HEAP_START + 16);
    assert_eq!(blocks[2].0, HEAP_START + 64);
}

#[test]
fn bump_exact_fit_and_one_byte_more() {
    let mut bump = BumpAllocator::new();
    bump.init(HEAP_START, 128);
    assert_eq!(bump.allocate(129, 1), None);
    assert_eq!(bump.allocate(128, 1), Some(HEAP_START));
    assert_eq!(bump.next(), HEAP_START + 128);
    assert_eq!(bump.allocate(1, 1), None);
    assert_eq!(bump.allocate(0, 1), Some(HEAP_START + 128));
}

#[test]
fn bump_overflow_is_failure() {
    let mut bump = BumpAllocator::new();
    bump.init(usize::MAX - 100, 100);
    assert_eq!(bump.allocate(usize::MAX, 1), None);
    assert_eq!(bump.allocate(8, 4096), None);
    assert_eq!(bump.next(), usize::MAX - 100);
    assert_eq!(bump.allocations(), 0);
    assert_eq!(bump.allocate(100, 1), Some(usize::MAX - 100));
}

#[test]
fn bump_reclaims_only_with_last_block() {
    let mut bump = BumpAllocator::new();
    bump.init(HEAP_START, 1024);
    let a = bump.allocate(100, 4).unwrap();
    let b = bump.allocate(200, 4).unwrap();
    let c = bump.allocate(300, 4).unwrap();
    let cursor = bump.next();
    assert_eq!(cursor, HEAP_START + 600);
    bump.dealloc(b, 200, 4);
    assert_eq!(bump.next(), cursor);
    assert_eq!(bump.allocations(), 2);
    bump.dealloc(c, 300, 4);
    assert_eq!(bump.next(), cursor);
    assert_eq!(bump.allocations(), 1);
    bump.dealloc(a, 100, 4);
    assert_eq!(bump.next(), HEAP_START);
    assert_eq!(bump.allocations(), 0);
    assert_eq!(bump.allocate(1024, 1), Some(HEAP_START));
}

#[test]
fn bump_one_block_out_keeps_heap_used() {
    let mut bump = BumpAllocator::new();
    bump.init(HEAP_START, 256);
    let keep = bump.allocate(8, 8).unwrap();
    let mut cursor = bump.next();
    for _ in 0..10 {
        let block = bump.allocate(16, 8).unwrap();
        assert!(block >= cursor);
        cursor = bump.next();
        bump.dealloc(block, 16, 8);
        assert_eq!(bump.next(), cursor);
    }
    assert_eq!(bump.next(), HEAP_START + 8 + 160);
    assert_eq!(bump.allocate(128, 8), None);
    bump.dealloc(keep, 8, 8);
    assert_eq!(bump.next(), HEAP_START);
}

#[test]
fn list_node_addresses() {
    let node = ListNode::new(0x1000, 64);
    assert_eq!(node.start_addr(), 0x1000);
    assert_eq!(node.end_addr(), 0x1040);
    assert_eq!(node.start, 0x1000);
    assert_eq!(node.size, 64);
}

#[test]
fn node_constants() {
    assert_eq!(NODE_SIZE, 16);
    assert_eq!(NODE_ALIGN, 8);
}

#[test]
fn size_align_raises_small_requests() {
    assert_eq!(LinkedListAllocator::size_align(1, 1), Some((16, 8)));
    assert_eq!(LinkedListAllocator::size_align(0, 4), Some((16, 8)));
    assert_eq!(LinkedListAllocator::size_align(16, 8), Some((16, 8)));
    assert_eq!(LinkedListAllocator::size_align(0, 32), Some((16, 32)));
}

#[test]
fn size_align_pads_to_alignment() {
    assert_eq!(LinkedListAllocator::size_align(17, 8), Some((24, 8)));
    assert_eq!(LinkedListAllocator::size_align(17, 2), Some((24, 8)));
    assert_eq!(LinkedListAllocator::size_align(64, 32), Some((64, 32)));
    assert_eq!(LinkedListAllocator::size_align(65, 32), Some((96, 32)));
    assert_eq!(LinkedListAllocator::size_align(900, 8), Some((904, 8)));
}

#[test]
fn size_align_reports_overflow() {
    assert_eq!(LinkedListAllocator::size_align(usize::MAX, 8), None);
    assert_eq!(LinkedListAllocator::size_align(usize::MAX - 7, 8), Some((usize::MAX - 7, 8)));
}

#[test]
fn alloc_from_region_exact_and_with_rest() {
    let region = ListNode::new(0x1000, 64);
    assert_eq!(LinkedListAllocator::alloc_from_region(&region, 64, 8), Ok(0x1000));
    assert_eq!(LinkedListAllocator::alloc_from_region(&region, 48, 8), Ok(0x1000));
    assert_eq!(LinkedListAllocator::alloc_from_region(&region, 16, 8), Ok(0x1000));
}

#[test]
fn alloc_from_region_rejects_small_rest() {
    let region = ListNode::new(0x1000, 64);
    assert_eq!(LinkedListAllocator::alloc_from_region(&region, 56, 8), Err(()));
    assert_eq!(LinkedListAllocator::alloc_from_region(&region, 49, 1), Err(()));
    assert_eq!(LinkedListAllocator::alloc_from_region(&region, 63, 1), Err(()));
}

#[test]
fn alloc_from_region_rejects_too_large() {
    let region = ListNode::new(0x1000, 64);
    assert_eq!(LinkedListAllocator::alloc_from_region(&region, 65, 8), Err(()));
    assert_eq!(LinkedListAllocator::alloc_from_region(&region, usize::MAX, 8), Err(()));
}

#[test]
fn alloc_from_region_aligns_start() {
    let region = ListNode::new(0x1008, 0x100);
    assert_eq!(LinkedListAllocator::alloc_from_region(&region, 16, 64), Ok(0x1040));
    assert_eq!(LinkedListAllocator::alloc_from_region(&region, 0xc8, 64), Ok(0x1040));
    assert_eq!(LinkedListAllocator::alloc_from_region(&region, 0xc0, 64), Err(()));
    assert_eq!(LinkedListAllocator::alloc_from_region(&region, 16, 0x1000), Err(()));
    let high = ListNode::new(usize::MAX - 64, 64);
    assert_eq!(LinkedListAllocator::alloc_from_region(&high, 16, 4096), Err(()));
}

#[test]
fn list_new_has_no_region() {
    let mut heap = LinkedListAllocator::new();
    assert_eq!(heap.region_count(), 0);
    assert_eq!(heap.allocate(1, 1), None);
    assert_eq!(heap.find_region(16, 8).map(|(node, start)| (node.start, node.size, start)), None);
}

#[test]
fn list_init_adds_whole_heap() {
    let mut heap = LinkedListAllocator::new();
    heap.init(HEAP_START, 1024);
    assert_eq!(heap.region_count(), 1);
    let region = heap.region(0);
    assert_eq!((region.start, region.size), (HEAP_START, 1024));
}

#[test]
fn list_add_free_region_is_new_head() {
    let mut heap = LinkedListAllocator::new();
    heap.add_free_region(0x1000, 32);
    heap.add_free_region(0x2000, 64);
    assert_eq!(heap.region_count(), 2);
    assert_eq!(heap.region(0).start, 0x2000);
    assert_eq!(heap.region(0).size, 64);
    assert_eq!(heap.region(1).start, 0x1000);
    assert_eq!(heap.region(1).size, 32);
}

#[test]
fn list_find_region_takes_first_fit() {
    let mut heap = LinkedListAllocator::new();
    heap.add_free_region(0x3000, 256);
    heap.add_free_region(0x2000, 128);
    heap.add_free_region(0x1000, 32);
    let (node, start) = heap.find_region(64, 8).unwrap();
    assert_eq!((node.start, node.size, start), (0x2000, 128, 0x2000));
    assert_eq!(heap.region_count(), 2);
    assert_eq!(heap.region(0).start, 0x1000);
    assert_eq!(heap.region(1).start, 0x3000);
    assert!(heap.find_region(512, 8).is_none());
    assert_eq!(heap.region_count(), 2);
}

#[test]
fn list_three_blocks_then_too_large() {
    let mut heap = LinkedListAllocator::new();
    heap.init(HEAP_START, 1024);
    let a = heap.allocate(64, 8).unwrap();
    let b = heap.allocate(64, 8).unwrap();
    let c = heap.allocate(64, 8).unwrap();
    assert_eq!((a, b, c), (HEAP_START, HEAP_START + 64, HEAP_START + 128));
    assert!(!overlap(a, 64, b, 64));
    assert!(!overlap(a, 64, c, 64));
    assert!(!overlap(b, 64, c, 64));
    assert_eq!(heap.allocate(900, 8), None);
    assert_eq!(heap.region_count(), 1);
    assert_eq!((heap.region(0).start, heap.region(0).size), (HEAP_START + 192, 832));
}

#[test]
fn list_blocks_are_aligned_inside_and_apart() {
    let mut heap = LinkedListAllocator::new();
    heap.init(HEAP_START + 8, 8192);
    let requests = [(3usize, 1usize), (10, 16), (1, 64), (100, 8), (7, 256), (24, 4)];
    let mut blocks: Vec<(usize, usize)> = Vec::new();
    for (size, align) in requests {
        let addr = heap.allocate(size, align).unwrap();
        assert_eq!(addr % align, 0);
        assert_eq!(addr % NODE_ALIGN, 0);
        assert!(addr >= HEAP_START + 8);
        assert!(addr + size <= HEAP_START + 8 + 8192);
        for (other, other_size) in &blocks {
            assert!(!overlap(addr, size, *other, *other_size));
        }
        blocks.push((addr, size));
    }
    heap.dealloc(blocks[1].0, 10, 16);
    heap.dealloc(blocks[3].0, 100, 8);
    let again = heap.allocate(100, 8).unwrap();
    assert_eq!(again, blocks[3].0);
    let other = heap.allocate(90, 8).unwrap();
    for index in [0usize, 2, 4, 5] {
        assert!(!overlap(again, 100, blocks[index].0, blocks[index].1));
        assert!(!overlap(other, 90, blocks[index].0, blocks[index].1));
    }
    assert!(!overlap(again, 100, other, 90));
}

#[test]
fn list_exact_fit_empties_list() {
    let mut heap = LinkedListAllocator::new();
    heap.init(HEAP_START, 64);
    assert_eq!(heap.allocate(64, 8), Some(HEAP_START));
    assert_eq!(heap.region_count(), 0);
    assert_eq!(heap.allocate(1, 1), None);
}

#[test]
fn list_skips_region_with_small_rest() {
    let mut heap = LinkedListAllocator::new();
    heap.add_free_region(0x2000, 64);
    heap.add_free_region(0x1000, 40);
    assert_eq!(heap.allocate(32, 8), Some(0x2000));
    assert_eq!(heap.region_count(), 2);
    assert_eq!((heap.region(0).start, heap.region(0).size), (0x2020, 32));
    assert_eq!((heap.region(1).start, heap.region(1).size), (0x1000, 40));
}

#[test]
fn list_alloc_free_alloc_reuses_block() {
    let mut heap = LinkedListAllocator::new();
    heap.init(HEAP_START, 1024);
    let first = heap.allocate(100, 16).unwrap();
    heap.dealloc(first, 100, 16);
    assert_eq!(heap.region_count(), 2);
    assert_eq!((heap.region(0).start, heap.region(0).size), (first, 112));
    let second = heap.allocate(100, 16).unwrap();
    assert_eq!(second, first);
    assert_eq!(heap.region_count(), 1);
}

#[test]
fn list_dealloc_uses_normalised_size() {
    let mut heap = LinkedListAllocator::new();
    heap.dealloc(0x1000, 1, 1);
    assert_eq!((heap.region(0).start, heap.region(0).size), (0x1000, 16));
    heap.dealloc(0x2000, 33, 32);
    assert_eq!((heap.region(0).start, heap.region(0).size), (0x2000, 64));
}

#[test]
fn list_reverse_frees_allow_replay() {
    let mut heap = LinkedListAllocator::new();
    heap.init(HEAP_START, 1024);
    let requests = [(64usize, 8usize), (24, 8), (100, 16), (1, 1)];
    let mut first: Vec<usize> = Vec::new();
    for (size, align) in requests {
        first.push(heap.allocate(size, align).unwrap());
    }
    let left = heap.region_count();
    let rest = heap.region(0);
    for index in (0..requests.len()).rev() {
        heap.dealloc(first[index], requests[index].0, requests[index].1);
    }
    assert_eq!(heap.region_count(), left + requests.len());
    for index in 0..requests.len() {
        assert_eq!(heap.region(index).start, first[index]);
    }
    assert_eq!(heap.region(requests.len()).start, rest.start);
    let mut second: Vec<usize> = Vec::new();
    for (size, align) in requests {
        second.push(heap.allocate(size, align).unwrap());
    }
    assert_eq!(first, second);
    assert_eq!(heap.region_count(), left);
    assert_eq!((heap.region(0).start, heap.region(0).size), (rest.start, rest.size));
}

#[test]
fn list_does_not_merge_free_neighbours() {
    let mut heap = LinkedListAllocator::new();
    heap.init(HEAP_START, 1024);
    let a = heap.allocate(512, 8).unwrap();
    let b = heap.allocate(512, 8).unwrap();
    assert_eq!(heap.region_count(), 0);
    heap.dealloc(b, 512, 8);
    heap.dealloc(a, 512, 8);
    assert_eq!(heap.region_count(), 2);
    assert_eq!(heap.allocate(1024, 8), None);
    assert_eq!(heap.allocate(1008, 8), None);
    assert_eq!(heap.allocate(513, 8), None);
    assert_eq!(heap.allocate(512, 8), Some(a));
}

#[test]
fn list_drops_bytes_before_aligned_block() {
    let mut heap = LinkedListAllocator::new();
    heap.init(0x1008, 0x300);
    let block = heap.allocate(64, 256).unwrap();
    assert_eq!(block, 0x1100);
    assert_eq!(heap.region_count(), 1);
    assert_eq!((heap.region(0).start, heap.region(0).size), (0x1200, 0x108));
    heap.dealloc(block, 64, 256);
    assert_eq!(heap.region_count(), 2);
    assert_eq!((heap.region(0).start, heap.region(0).size), (0x1100, 256));
}

#[test]
fn list_with_storage_starts_empty() {
    let mut storage: Vec<ListNode> = Vec::with_capacity(8);
    storage.push(ListNode::new(0x9000, 64));
    let mut heap = LinkedListAllocator::with_storage(storage);
    assert_eq!(heap.region_count(), 0);
    assert_eq!(heap.allocate(16, 8), None);
    heap.init(HEAP_START, 256);
    assert_eq!(heap.allocate(16, 8), Some(HEAP_START));
    assert_eq!(heap.region_count(), 1);
}

#[test]
fn list_freed_block_is_found_before_older_regions() {
    let mut heap = LinkedListAllocator::new();
    heap.init(HEAP_START, 1024);
    let a = heap.allocate(32, 8).unwrap();
    let b = heap.allocate(32, 8).unwrap();
    heap.dealloc(a, 32, 8);
    assert_eq!(heap.allocate(32, 8), Some(a));
    heap.dealloc(b, 32, 8);
    heap.dealloc(a, 32, 8);
    assert_eq!(heap.allocate(16, 8), Some(a));
    assert_eq!((heap.region(0).start, heap.region(0).size), (a + 16, 16));
    assert_eq!((heap.region(1).start, heap.region(1).size), (b, 32));
}

#[test]
fn powers_of_two_are_told_apart() {
    for shift in 0..usize::BITS {
        assert!(is_power_of_two(1usize << shift));
    }
    for other in [0usize, 3, 5, 6, 7, 9, 12, 24, 4095, 4097, usize::MAX, usize::MAX - 1] {
        assert!(!is_power_of_two(other));
    }
}

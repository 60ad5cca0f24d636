use arena_allocators::arena::ARENA_BASE;
use arena_allocators::linked_list::{
    find_best, find_first, AllocationHeader, FreeListAllocator, FreeNode, PlacementPolicy,
};
use arena_allocators::{Arena, SpinLock, ARENA_SIZE};
use std::alloc::Layout;

// Writes a list of free nodes with the given block sizes, 1000 bytes apart,
// and returns the address of the first.
fn list_of(arena: &mut Arena, sizes: &[usize]) -> usize {
    let start = arena.start();
    for (i, size) in sizes.iter().enumerate() {
        let next = if i + 1 < sizes.len() { start + (i + 1) * 1000 } else { 0 };
        FreeNode { next, block_size: *size }.write(arena, start + i * 1000);
    }
    if sizes.is_empty() {
        0
    } else {
        start
    }
}

// The free blocks of the allocator, as pairs of offset and size.
fn free_blocks(allocator: &FreeListAllocator) -> Vec<(usize, usize)> {
    let mut blocks = Vec::new();
    if !allocator.is_initialized() {
        return vec![(0, ARENA_SIZE)];
    }
    let mut addr = allocator.head();
    while addr != 0 {
        let node = FreeNode::read(allocator.arena(), addr);
        blocks.push((addr - allocator.arena().start(), node.block_size));
        addr = node.next;
    }
    blocks
}

#[test]
fn test_find_first() {
    let mut arena = Arena::new();
    let head = list_of(&mut arena, &[10, 75, 50, 100]);

    let (free_node, prev_node, _) = find_first(&arena, head, 20, 2);

    assert_eq!(FreeNode::read(&arena, free_node.unwrap()).block_size, 75);
    assert_eq!(FreeNode::read(&arena, prev_node.unwrap()).block_size, 10);
}

#[test]
fn test_find_best() {
    let mut arena = Arena::new();
    let head = list_of(&mut arena, &[10, 75, 50, 100]);

    let (free_node, prev_node, _) = find_best(&arena, head, 20, 2);

    assert_eq!(FreeNode::read(&arena, free_node.unwrap()).block_size, 50);

    assert_eq!(FreeNode::read(&arena, prev_node.unwrap()).block_size, 75);
}

#[test]
fn test_allocation_deallocation_find_first() {
    let mut global_alloc_first = SpinLock::new(FreeListAllocator::new(PlacementPolicy::FindFirst));

    let layout_u32 = Layout::new::<u32>();
    let layout_u64 = Layout::new::<[u64; 34]>();

    let ptr_1 = global_alloc_first.allocate(layout_u32.size(), layout_u32.align());
    assert!(ptr_1 != 0);

    let ptr_2 = global_alloc_first.allocate(layout_u64.size(), layout_u64.align());
    assert!(ptr_2 != 0);

    // a pointer to a new location was given
    assert!(ptr_1 < ptr_2);

    global_alloc_first.dealloc(ptr_1, layout_u32.size(), layout_u32.align());

    let ptr_3 = global_alloc_first.allocate(layout_u32.size(), layout_u32.align());
    assert!(ptr_3 != 0);

    // the first free area is used
    assert_eq!(ptr_1, ptr_3);

    global_alloc_first.dealloc(ptr_3, layout_u32.size(), layout_u32.align());
    global_alloc_first.dealloc(ptr_2, layout_u64.size(), layout_u64.align());
}

//
//   We fragment the memory this way and find the best fit.
//
//   +----+--------+----+----+----+------------+
//   |xxxx|        |xxxx|    |xxxx|            |
//   |xxxx|        |xxxx|    |xxxx|            |
//   |xxxx|        |xxxx|    |xxxx|            |
//   +----+--------+----+----+----+------------+
//
#[test]
fn test_allocation_deallocation_find_best() {
    let mut global_alloc_best = SpinLock::new(FreeListAllocator::new(PlacementPolicy::FindBest));

    let layout_u32 = Layout::new::<u32>();
    let layout_u64 = Layout::new::<[u64; 34]>();

    global_alloc_best.allocate(layout_u32.size(), layout_u32.align());

    let large_section_1 = global_alloc_best.allocate(layout_u64.size(), layout_u64.align());
    assert!(large_section_1 != 0);

    global_alloc_best.allocate(layout_u32.size(), layout_u32.align());

    let best_fit_section = global_alloc_best.allocate(layout_u32.size(), layout_u32.align());
    assert!(best_fit_section != 0);

    global_alloc_best.allocate(layout_u32.size(), layout_u32.align());

    global_alloc_best.dealloc(large_section_1, layout_u64.size(), layout_u64.align());
    global_alloc_best.dealloc(best_fit_section, layout_u32.size(), layout_u32.align());

    let ptr = global_alloc_best.allocate(layout_u32.size(), layout_u32.align());
    assert_eq!(ptr, best_fit_section);
}

#[test]
fn find_returns_the_padding_of_the_block_it_chose() {
    let mut arena = Arena::new();
    let start = arena.start();
    // blocks at offsets 8 and 72, the second on a multiple of 64 less 56
    FreeNode { next: start + 72, block_size: 100 }.write(&mut arena, start + 8);
    FreeNode { next: 0, block_size: 90 }.write(&mut arena, start + 72);
    // aligned to 64: the payload lies at offset 64 in the first, 128 in the second
    assert_eq!(find_first(&arena, start + 8, 16, 64), (Some(start + 8), None, 56));
    assert_eq!(find_best(&arena, start + 8, 16, 64), (Some(start + 72), Some(start + 8), 56));
    assert_eq!(find_best(&arena, start + 8, 44, 64), (Some(start + 8), None, 56));
    assert_eq!(find_first(&arena, start + 72, 16, 32), (Some(start + 72), None, 24));
}

#[test]
fn find_nothing_where_no_block_is_large_enough() {
    let mut arena = Arena::new();
    let head = list_of(&mut arena, &[10, 75, 50, 100]);
    assert_eq!(find_first(&arena, head, 85, 2), (None, None, 0));
    assert_eq!(find_best(&arena, head, 85, 2), (None, None, 0));
    assert_eq!(find_first(&arena, head, usize::MAX, 2), (None, None, 0));
    assert_eq!(find_best(&arena, head, usize::MAX, 2), (None, None, 0));
    assert_eq!(find_first(&arena, 0, 1, 1), (None, None, 0));
    assert_eq!(find_best(&arena, 0, 1, 1), (None, None, 0));
    // exactly large enough
    let start = arena.start();
    assert_eq!(find_first(&arena, head, 84, 2), (Some(start + 3000), Some(start + 2000), 16));
    assert_eq!(find_best(&arena, head, 84, 2), (Some(start + 3000), Some(start + 2000), 16));
}

#[test]
fn find_best_takes_the_first_of_equal_blocks() {
    let mut arena = Arena::new();
    let head = list_of(&mut arena, &[60, 40, 40, 60]);
    let start = arena.start();
    assert_eq!(find_best(&arena, head, 20, 8), (Some(start + 1000), Some(start), 16));
    assert_eq!(find_first(&arena, head, 20, 8), (Some(start), None, 16));
}

#[test]
fn free_list_init_makes_one_block() {
    let mut allocator = FreeListAllocator::new(PlacementPolicy::FindFirst);
    assert_eq!(allocator.head(), 0);
    assert!(!allocator.is_initialized());
    assert_eq!(allocator.policy(), PlacementPolicy::FindFirst);
    allocator.init();
    assert!(allocator.is_initialized());
    assert_eq!(allocator.head(), ARENA_BASE);
    assert_eq!(
        FreeNode::read(allocator.arena(), ARENA_BASE),
        FreeNode { next: 0, block_size: ARENA_SIZE }
    );
}

#[test]
fn free_list_splits_and_writes_headers() {
    let mut allocator = FreeListAllocator::new(PlacementPolicy::FindFirst);
    let ptr_1 = allocator.allocate(4, 4);
    // size 4 is served as 16, alignment 4 as 8
    assert_eq!(ptr_1, ARENA_BASE + 16);
    assert_eq!(
        AllocationHeader::read(allocator.arena(), ptr_1),
        AllocationHeader { block_size: 32, padding: 16 }
    );
    assert_eq!(free_blocks(&allocator), vec![(32, ARENA_SIZE - 32)]);

    let ptr_2 = allocator.allocate(272, 8);
    assert_eq!(ptr_2, ARENA_BASE + 48);
    assert_eq!(
        AllocationHeader::read(allocator.arena(), ptr_2),
        AllocationHeader { block_size: 288, padding: 16 }
    );
    assert_eq!(free_blocks(&allocator), vec![(320, ARENA_SIZE - 320)]);

    let ptr_3 = allocator.allocate(100, 256);
    // the node lies at offset 320; the first multiple of 256 with room for
    // a header in front is 512
    assert_eq!(ptr_3, ARENA_BASE + 512);
    assert_eq!(
        AllocationHeader::read(allocator.arena(), ptr_3),
        AllocationHeader { block_size: 292, padding: 192 }
    );
    assert_eq!(free_blocks(&allocator), vec![(612, ARENA_SIZE - 612)]);
}

#[test]
fn free_list_merges_with_both_neighbours() {
    let mut allocator = FreeListAllocator::new(PlacementPolicy::FindFirst);
    let ptr_1 = allocator.allocate(16, 8);
    let ptr_2 = allocator.allocate(16, 8);
    let ptr_3 = allocator.allocate(16, 8);
    let ptr_4 = allocator.allocate(16, 8);
    assert_eq!(free_blocks(&allocator), vec![(128, ARENA_SIZE - 128)]);

    allocator.dealloc(ptr_1, 16, 8);
    assert_eq!(free_blocks(&allocator), vec![(0, 32), (128, ARENA_SIZE - 128)]);
    allocator.dealloc(ptr_3, 16, 8);
    assert_eq!(free_blocks(&allocator), vec![(0, 32), (64, 32), (128, ARENA_SIZE - 128)]);
    // touches the block in front and the block behind
    allocator.dealloc(ptr_2, 16, 8);
    assert_eq!(free_blocks(&allocator), vec![(0, 96), (128, ARENA_SIZE - 128)]);
    // touches the block in front and the last block
    allocator.dealloc(ptr_4, 16, 8);
    assert_eq!(free_blocks(&allocator), vec![(0, ARENA_SIZE)]);
    assert_eq!(allocator.head(), ARENA_BASE);
}

#[test]
fn free_list_merges_behind_the_last_block() {
    let mut allocator = FreeListAllocator::new(PlacementPolicy::FindFirst);
    let ptr_1 = allocator.allocate(16, 8);
    let ptr_2 = allocator.allocate(ARENA_SIZE - 32 - 16, 8);
    assert_eq!(ptr_2, ARENA_BASE + 48);
    assert_eq!(free_blocks(&allocator), vec![]);
    assert_eq!(allocator.head(), 0);
    assert_eq!(allocator.allocate(1, 1), 0);

    allocator.dealloc(ptr_1, 16, 8);
    assert_eq!(free_blocks(&allocator), vec![(0, 32)]);
    // behind the last free block, and touching it
    allocator.dealloc(ptr_2, ARENA_SIZE - 48, 8);
    assert_eq!(free_blocks(&allocator), vec![(0, ARENA_SIZE)]);
}

#[test]
fn free_list_keeps_what_is_left_of_a_block_in_the_middle() {
    let mut allocator = FreeListAllocator::new(PlacementPolicy::FindFirst);
    let ptr_1 = allocator.allocate(200, 8);
    let _p2 = allocator.allocate(16, 8);
    allocator.dealloc(ptr_1, 200, 8);
    assert_eq!(free_blocks(&allocator), vec![(0, 216), (248, ARENA_SIZE - 248)]);
    // taken from the first block, which is not the only one: the rest stays free
    let ptr_3 = allocator.allocate(16, 8);
    assert_eq!(ptr_3, ARENA_BASE + 16);
    assert_eq!(free_blocks(&allocator), vec![(32, 184), (248, ARENA_SIZE - 248)]);
    allocator.dealloc(ptr_3, 16, 8);
    assert_eq!(free_blocks(&allocator), vec![(0, 216), (248, ARENA_SIZE - 248)]);
}

#[test]
fn free_list_gives_the_whole_block_where_the_rest_cannot_hold_a_node() {
    let mut allocator = FreeListAllocator::new(PlacementPolicy::FindFirst);
    let ptr_1 = allocator.allocate(40, 8);
    let _p2 = allocator.allocate(16, 8);
    allocator.dealloc(ptr_1, 40, 8);
    assert_eq!(free_blocks(&allocator), vec![(0, 56), (88, ARENA_SIZE - 88)]);
    // 16 + 30 = 46 of 56 bytes: the 10 that are left go with the block
    let ptr_3 = allocator.allocate(30, 8);
    assert_eq!(ptr_3, ARENA_BASE + 16);
    assert_eq!(
        AllocationHeader::read(allocator.arena(), ptr_3),
        AllocationHeader { block_size: 56, padding: 16 }
    );
    assert_eq!(free_blocks(&allocator), vec![(88, ARENA_SIZE - 88)]);
    allocator.dealloc(ptr_3, 30, 8);
    assert_eq!(free_blocks(&allocator), vec![(0, 56), (88, ARENA_SIZE - 88)]);
}

#[test]
fn free_list_ignores_frees_it_cannot_take() {
    let mut allocator = FreeListAllocator::new(PlacementPolicy::FindBest);
    // nothing was handed out yet
    allocator.dealloc(ARENA_BASE + 16, 16, 8);
    assert!(!allocator.is_initialized());
    let ptr_1 = allocator.allocate(16, 8);
    let ptr_2 = allocator.allocate(16, 8);
    let blocks = free_blocks(&allocator);
    // outside the arena
    allocator.dealloc(0, 16, 8);
    allocator.dealloc(ARENA_BASE + 8, 16, 8);
    allocator.dealloc(ARENA_BASE + ARENA_SIZE + 16, 16, 8);
    // a header of zeros: a block of no size
    allocator.dealloc(ARENA_BASE + 5000, 16, 8);
    assert_eq!(free_blocks(&allocator), blocks);
    allocator.dealloc(ptr_2, 16, 8);
    assert_eq!(free_blocks(&allocator), vec![(32, ARENA_SIZE - 32)]);
    // a second time: the node of the free block lies where the header was
    allocator.dealloc(ptr_2, 16, 8);
    assert_eq!(free_blocks(&allocator), vec![(32, ARENA_SIZE - 32)]);
    allocator.dealloc(ptr_1, 16, 8);
    assert_eq!(free_blocks(&allocator), vec![(0, ARENA_SIZE)]);
}

#[test]
fn free_list_no_free_blocks_touch_after_frees() {
    let mut allocator = FreeListAllocator::new(PlacementPolicy::FindBest);
    let mut ptrs = Vec::new();
    for k in 0..40usize {
        let size = 16 + (k * 37) % 200;
        let align = 1usize << (3 + k % 4);
        let ptr = allocator.allocate(size, align);
        assert!(ptr != 0);
        assert_eq!(ptr % align, 0);
        ptrs.push((ptr, size, align));
    }
    for (a, b) in ptrs.iter().zip(ptrs.iter().skip(1)) {
        assert!(a.0 + a.1 <= b.0);
    }
    for k in [3usize, 4, 5, 20, 22, 21, 0, 39, 38, 10, 12, 11] {
        let (ptr, size, align) = ptrs[k];
        allocator.dealloc(ptr, size, align);
        let blocks = free_blocks(&allocator);
        for u in &blocks {
            for v in &blocks {
                assert_ne!(u.0 + u.1, v.0);
            }
        }
        for w in blocks.windows(2) {
            assert!(w[0].0 + w[0].1 < w[1].0);
        }
    }
}

// A run of requests and returns in an order that a simple generator gives:
// the blocks that are out never share a byte, and once all are back the
// arena is one free block again.
fn mixed_run(policy: PlacementPolicy, seed: u64) {
    let mut allocator = FreeListAllocator::new(policy);
    let mut state = seed;
    let mut next = move || {
        state = state.wrapping_mul(6364136223846793005).wrapping_add(1442695040888963407);
        (state >> 33) as usize
    };
    let mut live: Vec<(usize, usize)> = Vec::new();
    for _ in 0..2000 {
        if live.is_empty() || next() % 3 != 0 {
            let size = 1 + next() % 3000;
            let align = 1usize << (next() % 8);
            let ptr = allocator.allocate(size, align);
            if ptr != 0 {
                assert_eq!(ptr % align, 0);
                assert!(ARENA_BASE <= ptr && ptr + size <= ARENA_BASE + ARENA_SIZE);
                for (other, other_size) in &live {
                    assert!(ptr + size <= *other || other + other_size <= ptr);
                }
                live.push((ptr, size));
            }
        } else {
            let (ptr, size) = live.swap_remove(next() % live.len());
            allocator.dealloc(ptr, size, 8);
        }
        let blocks = free_blocks(&allocator);
        for w in blocks.windows(2) {
            assert!(w[0].0 + w[0].1 < w[1].0);
        }
        for (offset, size) in &blocks {
            assert!(*size >= 16 && offset + size <= ARENA_SIZE);
            for (ptr, len) in &live {
                assert!(ARENA_BASE + offset + size <= *ptr || ptr + len <= ARENA_BASE + offset);
            }
        }
    }
    while let Some((ptr, size)) = live.pop() {
        allocator.dealloc(ptr, size, 8);
    }
    assert_eq!(free_blocks(&allocator), vec![(0, ARENA_SIZE)]);
}

#[test]
fn free_list_first_fit_mixed_run_leaves_nothing_behind() {
    mixed_run(PlacementPolicy::FindFirst, 1);
    mixed_run(PlacementPolicy::FindFirst, 7);
}

#[test]
fn free_list_best_fit_mixed_run_leaves_nothing_behind() {
    mixed_run(PlacementPolicy::FindBest, 2);
    mixed_run(PlacementPolicy::FindBest, 11);
}

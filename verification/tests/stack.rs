use arena_allocators::arena::ARENA_BASE;
use arena_allocators::stack::{StackAllocator, StackHeader, STACK_HEADER_SIZE};
use arena_allocators::{SpinLock, ARENA_SIZE};
use std::alloc::Layout;

const HEADER_SIZE: usize = STACK_HEADER_SIZE;

#[test]
fn stack_test_allocation_deallocation() {
    let mut global_alloc = SpinLock::new(StackAllocator::new());
    let layout_u32 = Layout::new::<u32>();
    let layout_u64 = Layout::new::<[u64; 34]>();

    let ptr_1 = global_alloc.allocate(layout_u32.size(), layout_u32.align());
    // successful allocation and alignment
    assert!(ptr_1 != 0);
    assert!((ptr_1 - HEADER_SIZE) % layout_u32.align() == 0 || ptr_1 % layout_u32.align() == 0);

    let ptr_2 = global_alloc.allocate(layout_u64.size(), layout_u64.align());
    // successful allocation and alignment
    assert!(ptr_2 != 0);
    assert!((ptr_2 - HEADER_SIZE) % layout_u64.align() == 0 || ptr_2 % layout_u64.align() == 0);

    // a pointer to a new location was given
    assert!(ptr_1 < ptr_2);

    // deallocation test
    global_alloc.dealloc(ptr_2, layout_u64.size(), layout_u64.align());

    {
        let guard = global_alloc.lock();
        let allocator = guard.get();

        let offset = ptr_1 - allocator.arena().start() + layout_u32.size();

        assert_eq!(allocator.curr_offset(), offset);
        SpinLock::unlock(guard);
    }

    global_alloc.dealloc(ptr_1, layout_u32.size(), layout_u32.align());

    {
        let guard = global_alloc.lock();
        let allocator = guard.get();

        assert_eq!(allocator.curr_offset(), 0);
        SpinLock::unlock(guard);
    }
}

#[test]
fn stack_exact_addresses_and_headers() {
    let mut stack = StackAllocator::new();
    let ptr_1 = stack.allocate(4, 4);
    assert_eq!(ptr_1, ARENA_BASE + 16);
    assert_eq!((stack.prev_offset(), stack.curr_offset()), (0, 20));
    assert_eq!(
        StackHeader::read(stack.arena(), ptr_1),
        StackHeader { prev_offset: 0, padding: 16 }
    );

    let ptr_2 = stack.allocate(272, 8);
    assert_eq!(ptr_2, ARENA_BASE + 40);
    assert_eq!((stack.prev_offset(), stack.curr_offset()), (20, 312));
    assert_eq!(
        StackHeader::read(stack.arena(), ptr_2),
        StackHeader { prev_offset: 0, padding: 20 }
    );

    let ptr_3 = stack.allocate(1, 64);
    assert_eq!(ptr_3, ARENA_BASE + 384);
    assert_eq!(
        StackHeader::read(stack.arena(), ptr_3),
        StackHeader { prev_offset: 20, padding: 72 }
    );
    assert_eq!((stack.prev_offset(), stack.curr_offset()), (312, 385));
}

#[test]
fn stack_round_trip_returns_to_the_start() {
    let mut stack = StackAllocator::new();
    let mut ptrs = Vec::new();
    for k in 1..60usize {
        let ptr = stack.allocate(k * 3, 1 << (k % 6));
        assert!(ptr != 0);
        assert_eq!(ptr % (1 << (k % 6)), 0);
        ptrs.push((ptr, k * 3, 1usize << (k % 6)));
    }
    for w in ptrs.windows(2) {
        assert!(w[0].0 + w[0].1 <= w[1].0);
    }
    while let Some((ptr, size, align)) = ptrs.pop() {
        stack.dealloc(ptr, size, align);
    }
    assert_eq!(stack.curr_offset(), 0);
    assert_eq!(stack.prev_offset(), 0);
}

#[test]
fn stack_out_of_order_free_is_ignored() {
    let mut stack = StackAllocator::new();
    let ptr_1 = stack.allocate(8, 8);
    let ptr_2 = stack.allocate(8, 8);
    let state = (stack.prev_offset(), stack.curr_offset());
    stack.dealloc(ptr_1, 8, 8);
    assert_eq!((stack.prev_offset(), stack.curr_offset()), state);
    stack.dealloc(ptr_2, 8, 8);
    stack.dealloc(ptr_1, 8, 8);
    assert_eq!((stack.prev_offset(), stack.curr_offset()), (0, 0));
}

#[test]
fn stack_free_outside_the_blocks_is_ignored() {
    let mut stack = StackAllocator::new();
    let ptr_1 = stack.allocate(8, 8);
    let state = (stack.prev_offset(), stack.curr_offset());
    // outside the arena
    stack.dealloc(0, 8, 8);
    stack.dealloc(ARENA_BASE - 1, 8, 8);
    stack.dealloc(ARENA_BASE + ARENA_SIZE, 8, 8);
    // at or behind the top
    stack.dealloc(ARENA_BASE + stack.curr_offset(), 8, 8);
    stack.dealloc(ARENA_BASE + 1000, 8, 8);
    // no room for a header in front
    stack.dealloc(ARENA_BASE + 8, 8, 8);
    assert_eq!((stack.prev_offset(), stack.curr_offset()), state);
    stack.dealloc(ptr_1, 8, 8);
    assert_eq!((stack.prev_offset(), stack.curr_offset()), (0, 0));
}

#[test]
fn stack_out_of_memory_is_null_and_changes_nothing() {
    let mut stack = StackAllocator::new();
    assert_eq!(stack.allocate(ARENA_SIZE, 1), 0);
    assert_eq!(stack.allocate(usize::MAX, 1), 0);
    assert_eq!((stack.prev_offset(), stack.curr_offset()), (0, 0));
    let ptr = stack.allocate(ARENA_SIZE - 16, 1);
    assert_eq!(ptr, ARENA_BASE + 16);
    assert_eq!(stack.curr_offset(), ARENA_SIZE);
    assert_eq!(stack.allocate(1, 1), 0);
    assert_eq!(stack.curr_offset(), ARENA_SIZE);
}

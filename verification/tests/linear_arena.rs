use arena_allocators::arena::ARENA_BASE;
use arena_allocators::linear_arena::ArenaAllocator;
use arena_allocators::{SpinLock, ARENA_SIZE};
use std::alloc::Layout;

#[test]
fn single_alignment() {
    let mut global_arena = SpinLock::new(ArenaAllocator::new());
    let layout = Layout::new::<u32>();

    let ptr_1 = global_arena.allocate(layout.size(), layout.align());
    assert!(ptr_1 != 0);
    assert_eq!(ptr_1 % layout.align(), 0);

    let ptr_2 = global_arena.allocate(layout.size(), layout.align());
    assert!(ptr_2 != 0);
    assert_eq!(ptr_2 % layout.align(), 0);

    // a pointer to a new location was given
    assert_ne!(ptr_1, ptr_2);

    // size of u32  => 4
    // align of u32 => 4
    assert!(ptr_1 + 4 == ptr_2);
}

#[test]
fn multiple_alignment() {
    let mut global_arena = SpinLock::new(ArenaAllocator::new());
    let layout_u32 = Layout::new::<u32>();
    let layout_u64 = Layout::new::<u64>();

    let ptr_1 = global_arena.allocate(layout_u32.size(), layout_u32.align());
    assert!(ptr_1 != 0);
    assert_eq!(ptr_1 % layout_u32.align(), 0);

    let ptr_2 = global_arena.allocate(layout_u64.size(), layout_u64.align());
    assert!(ptr_2 != 0);
    assert_eq!(ptr_2 % layout_u64.align(), 0);

    // a pointer to a new location was given
    assert_ne!(ptr_1, ptr_2);

    // size of u32  => 4
    // align of u32 => 4
    // size of u64  => 8
    // align of u64 => 8
    assert!(ptr_1 + 8 == ptr_2);
}

#[test]
fn linear_first_block_lies_at_the_base() {
    let mut allocator = ArenaAllocator::new();
    assert_eq!(allocator.arena().start(), ARENA_BASE);
    assert_eq!(allocator.arena().end(), ARENA_BASE + ARENA_SIZE);
    assert_eq!(allocator.arena().size(), ARENA_SIZE);
    assert_eq!(allocator.allocate(3, 1), ARENA_BASE);
    assert_eq!(allocator.curr_offset(), 3);
    assert_eq!(allocator.allocate(5, 16), ARENA_BASE + 16);
    assert_eq!(allocator.curr_offset(), 21);
}

#[test]
fn linear_addresses_increase() {
    let mut allocator = ArenaAllocator::new();
    let mut last = 0;
    for k in 1..200usize {
        let ptr = allocator.allocate(k, 1 << (k % 7));
        assert!(ptr != 0);
        assert!(ptr > last);
        assert_eq!(ptr % (1 << (k % 7)), 0);
        assert!(ptr >= ARENA_BASE && ptr + k <= ARENA_BASE + ARENA_SIZE);
        last = ptr + k - 1;
    }
}

#[test]
fn linear_out_of_memory_is_null_and_changes_nothing() {
    let mut allocator = ArenaAllocator::new();
    assert_eq!(allocator.allocate(ARENA_SIZE + 1, 1), 0);
    assert_eq!(allocator.curr_offset(), 0);
    assert_eq!(allocator.allocate(ARENA_SIZE, 1), ARENA_BASE);
    assert_eq!(allocator.curr_offset(), ARENA_SIZE);
    assert_eq!(allocator.allocate(1, 1), 0);
    assert_eq!(allocator.allocate(0, 1), ARENA_BASE + ARENA_SIZE);
    assert_eq!(allocator.curr_offset(), ARENA_SIZE);
}

#[test]
fn linear_overflowing_request_is_null() {
    let mut allocator = ArenaAllocator::new();
    assert_eq!(allocator.allocate(usize::MAX, 1), 0);
    assert_eq!(allocator.allocate(8, 1 << (usize::BITS - 1)), 0);
    assert_eq!(allocator.curr_offset(), 0);
    assert_eq!(allocator.allocate(8, 8), ARENA_BASE);
}

#[test]
fn linear_dealloc_does_nothing() {
    let mut allocator = ArenaAllocator::new();
    let ptr = allocator.allocate(32, 8);
    allocator.dealloc(ptr, 32, 8);
    assert_eq!(allocator.curr_offset(), 32);
    assert_eq!(allocator.allocate(8, 8), ptr + 32);

    let mut locked = SpinLock::new(ArenaAllocator::new());
    let ptr = locked.allocate(32, 8);
    locked.dealloc(ptr, 32, 8);
    assert_eq!(locked.allocate(8, 8), ptr + 32);
}

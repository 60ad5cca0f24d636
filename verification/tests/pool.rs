use arena_allocators::arena::ARENA_BASE;
use arena_allocators::pool::{PoolAllocator, PoolFreeNode};
use arena_allocators::{SpinLock, ARENA_SIZE};
use std::alloc::Layout;

#[test]
fn test_init() {
    let mut pool = PoolAllocator::new(1024);

    pool.init();

    assert_eq!(pool.is_initialized(), true);

    let mut chunk_count = 0;
    let mut head = pool.head();
    while head != 0 {
        head = PoolFreeNode::read(pool.arena(), head).next;
        chunk_count += 1;
    }

    // size of the allocator is ARENA_SIZE = 128 * 1024
    // so we expect 128 chunks
    assert_eq!(chunk_count, 128);
}

#[test]
fn pool_test_allocation_deallocation() {
    let mut global_alloc = SpinLock::new(PoolAllocator::new(1024));
    let layout_u32 = Layout::new::<u32>();
    let layout_u64 = Layout::new::<[u64; 34]>();

    let ptr_1 = global_alloc.allocate(layout_u32.size(), layout_u32.align());
    assert!(ptr_1 != 0);

    let ptr_2 = global_alloc.allocate(layout_u64.size(), layout_u64.align());
    assert!(ptr_2 != 0);

    // a pointer to a new location was given
    assert!(ptr_1 < ptr_2);

    // deallocation tests
    global_alloc.dealloc(ptr_1, layout_u32.size(), layout_u32.align());
    global_alloc.dealloc(ptr_2, layout_u64.size(), layout_u64.align());

    let guard = global_alloc.lock();

    let head = guard.get().head();
    assert_eq!(ptr_2, head);

    let head_next = PoolFreeNode::read(guard.get().arena(), head).next;
    assert_eq!(ptr_1, head_next);

    SpinLock::unlock(guard);
}

#[test]
fn pool_list_after_init() {
    let mut pool = PoolAllocator::new(1024);
    assert_eq!(pool.head(), 0);
    assert!(!pool.is_initialized());
    pool.init();
    let start = pool.arena().start();
    assert_eq!(start, ARENA_BASE);
    assert_eq!(pool.head(), start);
    assert_eq!(PoolFreeNode::read(pool.arena(), start).next, start + 1024);
    let mut addr = pool.head();
    for i in 0..128usize {
        assert_eq!(addr, start + i * 1024);
        addr = PoolFreeNode::read(pool.arena(), addr).next;
    }
    // the last node's next is null
    assert_eq!(addr, 0);
}

#[test]
fn pool_hands_out_every_chunk_once() {
    let mut pool = PoolAllocator::new(4096);
    assert_eq!(pool.chunk_size(), 4096);
    let start = pool.arena().start();
    for i in 0..32usize {
        assert_eq!(pool.allocate(4096, 8), start + i * 4096);
    }
    assert_eq!(pool.allocate(1, 1), 0);
    assert_eq!(pool.head(), 0);
    assert!(pool.is_initialized());
}

#[test]
fn pool_reuses_the_chunk_freed_last() {
    let mut pool = PoolAllocator::new(64);
    let ptr_1 = pool.allocate(8, 8);
    let ptr_2 = pool.allocate(64, 8);
    let ptr_3 = pool.allocate(1, 1);
    assert_eq!((ptr_1, ptr_2, ptr_3), (ARENA_BASE, ARENA_BASE + 64, ARENA_BASE + 128));
    pool.dealloc(ptr_2, 64, 8);
    assert_eq!(pool.allocate(16, 8), ptr_2);
    pool.dealloc(ptr_1, 8, 8);
    pool.dealloc(ptr_3, 1, 1);
    assert_eq!(pool.allocate(16, 8), ptr_3);
    assert_eq!(pool.allocate(16, 8), ptr_1);
    assert_eq!(pool.allocate(16, 8), ARENA_BASE + 192);
}

#[test]
fn pool_chunk_count_is_truncated() {
    let mut pool = PoolAllocator::new(50000);
    let start = pool.arena().start();
    assert_eq!(pool.allocate(50000, 1), start);
    assert_eq!(pool.allocate(1, 1), start + 50000);
    assert_eq!(pool.allocate(1, 1), 0);

    let mut none = PoolAllocator::new(ARENA_SIZE + 1);
    assert_eq!(none.allocate(1, 1), 0);
    assert_eq!(none.head(), 0);

    let mut one = PoolAllocator::new(ARENA_SIZE);
    assert_eq!(one.allocate(1, 1), start);
    assert_eq!(one.allocate(1, 1), 0);
}

#[test]
fn pool_ignores_frees_it_cannot_take() {
    let mut pool = PoolAllocator::new(1024);
    // nothing is built yet
    pool.dealloc(ARENA_BASE, 8, 8);
    assert!(!pool.is_initialized());
    assert_eq!(pool.head(), 0);
    let ptr_1 = pool.allocate(8, 8);
    assert_eq!(ptr_1, ARENA_BASE);
    let head = pool.head();
    // outside the arena
    pool.dealloc(0, 8, 8);
    pool.dealloc(ARENA_BASE - 1024, 8, 8);
    pool.dealloc(ARENA_BASE + ARENA_SIZE, 8, 8);
    assert_eq!(pool.head(), head);
    pool.dealloc(ptr_1, 8, 8);
    assert_eq!(pool.head(), ptr_1);
    assert_eq!(PoolFreeNode::read(pool.arena(), ptr_1).next, head);
}

#[test]
fn pool_chunks_are_aligned_to_what_divides_the_chunk_size() {
    let mut pool = PoolAllocator::new(256);
    for _ in 0..100 {
        let ptr = pool.allocate(256, 256);
        assert!(ptr != 0);
        for shift in 0..9u32 {
            assert_eq!(ptr % (1usize << shift), 0);
        }
    }
    // a chunk size that is no multiple of the alignment does not keep it
    let mut odd = PoolAllocator::new(24);
    let first = odd.allocate(24, 16);
    let second = odd.allocate(24, 16);
    assert_eq!(first % 16, 0);
    assert_eq!(second, first + 24);
    assert_ne!(second % 16, 0);
}

#[test]
fn pool_mixed_run_hands_out_no_chunk_twice() {
    let mut pool = PoolAllocator::new(512);
    let mut state: u64 = 5;
    let mut next = move || {
        state = state.wrapping_mul(6364136223846793005).wrapping_add(1442695040888963407);
        (state >> 33) as usize
    };
    let mut live: Vec<usize> = Vec::new();
    for _ in 0..3000 {
        if live.is_empty() || next() % 3 != 0 {
            let ptr = pool.allocate(1 + next() % 512, 8);
            if ptr == 0 {
                assert_eq!(live.len(), ARENA_SIZE / 512);
            } else {
                assert_eq!((ptr - ARENA_BASE) % 512, 0);
                assert!(ptr + 512 <= ARENA_BASE + ARENA_SIZE);
                assert!(!live.contains(&ptr));
                live.push(ptr);
            }
        } else {
            let ptr = live.swap_remove(next() % live.len());
            pool.dealloc(ptr, 512, 8);
            assert_eq!(pool.head(), ptr);
        }
    }
}

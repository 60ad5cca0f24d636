//! What holds of a free-list arena over whole runs of calls.
//!
//! First, of requests with nothing given back between them: the blocks
//! that they get share no byte. Then, of requests and returns in any
//! order. The allocator knows its free blocks; who holds the others, it
//! reads from the headers when a block comes back. This module names the
//! blocks that are handed out and shows that requests and returns keep the
//! books: the free blocks and the blocks that are handed out share no byte
//! and fill the arena, and a block that is handed out can be given back.

use crate::arena::Arena;
use crate::blocks::{
    apart,
    block_ok,
    carve,
    carved_from,
    covers,
    fits,
    footprint,
    is_choice,
    lemma_carve_at,
    lemma_carve_keeps,
    lemma_insertion_point,
    lemma_place_of,
    lemma_released_at,
    lemma_released_carved,
    lemma_released_keeps,
    merged_index,
    none_fits,
    ordered,
    padding_for,
    released_at,
    released_from,
    request_align,
    request_size,
    taken_region,
    touches_next,
    touches_prev,
    within,
    Block,
};
use crate::linked_list::{
    kept_outside,
    AllocationHeader,
    FreeListAllocator,
    ALLOCATION_HEADER_SIZE,
    FREE_NODE_SIZE,
};
use crate::utils::{lemma_eight_is_pow2, lemma_padding_with_header, lemma_pow2_upper};
use crate::ARENA_SIZE;
use vstd::arithmetic::power2::is_pow2;
use vstd::prelude::*;

verus! {

/// The bytes that a request gets were free before it and are free no
/// more, they lie in the arena, and no byte is free after the request
/// that was not free before it.
pub proof fn lemma_request_takes_free_bytes(
    before: FreeListAllocator,
    after: FreeListAllocator,
    size: usize,
    align: usize,
    ptr: usize,
    addr: int,
)
    requires
        before.wf(),
        is_pow2(align as int),
        before.allocates(&after, size, align, ptr),
    ensures
        covers(after.free_blocks(), addr) ==> covers(before.free_blocks(), addr),
        ptr != 0 && ptr <= addr < ptr + request_size(size) ==> covers(before.free_blocks(), addr)
            && !covers(after.free_blocks(), addr),
        ptr != 0 ==> before.arena().start() <= ptr && ptr + request_size(size)
            <= before.arena().start() + ARENA_SIZE,
{
    let list = before.free_blocks();
    let served = request_size(size);
    let aligned = request_align(align);
    let start = before.arena().start();
    before.lemma_wf();
    before.arena().lemma_wf();
    lemma_eight_is_pow2();
    lemma_pow2_upper(aligned);
    if !none_fits(list, served, aligned) {
        let i = choose|i: int|
            {
                &&& is_choice(before.policy(), list, served, aligned, i)
                &&& ptr == list[i].addr + padding_for(list[i].addr, aligned)
                &&& after.free_blocks() == carve(list, i, served, aligned)
                &&& AllocationHeader::at(after.arena(), ptr as int) == AllocationHeader {
                    block_size: footprint(list[i], served, aligned) as usize,
                    padding: padding_for(list[i].addr, aligned) as usize,
                }
            };
        let block = list[i];
        let carved = carve(list, i, served, aligned);
        lemma_padding_with_header(block.addr as int, aligned as int, FREE_NODE_SIZE as int);
        assert(fits(block, served, aligned));
        assert(block_ok(start, block));
        if ptr <= addr < ptr + served {
            assert(within(list[i], addr));
        }
        if covers(carved, addr) {
            let k = choose|k: int| 0 <= k < carved.len() && #[trigger] within(carved[k], addr);
            lemma_carve_at(list, i, served, aligned, k);
            let k0 = carved_from(list, i, served, aligned, k);
            assert(within(list[k0], addr));
            if k0 < i {
                assert(ordered(list, k0, i));
            } else if k0 > i {
                assert(ordered(list, i, k0));
            }
        }
    }
}

/// Whether `states`, `requests` and `ptrs` record a run of requests
/// with nothing given back between them: request `k`, for
/// `requests[k].0` bytes aligned to `requests[k].1`, took the allocator
/// from `states[k]` to `states[k + 1]` and returned `ptrs[k]`.
pub open spec fn is_session(
    states: Seq<FreeListAllocator>,
    requests: Seq<(usize, usize)>,
    ptrs: Seq<usize>,
) -> bool {
    &&& states.len() == requests.len() + 1
    &&& ptrs.len() == requests.len()
    &&& forall|k: int| 0 <= k < requests.len() ==> #[trigger] is_step(states, requests, ptrs, k)
}

/// Whether request `k` of the run is an `allocate` on a valid allocator.
pub open spec fn is_step(
    states: Seq<FreeListAllocator>,
    requests: Seq<(usize, usize)>,
    ptrs: Seq<usize>,
    k: int,
) -> bool {
    &&& states[k].wf()
    &&& is_pow2(requests[k].1 as int)
    &&& states[k].allocates(&states[k + 1], requests[k].0, requests[k].1, ptrs[k])
}

/// Over a run of requests the arena stays where it is, and a byte that
/// is free after it was free before it.
pub proof fn lemma_free_bytes_shrink(
    states: Seq<FreeListAllocator>,
    requests: Seq<(usize, usize)>,
    ptrs: Seq<usize>,
    i: int,
    j: int,
    addr: int,
)
    requires
        is_session(states, requests, ptrs),
        0 <= i <= j <= requests.len(),
    ensures
        states[j].arena().start() == states[i].arena().start(),
        covers(states[j].free_blocks(), addr) ==> covers(states[i].free_blocks(), addr),
    decreases j - i,
{
    if i < j {
        lemma_free_bytes_shrink(states, requests, ptrs, i, j - 1, addr);
        assert(is_step(states, requests, ptrs, j - 1));
        lemma_request_takes_free_bytes(
            states[j - 1],
            states[j],
            requests[j - 1].0,
            requests[j - 1].1,
            ptrs[j - 1],
            addr,
        );
    }
}

/// Blocks that a free list hands out with nothing given back between
/// them lie in the arena, and no two of them share a byte.
pub proof fn lemma_blocks_are_apart(
    states: Seq<FreeListAllocator>,
    requests: Seq<(usize, usize)>,
    ptrs: Seq<usize>,
    i: int,
    j: int,
)
    requires
        is_session(states, requests, ptrs),
        0 <= i < j < requests.len(),
        ptrs[i] != 0,
        ptrs[j] != 0,
    ensures
        states[0].arena().start() <= ptrs[i],
        ptrs[i] + request_size(requests[i].0) <= states[0].arena().start() + ARENA_SIZE,
        states[0].arena().start() <= ptrs[j],
        ptrs[j] + request_size(requests[j].0) <= states[0].arena().start() + ARENA_SIZE,
        ptrs[i] + request_size(requests[i].0) <= ptrs[j] || ptrs[j] + request_size(requests[j].0)
            <= ptrs[i],
{
    let addr = if ptrs[i] <= ptrs[j] {
        ptrs[j] as int
    } else {
        ptrs[i] as int
    };
    assert(is_step(states, requests, ptrs, i));
    assert(is_step(states, requests, ptrs, j));
    lemma_free_bytes_shrink(states, requests, ptrs, 0, i, addr);
    lemma_free_bytes_shrink(states, requests, ptrs, 0, j, addr);
    lemma_free_bytes_shrink(states, requests, ptrs, i + 1, j, addr);
    lemma_request_takes_free_bytes(
        states[i],
        states[i + 1],
        requests[i].0,
        requests[i].1,
        ptrs[i],
        addr,
    );
    lemma_request_takes_free_bytes(
        states[j],
        states[j + 1],
        requests[j].0,
        requests[j].1,
        ptrs[j],
        addr,
    );
}

/// A block that was handed out can be given back at once, and the free
/// blocks are then what they were before the request.
pub proof fn lemma_release_undoes_request(
    before: FreeListAllocator,
    taken: FreeListAllocator,
    after: FreeListAllocator,
    size: usize,
    align: usize,
    ptr: usize,
)
    requires
        before.wf(),
        is_pow2(align as int),
        before.allocates(&taken, size, align, ptr),
        ptr != 0,
        taken.releases(&after, ptr),
    ensures
        taken.can_release(ptr),
        after.free_blocks() == before.free_blocks(),
{
    let list = before.free_blocks();
    let served = request_size(size);
    let aligned = request_align(align);
    let start = before.arena().start();
    before.lemma_wf();
    before.arena().lemma_wf();
    lemma_eight_is_pow2();
    lemma_pow2_upper(aligned);
    let i = choose|i: int|
        {
            &&& is_choice(before.policy(), list, served, aligned, i)
            &&& ptr == list[i].addr + padding_for(list[i].addr, aligned)
            &&& taken.free_blocks() == carve(list, i, served, aligned)
            &&& AllocationHeader::at(taken.arena(), ptr as int) == AllocationHeader {
                block_size: footprint(list[i], served, aligned) as usize,
                padding: padding_for(list[i].addr, aligned) as usize,
            }
        };
    let block = list[i];
    lemma_padding_with_header(block.addr as int, aligned as int, FREE_NODE_SIZE as int);
    assert(fits(block, served, aligned));
    assert(block_ok(start, block));
    lemma_released_carved(start, list, i, served, aligned);
    assert(taken.described(ptr) == taken_region(block, served, aligned));
}

/// Whether the byte at address `addr` lies in a block of `live`, which
/// holds for the payload address of each block that is handed out the
/// bytes that the block takes from the arena.
pub open spec fn leased(live: Map<usize, Block>, addr: int) -> bool {
    exists|p: usize| live.contains_key(p) && #[trigger] within(live[p], addr)
}

/// Whether the header that `allocator` holds in front of `ptr` describes
/// `live[ptr]`, a block of the arena in which the header and the first
/// byte behind it lie.
pub open spec fn is_lease(allocator: &FreeListAllocator, live: Map<usize, Block>, ptr: usize) -> bool {
    &&& block_ok(allocator.arena().start(), live[ptr])
    &&& live[ptr].addr + ALLOCATION_HEADER_SIZE <= ptr <= live[ptr].addr + live[ptr].size
    &&& AllocationHeader::at(allocator.arena(), ptr as int) == (AllocationHeader {
        block_size: live[ptr].size,
        padding: (ptr - live[ptr].addr) as usize,
    })
}

/// Whether the byte at address `addr` lies in a free block of `free` or
/// in a block of `live`.
pub open spec fn owned(free: Seq<Block>, live: Map<usize, Block>, addr: int) -> bool {
    covers(free, addr) || leased(live, addr)
}

/// Whether `live` holds the blocks of `allocator` that are handed out:
/// each has its header, no two of them share a byte, none shares a byte
/// with a free block, and every byte of the arena lies in one of them or
/// in a free block.
pub open spec fn accounts_for(allocator: &FreeListAllocator, live: Map<usize, Block>) -> bool {
    let start = allocator.arena().start();
    let free = allocator.free_blocks();
    &&& forall|p: usize| live.contains_key(p) ==> #[trigger] is_lease(allocator, live, p)
    &&& forall|p: usize, q: usize|
        live.contains_key(p) && live.contains_key(q) && p != q ==> #[trigger] apart(
            live[p],
            live[q],
        )
    &&& forall|p: usize, k: int|
        live.contains_key(p) && 0 <= k < free.len() ==> #[trigger] apart(live[p], free[k])
    &&& forall|addr: int| start <= addr < start + ARENA_SIZE ==> #[trigger] owned(free, live, addr)
}

/// A header whose bytes are the same is the same.
proof fn lemma_header_same(before: &Arena, after: &Arena, ptr: int)
    requires
        before.wf(),
        after.start() == before.start(),
        after@.len() == before@.len(),
        before.holds(ptr - ALLOCATION_HEADER_SIZE, ALLOCATION_HEADER_SIZE as int),
        forall|x: int|
            ptr - ALLOCATION_HEADER_SIZE - before.start() <= x < ptr - before.start()
                ==> #[trigger] after@[x] == before@[x],
    ensures
        AllocationHeader::at(after, ptr) == AllocationHeader::at(before, ptr),
{
    before.lemma_wf();
    crate::arena::lemma_load_same(before@, after@, ptr - ALLOCATION_HEADER_SIZE - before.start());
    crate::arena::lemma_load_same(before@, after@, ptr - crate::arena::WORD_SIZE - before.start());
}

/// The header of a block that is handed out stays as it is where no byte
/// changes but in the blocks of `changed`, none of which shares a byte
/// with that block.
proof fn lemma_lease_stays(
    before: &FreeListAllocator,
    after: &FreeListAllocator,
    live: Map<usize, Block>,
    changed: Seq<Block>,
    ptr: usize,
)
    requires
        before.wf(),
        is_lease(before, live, ptr),
        kept_outside(before.arena(), after.arena(), changed),
        forall|k: int| 0 <= k < changed.len() ==> #[trigger] apart(live[ptr], changed[k]),
    ensures
        is_lease(after, live, ptr),
{
    let start = before.arena().start();
    before.lemma_wf();
    before.arena().lemma_wf();
    assert forall|x: int|
        ptr - ALLOCATION_HEADER_SIZE - start <= x < ptr - start implies #[trigger] after.arena()@[x]
        == before.arena()@[x] by {
        if covers(changed, start + x) {
            let k = choose|k: int| 0 <= k < changed.len() && #[trigger] within(changed[k], start + x);
            assert(apart(live[ptr], changed[k]));
        }
    }
    lemma_header_same(before.arena(), after.arena(), ptr as int);
}

/// While nothing is handed out, the one free block that is the whole
/// arena accounts for every byte.
pub proof fn lemma_nothing_is_handed_out(allocator: FreeListAllocator)
    requires
        allocator.free_blocks() == seq![allocator.whole()],
    ensures
        accounts_for(&allocator, Map::empty()),
{
    let start = allocator.arena().start();
    let free = allocator.free_blocks();
    let live = Map::<usize, Block>::empty();
    assert forall|addr: int| start <= addr < start + ARENA_SIZE implies #[trigger] owned(
        free,
        live,
        addr,
    ) by {
        assert(within(free[0], addr));
    }
}

/// A request that is served takes its block out of the free blocks and
/// into the blocks that are handed out; one that is not served changes
/// neither.
#[verifier::rlimit(40)]
pub proof fn lemma_request_is_accounted(
    before: FreeListAllocator,
    after: FreeListAllocator,
    size: usize,
    align: usize,
    ptr: usize,
    live: Map<usize, Block>,
)
    requires
        before.wf(),
        is_pow2(align as int),
        accounts_for(&before, live),
        before.allocates(&after, size, align, ptr),
    ensures
        ptr == 0 ==> accounts_for(&after, live),
        ptr != 0 ==> !live.contains_key(ptr) && accounts_for(
            &after,
            live.insert(ptr, after.described(ptr)),
        ),
{
    let list = before.free_blocks();
    let served = request_size(size);
    let aligned = request_align(align);
    let start = before.arena().start();
    before.lemma_wf();
    before.arena().lemma_wf();
    lemma_eight_is_pow2();
    lemma_pow2_upper(aligned);
    if none_fits(list, served, aligned) {
        assert forall|p: usize| live.contains_key(p) implies #[trigger] is_lease(&after, live, p) by {
            assert(is_lease(&before, live, p));
            assert forall|k: int| 0 <= k < list.len() implies #[trigger] apart(live[p], list[k]) by {}
            lemma_lease_stays(&before, &after, live, list, p);
        }
        assert forall|addr: int| start <= addr < start + ARENA_SIZE implies #[trigger] owned(
            after.free_blocks(),
            live,
            addr,
        ) by {
            assert(owned(list, live, addr));
        }
    } else {
        let i = choose|i: int|
            {
                &&& is_choice(before.policy(), list, served, aligned, i)
                &&& ptr == list[i].addr + padding_for(list[i].addr, aligned)
                &&& after.free_blocks() == carve(list, i, served, aligned)
                &&& AllocationHeader::at(after.arena(), ptr as int) == AllocationHeader {
                    block_size: footprint(list[i], served, aligned) as usize,
                    padding: padding_for(list[i].addr, aligned) as usize,
                }
            };
        let block = list[i];
        let carved = carve(list, i, served, aligned);
        let region = taken_region(block, served, aligned);
        lemma_padding_with_header(block.addr as int, aligned as int, FREE_NODE_SIZE as int);
        assert(fits(block, served, aligned));
        assert(block_ok(start, block));
        lemma_released_carved(start, list, i, served, aligned);
        assert(after.described(ptr) == region);
        if live.contains_key(ptr) {
            assert(is_lease(&before, live, ptr));
            assert(apart(live[ptr], list[i]));
            assert(false);
        }
        let grown = live.insert(ptr, region);
        assert forall|p: usize| grown.contains_key(p) implies #[trigger] is_lease(&after, grown, p) by {
            if p != ptr {
                assert(is_lease(&before, live, p));
                assert forall|k: int| 0 <= k < list.len() implies #[trigger] apart(
                    live[p],
                    list[k],
                ) by {}
                lemma_lease_stays(&before, &after, live, list, p);
            }
        }
        assert forall|p: usize, q: usize|
            grown.contains_key(p) && grown.contains_key(q) && p != q implies #[trigger] apart(
            grown[p],
            grown[q],
        ) by {
            if p == ptr {
                assert(apart(live[q], list[i]));
                assert(is_lease(&before, live, q));
            } else if q == ptr {
                assert(apart(live[p], list[i]));
                assert(is_lease(&before, live, p));
            } else {
                assert(apart(live[p], live[q]));
            }
        }
        assert forall|p: usize, k: int|
            grown.contains_key(p) && 0 <= k < carved.len() implies #[trigger] apart(
            grown[p],
            carved[k],
        ) by {
            if p == ptr {
                assert(apart(region, carved[k]));
            } else {
                lemma_carve_at(list, i, served, aligned, k);
                let k0 = carved_from(list, i, served, aligned, k);
                assert(apart(live[p], list[k0]));
                assert(is_lease(&before, live, p));
            }
        }
        assert forall|addr: int| start <= addr < start + ARENA_SIZE implies #[trigger] owned(
            carved,
            grown,
            addr,
        ) by {
            assert(owned(list, live, addr));
            if covers(list, addr) {
                let k = choose|k: int| 0 <= k < list.len() && #[trigger] within(list[k], addr);
                if k == i {
                    if within(region, addr) {
                        assert(grown.contains_key(ptr) && within(grown[ptr], addr));
                    } else {
                        assert(within(carved[i], addr));
                    }
                } else {
                    let at = lemma_carve_keeps(list, i, served, aligned, k);
                    assert(within(carved[at], addr));
                }
            } else {
                let p = choose|p: usize| live.contains_key(p) && #[trigger] within(live[p], addr);
                assert(grown.contains_key(p) && within(grown[p], addr));
            }
        }
    }
}

/// A block that is handed out can be given back, and goes from the
/// blocks that are handed out into the free blocks.
#[verifier::rlimit(40)]
pub proof fn lemma_release_is_accounted(
    before: FreeListAllocator,
    after: FreeListAllocator,
    ptr: usize,
    live: Map<usize, Block>,
)
    requires
        before.wf(),
        accounts_for(&before, live),
        live.contains_key(ptr),
        before.releases(&after, ptr),
    ensures
        before.can_release(ptr),
        accounts_for(&after, live.remove(ptr)),
{
    let list = before.free_blocks();
    let start = before.arena().start();
    let region = live[ptr];
    before.lemma_wf();
    before.arena().lemma_wf();
    assert(is_lease(&before, live, ptr));
    assert(before.described(ptr) == region);
    assert forall|k: int| 0 <= k < list.len() implies #[trigger] apart(region, list[k]) by {}
    assert(before.can_release(ptr));
    let i = lemma_place_of(start, list, region, 0);
    lemma_insertion_point(list, region.addr, i);
    let freed = released_at(list, region, i);
    let rest = live.remove(ptr);
    let changed = list.push(region);
    if i > 0 {
        assert(block_ok(start, list[i - 1]));
        assert(apart(region, list[i - 1]));
    }
    if i < list.len() {
        assert(block_ok(start, list[i]));
        assert(apart(region, list[i]));
    }
    assert forall|p: usize| rest.contains_key(p) implies #[trigger] is_lease(&after, rest, p) by {
        assert(is_lease(&before, live, p));
        assert forall|k: int| 0 <= k < changed.len() implies #[trigger] apart(
            live[p],
            changed[k],
        ) by {
            if k < list.len() {
                assert(apart(live[p], list[k]));
            } else {
                assert(apart(live[p], live[ptr]));
            }
        }
        lemma_lease_stays(&before, &after, live, changed, p);
    }
    assert forall|p: usize, q: usize|
        rest.contains_key(p) && rest.contains_key(q) && p != q implies #[trigger] apart(
        rest[p],
        rest[q],
    ) by {
        assert(apart(live[p], live[q]));
    }
    assert forall|p: usize, k: int|
        rest.contains_key(p) && 0 <= k < freed.len() implies #[trigger] apart(rest[p], freed[k]) by {
        lemma_released_at(list, region, i, k);
        assert(is_lease(&before, live, p));
        if k == merged_index(list, region, i) {
            assert(apart(live[p], live[ptr]));
            if i > 0 {
                assert(apart(live[p], list[i - 1]));
            }
            if i < list.len() {
                assert(apart(live[p], list[i]));
            }
        } else {
            assert(apart(live[p], list[released_from(list, region, i, k)]));
        }
    }
    assert forall|addr: int| start <= addr < start + ARENA_SIZE implies #[trigger] owned(
        freed,
        rest,
        addr,
    ) by {
        assert(owned(list, live, addr));
        let at = merged_index(list, region, i);
        lemma_released_at(list, region, i, at);
        if covers(list, addr) {
            let k = choose|k: int| 0 <= k < list.len() && #[trigger] within(list[k], addr);
            if (k == i - 1 && touches_prev(list, region, i)) || (k == i && touches_next(
                list,
                region,
                i,
            )) {
                assert(within(freed[at], addr));
            } else {
                let kept = lemma_released_keeps(list, region, i, k);
                assert(within(freed[kept], addr));
            }
        } else {
            let p = choose|p: usize| live.contains_key(p) && #[trigger] within(live[p], addr);
            if p == ptr {
                assert(within(freed[at], addr));
            } else {
                assert(rest.contains_key(p) && within(rest[p], addr));
            }
        }
    }
}

/// One call on a free-list allocator.
pub enum Call {
    /// `allocate(size, align)`, which returned `ptr`.
    Request { size: usize, align: usize, ptr: usize },
    /// `dealloc(ptr, ..)`.
    Return { ptr: usize },
}

/// Whether call `k` took the allocator from `states[k]` to `states[k + 1]`.
pub open spec fn is_call(states: Seq<FreeListAllocator>, calls: Seq<Call>, k: int) -> bool {
    &&& states[k].wf()
    &&& match calls[k] {
        Call::Request { size, align, ptr } => {
            &&& is_pow2(align as int)
            &&& states[k].allocates(&states[k + 1], size, align, ptr)
        },
        Call::Return { ptr } => states[k].releases(&states[k + 1], ptr),
    }
}

/// Whether `states` and `calls` record the life of an allocator from
/// its making on: no block is handed out in `states[0]`, and call `k`
/// took the allocator from `states[k]` to `states[k + 1]`.
pub open spec fn is_life(states: Seq<FreeListAllocator>, calls: Seq<Call>) -> bool {
    &&& states.len() == calls.len() + 1
    &&& states[0].free_blocks() == seq![states[0].whole()]
    &&& forall|k: int| 0 <= k < calls.len() ==> #[trigger] is_call(states, calls, k)
}

/// The blocks that are handed out after the first `k` calls: those that
/// a request returned and that did not come back since.
pub open spec fn handed_out(states: Seq<FreeListAllocator>, calls: Seq<Call>, k: int) -> Map<
    usize,
    Block,
>
    decreases k,
{
    if k <= 0 {
        Map::empty()
    } else {
        let before = handed_out(states, calls, k - 1);
        match calls[k - 1] {
            Call::Request { size, align, ptr } => if ptr != 0 {
                before.insert(ptr, states[k].described(ptr))
            } else {
                before
            },
            Call::Return { ptr } => before.remove(ptr),
        }
    }
}

/// Whether every block that was given back in the first `k` calls was
/// handed out at that time.
pub open spec fn returns_what_is_out(
    states: Seq<FreeListAllocator>,
    calls: Seq<Call>,
    k: int,
) -> bool {
    forall|m: int|
        0 <= m < k ==> (#[trigger] calls[m] matches Call::Return { ptr } ==> handed_out(
            states,
            calls,
            m,
        ).contains_key(ptr))
}

/// Through the life of an allocator in which only blocks that are handed
/// out are given back, the free blocks and the blocks that are handed out
/// share no byte and fill the arena, and every block that is given
/// back is taken.
pub proof fn lemma_life_is_accounted(states: Seq<FreeListAllocator>, calls: Seq<Call>, k: int)
    requires
        is_life(states, calls),
        0 <= k <= calls.len(),
        returns_what_is_out(states, calls, k),
    ensures
        accounts_for(&states[k], handed_out(states, calls, k)),
        k > 0 ==> (calls[k - 1] matches Call::Return { ptr } ==> states[k - 1].can_release(ptr)),
    decreases k,
{
    if k == 0 {
        lemma_nothing_is_handed_out(states[0]);
    } else {
        lemma_life_is_accounted(states, calls, k - 1);
        assert(is_call(states, calls, k - 1));
        let live = handed_out(states, calls, k - 1);
        match calls[k - 1] {
            Call::Request { size, align, ptr } => {
                lemma_request_is_accounted(states[k - 1], states[k], size, align, ptr, live);
            },
            Call::Return { ptr } => {
                assert(live.contains_key(ptr));
                lemma_release_is_accounted(states[k - 1], states[k], ptr, live);
            },
        }
    }
}

} // verus!

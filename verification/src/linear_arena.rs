//! A linear arena: every block lies behind the one before, and none is given
//! back before the arena itself goes.

use crate::arena::Arena;
use crate::spin_lock::SpinLock;
use crate::utils::{align_forward, align_up, lemma_align_up, lemma_align_up_overflow};
use crate::ARENA_SIZE;
use vstd::arithmetic::power2::is_pow2;
use vstd::prelude::*;

verus! {

/// An arena and the offset of its first byte that no block has taken.
pub struct ArenaAllocator {
    arena: Arena,
    curr_offset: usize,
}

impl ArenaAllocator {
    /// The top lies within a valid arena.
    pub closed spec fn wf(&self) -> bool {
        &&& self.arena.wf()
        &&& self.curr_offset <= ARENA_SIZE
    }

    pub closed spec fn spec_arena(&self) -> &Arena {
        &self.arena
    }

    pub closed spec fn spec_curr_offset(&self) -> usize {
        self.curr_offset
    }

    /// Address of the first byte that no block has taken.
    pub open spec fn top(&self) -> int {
        self.arena().start() + self.curr_offset()
    }

    /// Where a block aligned to `align` would begin.
    pub open spec fn placement(&self, align: usize) -> int {
        align_up(self.top(), align as int)
    }

    /// Whether a block of `size` bytes aligned to `align` still ends in the arena.
    pub open spec fn fits(&self, size: usize, align: usize) -> bool {
        self.placement(align) + size <= self.arena().start() + ARENA_SIZE
    }

    /// What `allocate(size, align)` does: `after` is the allocator that it
    /// leaves and `ptr` the address that it returns.
    pub open spec fn allocates(&self, after: &Self, size: usize, align: usize, ptr: usize) -> bool {
        &&& after.arena().start() == self.arena().start()
        &&& after.arena()@ == self.arena()@
        &&& if self.fits(size, align) {
            &&& ptr == self.placement(align)
            &&& after.top() == ptr + size
        } else {
            &&& ptr == 0
            &&& after.top() == self.top()
        }
    }

    /// What `wf` says, for callers that cannot see the fields.
    pub proof fn lemma_wf(&self)
        requires
            self.wf(),
        ensures
            self.arena().wf(),
            self.curr_offset() <= ARENA_SIZE,
    {
    }

    /// An allocator over a fresh arena, with nothing taken.
    pub fn new() -> (allocator: Self)
        ensures
            allocator.wf(),
            allocator.curr_offset() == 0,
            allocator.arena().start() == crate::arena::ARENA_BASE,
    {
        ArenaAllocator { arena: Arena::new(), curr_offset: 0 }
    }

    /// The arena that the blocks come from.
    #[verifier::when_used_as_spec(spec_arena)]
    pub fn arena(&self) -> (arena: &Arena)
        ensures
            arena == self.arena(),
    {
        &self.arena
    }

    /// Offset of the first byte that no block has taken.
    #[verifier::when_used_as_spec(spec_curr_offset)]
    pub fn curr_offset(&self) -> (offset: usize)
        ensures
            offset == self.curr_offset(),
    {
        self.curr_offset
    }

    /// Takes `size` bytes at the first address at or behind the top that is
    /// a multiple of `align`, and returns that address; returns the null
    /// address, and changes nothing, where the block would end outside the
    /// arena.
    pub fn allocate(&mut self, size: usize, align: usize) -> (ptr: usize)
        requires
            old(self).wf(),
            is_pow2(align as int),
        ensures
            final(self).wf(),
            old(self).allocates(final(self), size, align, ptr),
            ptr != 0 ==> ptr % align == 0,
            ptr != 0 ==> old(self).top() <= ptr && ptr + size == final(self).top(),
            old(self).top() <= final(self).top(),
    {
        proof {
            self.arena.lemma_wf();
        }
        let base = self.arena.start();
        let top = self.curr_offset + base;
        proof {
            crate::utils::lemma_pow2_upper(align);
            lemma_align_up(top as int, align as int);
        }
        if align - 1 > usize::MAX - top {
            proof {
                lemma_align_up_overflow(top, align);
            }
            return 0;
        }
        let start = align_forward(top, align);
        let end = match start.checked_add(size) {
            Some(end) => end,
            None => {
                return 0;
            },
        };
        if end > self.arena.end() {
            return 0;
        }
        self.curr_offset = end - base;
        start
    }

    /// Does nothing: a linear arena gives no single block back.
    pub fn dealloc(&mut self, ptr: usize, size: usize, align: usize)
        ensures
            *final(self) == *old(self),
    {
    }
}

impl SpinLock<ArenaAllocator> {
    /// `ArenaAllocator::allocate` on the guarded allocator, under the lock.
    pub fn allocate(&mut self, size: usize, align: usize) -> (ptr: usize)
        requires
            !old(self).is_locked(),
            old(self).value().wf(),
            is_pow2(align as int),
        ensures
            !final(self).is_locked(),
            final(self).value().wf(),
            old(self).value().allocates(&final(self).value(), size, align, ptr),
            ptr != 0 ==> ptr % align == 0,
    {
        let mut guard = self.lock();
        let allocator = guard.get_mut();
        let ptr = allocator.allocate(size, align);
        SpinLock::unlock(guard);
        ptr
    }

    /// Does nothing, as `ArenaAllocator::dealloc` does, and takes no lock for it.
    pub fn dealloc(&mut self, ptr: usize, size: usize, align: usize)
        ensures
            *final(self) == *old(self),
    {
    }
}

/// Whether `states`, `requests` and `ptrs` record a run of requests
/// with nothing given back between them: request `k`, for
/// `requests[k].0` bytes aligned to `requests[k].1`, took the allocator
/// from `states[k]` to `states[k + 1]` and returned `ptrs[k]`.
pub open spec fn is_session(
    states: Seq<ArenaAllocator>,
    requests: Seq<(usize, usize)>,
    ptrs: Seq<usize>,
) -> bool {
    &&& states.len() == requests.len() + 1
    &&& ptrs.len() == requests.len()
    &&& forall|k: int| 0 <= k < requests.len() ==> #[trigger] is_step(states, requests, ptrs, k)
}

/// Whether request `k` of the run is an `allocate` on a valid allocator.
pub open spec fn is_step(
    states: Seq<ArenaAllocator>,
    requests: Seq<(usize, usize)>,
    ptrs: Seq<usize>,
    k: int,
) -> bool {
    &&& states[k].wf()
    &&& is_pow2(requests[k].1 as int)
    &&& states[k].allocates(&states[k + 1], requests[k].0, requests[k].1, ptrs[k])
}

/// Over a run of requests the arena stays where it is and the top never
/// goes down.
pub proof fn lemma_top_never_goes_down(
    states: Seq<ArenaAllocator>,
    requests: Seq<(usize, usize)>,
    ptrs: Seq<usize>,
    i: int,
    j: int,
)
    requires
        is_session(states, requests, ptrs),
        0 <= i <= j <= requests.len(),
    ensures
        states[j].arena().start() == states[i].arena().start(),
        states[i].top() <= states[j].top(),
    decreases j - i,
{
    if i < j {
        lemma_top_never_goes_down(states, requests, ptrs, i, j - 1);
        assert(is_step(states, requests, ptrs, j - 1));
        crate::utils::lemma_pow2_upper(requests[j - 1].1);
        lemma_align_up(states[j - 1].top(), requests[j - 1].1 as int);
    }
}

/// Blocks that a linear arena hands out lie in the arena, and each lies
/// behind the whole of every block that was handed out before it: no
/// two of them share a byte, and the address of a later block is greater
/// than that of an earlier one that is not empty.
pub proof fn lemma_later_block_lies_behind(
    states: Seq<ArenaAllocator>,
    requests: Seq<(usize, usize)>,
    ptrs: Seq<usize>,
    i: int,
    j: int,
)
    requires
        is_session(states, requests, ptrs),
        0 <= i < j < requests.len(),
        ptrs[i] != 0,
        ptrs[j] != 0,
    ensures
        states[0].arena().start() <= ptrs[i],
        ptrs[i] + requests[i].0 <= ptrs[j],
        ptrs[j] + requests[j].0 <= states[0].arena().start() + ARENA_SIZE,
        requests[i].0 > 0 ==> ptrs[i] < ptrs[j],
{
    assert(is_step(states, requests, ptrs, i));
    assert(is_step(states, requests, ptrs, j));
    crate::utils::lemma_pow2_upper(requests[i].1);
    crate::utils::lemma_pow2_upper(requests[j].1);
    lemma_align_up(states[i].top(), requests[i].1 as int);
    lemma_align_up(states[j].top(), requests[j].1 as int);
    lemma_top_never_goes_down(states, requests, ptrs, 0, i);
    lemma_top_never_goes_down(states, requests, ptrs, i + 1, j);
    lemma_top_never_goes_down(states, requests, ptrs, 0, j);
}

} // verus!

//! A stack arena: blocks are taken at the top and given back in the reverse
//! order. In front of every block lies a header that says where the top was
//! before the block came.

use crate::arena::{same_outside, store, word_bytes, Arena, WORD_SIZE};
use crate::spin_lock::SpinLock;
use crate::utils::{
    calc_padding_with_header,
    lemma_padding_with_header,
    lemma_pow2_upper,
    padding_with_header,
};
use crate::ARENA_SIZE;
use vstd::arithmetic::power2::is_pow2;
use vstd::prelude::*;

verus! {

/// Number of bytes that a `StackHeader` takes in the arena.
pub const STACK_HEADER_SIZE: usize = 16;

/// What lies in the sixteen bytes in front of a block: first
/// `prev_offset`, then `padding`.
#[derive(Clone, Copy, Debug, PartialEq, Eq)]
pub struct StackHeader {
    /// Offset at which the block before this one begins, headers and
    /// padding included.
    pub prev_offset: usize,
    /// Distance from the place where this block begins to its payload.
    pub padding: usize,
}

impl StackHeader {
    /// The header that `arena` holds in front of the payload address `ptr`.
    pub open spec fn at(arena: &Arena, ptr: int) -> StackHeader {
        StackHeader {
            prev_offset: arena.word_at(ptr - STACK_HEADER_SIZE),
            padding: arena.word_at(ptr - WORD_SIZE),
        }
    }

    /// The bytes of an arena after this header was written in front of the
    /// payload at offset `at`.
    pub open spec fn stored(self, mem: Seq<u8>, at: int) -> Seq<u8> {
        store(
            store(mem, at - STACK_HEADER_SIZE, word_bytes(self.prev_offset)),
            at - WORD_SIZE,
            word_bytes(self.padding),
        )
    }

    /// Reads the header in front of the payload address `ptr`.
    pub fn read(arena: &Arena, ptr: usize) -> (header: StackHeader)
        requires
            arena.wf(),
            arena.holds(ptr - STACK_HEADER_SIZE, STACK_HEADER_SIZE as int),
        ensures
            header == StackHeader::at(arena, ptr as int),
    {
        StackHeader {
            prev_offset: arena.read_word(ptr - STACK_HEADER_SIZE),
            padding: arena.read_word(ptr - WORD_SIZE),
        }
    }

    /// Writes the header in front of the payload address `ptr`.
    pub fn write(self, arena: &mut Arena, ptr: usize)
        requires
            old(arena).wf(),
            old(arena).holds(ptr - STACK_HEADER_SIZE, STACK_HEADER_SIZE as int),
        ensures
            final(arena).wf(),
            final(arena).start() == old(arena).start(),
            final(arena)@ == self.stored(old(arena)@, ptr - old(arena).start()),
            StackHeader::at(final(arena), ptr as int) == self,
            same_outside(old(arena), final(arena), ptr - STACK_HEADER_SIZE, ptr as int),
    {
        arena.write_word(ptr - STACK_HEADER_SIZE, self.prev_offset);
        arena.write_word(ptr - WORD_SIZE, self.padding);
    }
}

/// An arena, the offset of its top, and the offset at which the block
/// under the top begins.
pub struct StackAllocator {
    arena: Arena,
    prev_offset: usize,
    curr_offset: usize,
}

impl StackAllocator {
    /// The top lies within a valid arena.
    pub closed spec fn wf(&self) -> bool {
        &&& self.arena.wf()
        &&& self.curr_offset <= ARENA_SIZE
    }

    pub closed spec fn spec_arena(&self) -> &Arena {
        &self.arena
    }

    pub closed spec fn spec_prev_offset(&self) -> usize {
        self.prev_offset
    }

    pub closed spec fn spec_curr_offset(&self) -> usize {
        self.curr_offset
    }

    /// Address of the top: the first byte that no block has taken.
    pub open spec fn top(&self) -> int {
        self.arena().start() + self.curr_offset()
    }

    /// Distance from the top to the payload of a block aligned to `align`.
    pub open spec fn padding(&self, align: usize) -> int {
        padding_with_header(self.top(), align as int, STACK_HEADER_SIZE as int)
    }

    /// Whether a block of `size` bytes aligned to `align`, with its header,
    /// still ends in the arena.
    pub open spec fn fits(&self, size: usize, align: usize) -> bool {
        self.top() + self.padding(align) + size <= self.arena().start() + ARENA_SIZE
    }

    /// What `allocate(size, align)` does: `after` is the allocator that it
    /// leaves and `ptr` the address that it returns.
    pub open spec fn allocates(&self, after: &Self, size: usize, align: usize, ptr: usize) -> bool {
        &&& after.arena().start() == self.arena().start()
        &&& if self.fits(size, align) {
            &&& ptr == self.top() + self.padding(align)
            &&& after.top() == ptr + size
            &&& after.prev_offset() == self.curr_offset()
            &&& after.arena()@ == (StackHeader {
                prev_offset: self.prev_offset(),
                padding: self.padding(align) as usize,
            }).stored(self.arena()@, ptr - self.arena().start())
            &&& StackHeader::at(after.arena(), ptr as int) == (StackHeader {
                prev_offset: self.prev_offset(),
                padding: self.padding(align) as usize,
            })
            &&& same_outside(self.arena(), after.arena(), ptr - STACK_HEADER_SIZE, ptr as int)
        } else {
            &&& ptr == 0
            &&& after.curr_offset() == self.curr_offset()
            &&& after.prev_offset() == self.prev_offset()
            &&& after.arena()@ == self.arena()@
        }
    }

    /// Whether `dealloc(ptr)` takes the top block away: `ptr` lies in the
    /// arena under the top, a header fits in front of it, and that header
    /// says that the block begins where the block under the top begins.
    pub open spec fn pops(&self, ptr: usize) -> bool {
        &&& self.arena().start() + STACK_HEADER_SIZE <= ptr
        &&& ptr < self.arena().start() + ARENA_SIZE
        &&& ptr < self.top()
        &&& ptr - StackHeader::at(self.arena(), ptr as int).padding - self.arena().start()
            == self.prev_offset()
    }

    /// What `dealloc(ptr, ..)` does: `after` is the allocator that it leaves.
    pub open spec fn releases(&self, after: &Self, ptr: usize) -> bool {
        &&& after.arena().start() == self.arena().start()
        &&& after.arena()@ == self.arena()@
        &&& if self.pops(ptr) {
            &&& after.curr_offset() == self.prev_offset()
            &&& after.prev_offset() == StackHeader::at(self.arena(), ptr as int).prev_offset
        } else {
            &&& after.curr_offset() == self.curr_offset()
            &&& after.prev_offset() == self.prev_offset()
        }
    }

    /// What `wf` says, for callers that cannot see the fields.
    pub proof fn lemma_wf(&self)
        requires
            self.wf(),
        ensures
            self.arena().wf(),
            self.curr_offset() <= ARENA_SIZE,
    {
    }

    /// An allocator over a fresh arena, with no block in it.
    pub fn new() -> (allocator: Self)
        ensures
            allocator.wf(),
            allocator.curr_offset() == 0,
            allocator.prev_offset() == 0,
            allocator.arena().start() == crate::arena::ARENA_BASE,
    {
        StackAllocator { arena: Arena::new(), prev_offset: 0, curr_offset: 0 }
    }

    /// The arena that the blocks come from.
    #[verifier::when_used_as_spec(spec_arena)]
    pub fn arena(&self) -> (arena: &Arena)
        ensures
            arena == self.arena(),
    {
        &self.arena
    }

    /// Offset at which the block under the top begins.
    #[verifier::when_used_as_spec(spec_prev_offset)]
    pub fn prev_offset(&self) -> (offset: usize)
        ensures
            offset == self.prev_offset(),
    {
        self.prev_offset
    }

    /// Offset of the top.
    #[verifier::when_used_as_spec(spec_curr_offset)]
    pub fn curr_offset(&self) -> (offset: usize)
        ensures
            offset == self.curr_offset(),
    {
        self.curr_offset
    }

    /// Takes `size` bytes at the first address that is a multiple of
    /// `align` and leaves room for a header behind the top, writes the
    /// header, and returns the address; returns the null address, and
    /// changes nothing, where the block would end outside the arena.
    pub fn allocate(&mut self, size: usize, align: usize) -> (ptr: usize)
        requires
            old(self).wf(),
            is_pow2(align as int),
        ensures
            final(self).wf(),
            old(self).allocates(final(self), size, align, ptr),
            ptr != 0 ==> ptr % align == 0,
            ptr != 0 ==> old(self).top() + STACK_HEADER_SIZE <= ptr,
            ptr != 0 ==> ptr + size == final(self).top(),
            old(self).top() <= final(self).top(),
    {
        proof {
            self.arena.lemma_wf();
        }
        let base = self.arena.start();
        let end = self.arena.end();
        let curr_addr = self.curr_offset + base;
        proof {
            lemma_pow2_upper(align);
            lemma_padding_with_header(curr_addr as int, align as int, STACK_HEADER_SIZE as int);
        }
        let padding = calc_padding_with_header(curr_addr, align, STACK_HEADER_SIZE);
        if padding > end - curr_addr || size > end - curr_addr - padding {
            return 0;
        }
        let ptr = curr_addr + padding;
        let header = StackHeader { prev_offset: self.prev_offset, padding };
        header.write(&mut self.arena, ptr);
        self.prev_offset = self.curr_offset;
        self.curr_offset = ptr + size - base;
        proof {
            assert(crate::utils::is_aligned(curr_addr + padding, align as int));
        }
        ptr
    }

    /// Gives the top block back where `ptr` is its address: the top goes
    /// back to where that block began. Any other `ptr` changes nothing.
    pub fn dealloc(&mut self, ptr: usize, size: usize, align: usize)
        requires
            old(self).wf(),
        ensures
            final(self).wf(),
            old(self).releases(final(self), ptr),
    {
        proof {
            self.arena.lemma_wf();
        }
        let base = self.arena.start();
        if !(base <= ptr && ptr < self.arena.end()) {
            return ;
        }
        if ptr >= base + self.curr_offset {
            return ;
        }
        if ptr - base < STACK_HEADER_SIZE {
            return ;
        }
        let header = StackHeader::read(&self.arena, ptr);
        if header.padding > ptr - base {
            return ;
        }
        if ptr - header.padding - base != self.prev_offset {
            return ;
        }
        self.curr_offset = self.prev_offset;
        self.prev_offset = header.prev_offset;
    }
}

impl SpinLock<StackAllocator> {
    /// `StackAllocator::allocate` on the guarded allocator, under the lock.
    pub fn allocate(&mut self, size: usize, align: usize) -> (ptr: usize)
        requires
            !old(self).is_locked(),
            old(self).value().wf(),
            is_pow2(align as int),
        ensures
            !final(self).is_locked(),
            final(self).value().wf(),
            old(self).value().allocates(&final(self).value(), size, align, ptr),
            ptr != 0 ==> ptr % align == 0,
    {
        let mut guard = self.lock();
        let allocator = guard.get_mut();
        let ptr = allocator.allocate(size, align);
        SpinLock::unlock(guard);
        ptr
    }

    /// `StackAllocator::dealloc` on the guarded allocator, under the lock.
    pub fn dealloc(&mut self, ptr: usize, size: usize, align: usize)
        requires
            !old(self).is_locked(),
            old(self).value().wf(),
        ensures
            !final(self).is_locked(),
            final(self).value().wf(),
            old(self).value().releases(&final(self).value(), ptr),
    {
        let mut guard = self.lock();
        let allocator = guard.get_mut();
        allocator.dealloc(ptr, size, align);
        SpinLock::unlock(guard);
    }
}

/// Whether `states`, `requests` and `ptrs` record a run of requests
/// with nothing given back between them: request `k`, for
/// `requests[k].0` bytes aligned to `requests[k].1`, took the allocator
/// from `states[k]` to `states[k + 1]` and returned `ptrs[k]`.
pub open spec fn is_session(
    states: Seq<StackAllocator>,
    requests: Seq<(usize, usize)>,
    ptrs: Seq<usize>,
) -> bool {
    &&& states.len() == requests.len() + 1
    &&& ptrs.len() == requests.len()
    &&& forall|k: int| 0 <= k < requests.len() ==> #[trigger] is_step(states, requests, ptrs, k)
}

/// Whether request `k` of the run is an `allocate` on a valid allocator.
pub open spec fn is_step(
    states: Seq<StackAllocator>,
    requests: Seq<(usize, usize)>,
    ptrs: Seq<usize>,
    k: int,
) -> bool {
    &&& states[k].wf()
    &&& is_pow2(requests[k].1 as int)
    &&& states[k].allocates(&states[k + 1], requests[k].0, requests[k].1, ptrs[k])
}

/// Whether `states` records that the blocks at `ptrs` were given back
/// last first: the `k`th `dealloc`, of the block `ptrs[ptrs.len() - 1 - k]`,
/// took the allocator from `states[k]` to `states[k + 1]`.
pub open spec fn is_unwinding(states: Seq<StackAllocator>, ptrs: Seq<usize>) -> bool {
    &&& states.len() == ptrs.len() + 1
    &&& forall|k: int| 0 <= k < ptrs.len() ==> #[trigger] is_unwind_step(states, ptrs, k)
}

/// Whether the `k`th `dealloc` of the unwinding is one on a valid allocator.
pub open spec fn is_unwind_step(states: Seq<StackAllocator>, ptrs: Seq<usize>, k: int) -> bool {
    &&& states[k].wf()
    &&& states[k].releases(&states[k + 1], ptrs[ptrs.len() - 1 - k])
}

/// Over a run of requests the arena stays where it is, the top never
/// goes down, and no byte under the top changes.
pub proof fn lemma_under_the_top_stays(
    states: Seq<StackAllocator>,
    requests: Seq<(usize, usize)>,
    ptrs: Seq<usize>,
    i: int,
    j: int,
)
    requires
        is_session(states, requests, ptrs),
        0 <= i <= j <= requests.len(),
    ensures
        states[j].arena().start() == states[i].arena().start(),
        states[i].top() <= states[j].top(),
        same_outside(
            states[i].arena(),
            states[j].arena(),
            states[i].top(),
            states[i].arena().start() + ARENA_SIZE,
        ),
    decreases j - i,
{
    if i < j {
        lemma_under_the_top_stays(states, requests, ptrs, i, j - 1);
        assert(is_step(states, requests, ptrs, j - 1));
        lemma_pow2_upper(requests[j - 1].1);
        lemma_padding_with_header(
            states[j - 1].top(),
            requests[j - 1].1 as int,
            STACK_HEADER_SIZE as int,
        );
        let before = states[j - 1].arena();
        let after = states[j].arena();
        assert forall|x: int|
            0 <= x < states[i].arena()@.len() && !(states[i].top() <= states[i].arena().start() + x
                < states[i].arena().start() + ARENA_SIZE) implies #[trigger] after@[x]
            == states[i].arena()@[x] by {
            assert(after@[x] == before@[x]);
        }
    }
}

/// Blocks that a stack hands out lie in the arena, and each lies behind
/// the whole of every block that was handed out before it: no two of
/// them share a byte.
pub proof fn lemma_later_block_lies_behind(
    states: Seq<StackAllocator>,
    requests: Seq<(usize, usize)>,
    ptrs: Seq<usize>,
    i: int,
    j: int,
)
    requires
        is_session(states, requests, ptrs),
        0 <= i < j < requests.len(),
        ptrs[i] != 0,
        ptrs[j] != 0,
    ensures
        states[0].arena().start() <= ptrs[i],
        ptrs[i] + requests[i].0 <= ptrs[j],
        ptrs[j] + requests[j].0 <= states[0].arena().start() + ARENA_SIZE,
{
    assert(is_step(states, requests, ptrs, i));
    assert(is_step(states, requests, ptrs, j));
    lemma_pow2_upper(requests[i].1);
    lemma_pow2_upper(requests[j].1);
    lemma_padding_with_header(states[i].top(), requests[i].1 as int, STACK_HEADER_SIZE as int);
    lemma_padding_with_header(states[j].top(), requests[j].1 as int, STACK_HEADER_SIZE as int);
    lemma_under_the_top_stays(states, requests, ptrs, 0, i);
    lemma_under_the_top_stays(states, requests, ptrs, i + 1, j);
    lemma_under_the_top_stays(states, requests, ptrs, 0, j);
}

/// Where the blocks of the requests from `k` on were given back last
/// first, the top and the block under it are as they were before
/// request `k`.
proof fn lemma_unwound_to(
    ups: Seq<StackAllocator>,
    requests: Seq<(usize, usize)>,
    ptrs: Seq<usize>,
    downs: Seq<StackAllocator>,
    k: int,
)
    requires
        is_session(ups, requests, ptrs),
        is_unwinding(downs, ptrs),
        downs[0] == ups[requests.len() as int],
        forall|m: int| 0 <= m < requests.len() ==> (#[trigger] requests[m]).0 > 0,
        0 <= k <= requests.len(),
    ensures
        downs[requests.len() - k].curr_offset() == ups[k].curr_offset(),
        downs[requests.len() - k].prev_offset() == ups[k].prev_offset(),
        downs[requests.len() - k].arena().start() == ups[0].arena().start(),
        downs[requests.len() - k].arena()@ == ups[requests.len() as int].arena()@,
    decreases requests.len() - k,
{
    let n = requests.len() as int;
    lemma_under_the_top_stays(ups, requests, ptrs, 0, n);
    if k < n {
        lemma_unwound_to(ups, requests, ptrs, downs, k + 1);
        let before = downs[n - k - 1];
        assert(is_unwind_step(downs, ptrs, n - k - 1));
        assert(is_step(ups, requests, ptrs, k));
        assert(requests[k].0 > 0);
        lemma_under_the_top_stays(ups, requests, ptrs, 0, k);
        lemma_under_the_top_stays(ups, requests, ptrs, k + 1, n);
        lemma_pow2_upper(requests[k].1);
        lemma_padding_with_header(ups[k].top(), requests[k].1 as int, STACK_HEADER_SIZE as int);
        ups[k].lemma_wf();
        ups[k].arena().lemma_wf();
        if ups[k].fits(requests[k].0, requests[k].1) {
            let ptr = ptrs[k];
            if k + 1 < n {
                assert(is_step(ups, requests, ptrs, k + 1));
            } else {
                assert(is_unwind_step(downs, ptrs, 0));
            }
            ups[k + 1].lemma_wf();
            crate::arena::lemma_same_word(
                ups[k + 1].arena(),
                ups[n].arena(),
                ups[k + 1].top(),
                ups[0].arena().start() + ARENA_SIZE,
                ptr - STACK_HEADER_SIZE,
            );
            crate::arena::lemma_same_word(
                ups[k + 1].arena(),
                ups[n].arena(),
                ups[k + 1].top(),
                ups[0].arena().start() + ARENA_SIZE,
                ptr - WORD_SIZE,
            );
            assert(before.arena()@ == ups[n].arena()@);
            assert(StackHeader::at(before.arena(), ptr as int) == StackHeader::at(
                ups[k + 1].arena(),
                ptr as int,
            ));
            assert(before.pops(ptr));
        } else {
            assert(!before.pops(ptrs[k]));
        }
    }
}

/// Where every block of a run of requests, none of them empty, was given
/// back, the last first, the top and the block under it are where they
/// were before the run: in a fresh allocator, both at offset zero.
pub proof fn lemma_round_trip(
    ups: Seq<StackAllocator>,
    requests: Seq<(usize, usize)>,
    ptrs: Seq<usize>,
    downs: Seq<StackAllocator>,
)
    requires
        is_session(ups, requests, ptrs),
        is_unwinding(downs, ptrs),
        downs[0] == ups[requests.len() as int],
        forall|m: int| 0 <= m < requests.len() ==> (#[trigger] requests[m]).0 > 0,
    ensures
        downs[requests.len() as int].curr_offset() == ups[0].curr_offset(),
        downs[requests.len() as int].prev_offset() == ups[0].prev_offset(),
{
    lemma_unwound_to(ups, requests, ptrs, downs, 0);
}

/// A block of a stack: the offset at which it begins, the address of its
/// payload, and the offset at which it ends.
pub struct Frame {
    pub base: usize,
    pub ptr: usize,
    pub end: usize,
}

/// Offset at which the frame under the one with index `k` begins, or
/// zero under the lowest.
pub open spec fn base_under(frames: Seq<Frame>, k: int) -> usize {
    if k > 0 {
        frames[k - 1].base
    } else {
        0
    }
}

/// Offset at which the frame under the one with index `k` ends, or zero
/// under the lowest.
pub open spec fn end_under(frames: Seq<Frame>, k: int) -> usize {
    if k > 0 {
        frames[k - 1].end
    } else {
        0
    }
}

/// Whether the frame with index `k` begins where the one under it ends,
/// lies in the arena with its header in front of the payload, and that
/// header says where the frame under it begins and how far the payload
/// lies behind the frame's own first byte.
pub open spec fn is_frame(allocator: &StackAllocator, frames: Seq<Frame>, k: int) -> bool {
    let start = allocator.arena().start();
    &&& frames[k].base == end_under(frames, k)
    &&& start + frames[k].base + STACK_HEADER_SIZE <= frames[k].ptr
    &&& frames[k].ptr <= start + frames[k].end
    &&& frames[k].end <= ARENA_SIZE
    &&& StackHeader::at(allocator.arena(), frames[k].ptr as int) == (StackHeader {
        prev_offset: base_under(frames, k),
        padding: (frames[k].ptr - start - frames[k].base) as usize,
    })
}

/// Whether `frames` holds the blocks of `allocator`, lowest first: the
/// headers link each to the one under it, the top is where the highest
/// ends, and the block under the top is the highest.
pub open spec fn holds_frames(allocator: &StackAllocator, frames: Seq<Frame>) -> bool {
    &&& forall|k: int| 0 <= k < frames.len() ==> #[trigger] is_frame(allocator, frames, k)
    &&& allocator.curr_offset() == end_under(frames, frames.len() as int)
    &&& allocator.prev_offset() == base_under(frames, frames.len() as int)
}

/// A frame begins at least a header above the frames under it, and no
/// frame ends above the top.
pub proof fn lemma_frames_rise(allocator: &StackAllocator, frames: Seq<Frame>, i: int, j: int)
    requires
        holds_frames(allocator, frames),
        0 <= i <= j < frames.len(),
    ensures
        frames[i].base + STACK_HEADER_SIZE * (j - i) <= frames[j].base,
        frames[j].base + STACK_HEADER_SIZE <= frames[j].end,
        frames[i].end <= frames[j].end,
        frames[j].end <= allocator.curr_offset(),
    decreases frames.len() - i,
{
    assert(is_frame(allocator, frames, i));
    assert(is_frame(allocator, frames, j));
    assert(is_frame(allocator, frames, frames.len() - 1));
    if i < j {
        assert(is_frame(allocator, frames, i + 1));
        lemma_frames_rise(allocator, frames, i + 1, j);
    }
    if j < frames.len() - 1 {
        assert(is_frame(allocator, frames, j + 1));
        lemma_frames_rise(allocator, frames, j + 1, frames.len() - 1);
    }
}

/// While a stack holds a block, the block under the top begins under
/// the top.
pub proof fn lemma_block_lies_under_the_top(allocator: &StackAllocator, frames: Seq<Frame>)
    requires
        holds_frames(allocator, frames),
        frames.len() > 0,
    ensures
        allocator.prev_offset() < allocator.curr_offset(),
{
    lemma_frames_rise(allocator, frames, 0, frames.len() - 1);
}

/// A request that is served puts its block on top of the others; one
/// that is not served changes nothing.
pub proof fn lemma_block_is_stacked(
    before: StackAllocator,
    after: StackAllocator,
    size: usize,
    align: usize,
    ptr: usize,
    frames: Seq<Frame>,
)
    requires
        before.wf(),
        is_pow2(align as int),
        holds_frames(&before, frames),
        before.allocates(&after, size, align, ptr),
    ensures
        ptr == 0 ==> holds_frames(&after, frames),
        ptr != 0 ==> holds_frames(
            &after,
            frames.push(Frame { base: before.curr_offset(), ptr, end: after.curr_offset() }),
        ),
{
    let start = before.arena().start();
    before.lemma_wf();
    before.arena().lemma_wf();
    lemma_pow2_upper(align);
    lemma_padding_with_header(before.top(), align as int, STACK_HEADER_SIZE as int);
    if before.fits(size, align) {
        let grown = frames.push(
            Frame { base: before.curr_offset(), ptr, end: after.curr_offset() },
        );
        assert forall|k: int| 0 <= k < grown.len() implies #[trigger] is_frame(&after, grown, k) by {
            if k < frames.len() {
                assert(is_frame(&before, frames, k));
                lemma_frames_rise(&before, frames, k, k);
                crate::arena::lemma_same_word(
                    before.arena(),
                    after.arena(),
                    ptr - STACK_HEADER_SIZE,
                    ptr as int,
                    frames[k].ptr - STACK_HEADER_SIZE,
                );
                crate::arena::lemma_same_word(
                    before.arena(),
                    after.arena(),
                    ptr - STACK_HEADER_SIZE,
                    ptr as int,
                    frames[k].ptr - WORD_SIZE,
                );
            }
        }
    } else {
        assert forall|k: int| 0 <= k < frames.len() implies #[trigger] is_frame(
            &after,
            frames,
            k,
        ) by {
            assert(is_frame(&before, frames, k));
            assert(StackHeader::at(after.arena(), frames[k].ptr as int) == StackHeader::at(
                before.arena(),
                frames[k].ptr as int,
            ));
        }
    }
}

/// The block on top, where it is not empty, is taken off when it is
/// given back.
pub proof fn lemma_top_block_is_taken_off(
    before: StackAllocator,
    after: StackAllocator,
    ptr: usize,
    frames: Seq<Frame>,
)
    requires
        before.wf(),
        holds_frames(&before, frames),
        frames.len() > 0,
        ptr == frames[frames.len() - 1].ptr,
        ptr < before.top(),
        before.releases(&after, ptr),
    ensures
        before.pops(ptr),
        holds_frames(&after, frames.drop_last()),
{
    let rest = frames.drop_last();
    before.lemma_wf();
    before.arena().lemma_wf();
    assert(is_frame(&before, frames, frames.len() - 1));
    assert forall|k: int| 0 <= k < rest.len() implies #[trigger] is_frame(&after, rest, k) by {
        assert(is_frame(&before, frames, k));
        assert(StackHeader::at(after.arena(), frames[k].ptr as int) == StackHeader::at(
            before.arena(),
            frames[k].ptr as int,
        ));
    }
}

/// A block that is given back while another lies on top of it stays
/// where it is, and so does every other.
pub proof fn lemma_lower_block_stays(
    before: StackAllocator,
    after: StackAllocator,
    frames: Seq<Frame>,
    k: int,
)
    requires
        before.wf(),
        holds_frames(&before, frames),
        0 <= k < frames.len() - 1,
        before.releases(&after, frames[k].ptr),
    ensures
        !before.pops(frames[k].ptr),
        holds_frames(&after, frames),
{
    before.lemma_wf();
    before.arena().lemma_wf();
    assert(is_frame(&before, frames, k));
    lemma_frames_rise(&before, frames, k, frames.len() - 1);
    assert forall|m: int| 0 <= m < frames.len() implies #[trigger] is_frame(&after, frames, m) by {
        assert(is_frame(&before, frames, m));
        assert(StackHeader::at(after.arena(), frames[m].ptr as int) == StackHeader::at(
            before.arena(),
            frames[m].ptr as int,
        ));
    }
}

} // verus!

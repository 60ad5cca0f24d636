//! A pool: the arena is cut into chunks of one size, and the chunks that
//! are free form a list whose links lie in the chunks themselves.

use crate::arena::{store, word_bytes, Arena, WORD_SIZE};
use crate::spin_lock::SpinLock;
use crate::utils::{lemma_multiple_of_multiple, lemma_multiples_apart};
use crate::ARENA_SIZE;
use vstd::arithmetic::div_mod::{lemma_fundamental_div_mod, lemma_mod_multiples_basic};
use vstd::arithmetic::power2::is_pow2;
use vstd::prelude::*;

verus! {

/// Number of bytes that a `PoolFreeNode` takes in the arena.
pub const POOL_NODE_SIZE: usize = 8;

/// What lies in the first bytes of a free chunk: the address of the next
/// free chunk, or the null address in the last one.
#[derive(Clone, Copy, Debug, PartialEq, Eq)]
pub struct PoolFreeNode {
    pub next: usize,
}

impl PoolFreeNode {
    /// The node that `arena` holds at address `addr`.
    pub open spec fn at(arena: &Arena, addr: int) -> PoolFreeNode {
        PoolFreeNode { next: arena.word_at(addr) }
    }

    /// Reads the node at address `addr`.
    pub fn read(arena: &Arena, addr: usize) -> (node: PoolFreeNode)
        requires
            arena.wf(),
            arena.holds(addr as int, POOL_NODE_SIZE as int),
        ensures
            node == PoolFreeNode::at(arena, addr as int),
    {
        PoolFreeNode { next: arena.read_word(addr) }
    }

    /// Writes the node at address `addr`; no byte outside it changes.
    pub fn write(self, arena: &mut Arena, addr: usize)
        requires
            old(arena).wf(),
            old(arena).holds(addr as int, POOL_NODE_SIZE as int),
        ensures
            final(arena).wf(),
            final(arena).start() == old(arena).start(),
            final(arena)@ == store(old(arena)@, addr - old(arena).start(), word_bytes(self.next)),
            PoolFreeNode::at(final(arena), addr as int) == self,
            forall|a: int|
                old(arena).holds(a, WORD_SIZE as int) && (a + WORD_SIZE <= addr || addr
                    + WORD_SIZE <= a) ==> #[trigger] final(arena).word_at(a) == old(arena).word_at(
                    a,
                ),
    {
        arena.write_word(addr, self.next);
    }
}

/// Address of the chunk with index `i` in an arena that begins at `start`.
pub open spec fn chunk_addr(start: usize, chunk_size: usize, i: int) -> int {
    start + i * chunk_size
}

/// The addresses of the first `n` chunks, in ascending order.
pub open spec fn chunks(start: usize, chunk_size: usize, n: int) -> Seq<usize> {
    Seq::new(n as nat, |i: int| chunk_addr(start, chunk_size, i) as usize)
}

/// Whether the words of `arena` at the addresses in `list` link them in
/// that order, from `head` to the null address.
pub open spec fn linked(arena: &Arena, head: usize, list: Seq<usize>) -> bool {
    &&& head == (if list.len() > 0 {
        list[0]
    } else {
        0
    })
    &&& forall|i: int|
        0 <= i < list.len() ==> (#[trigger] arena.word_at(list[i] as int)) == (if i + 1
            < list.len() {
            list[i + 1]
        } else {
            0
        })
}

/// An arena cut into chunks of `chunk_size` bytes, and the list of those
/// that are free. The list is built when the first block is asked for.
pub struct PoolAllocator {
    arena: Arena,
    chunk_size: usize,
    head: usize,
    initialized: bool,
    free: Ghost<Seq<usize>>,
}

impl PoolAllocator {
    pub closed spec fn spec_arena(&self) -> &Arena {
        &self.arena
    }

    pub closed spec fn spec_chunk_size(&self) -> usize {
        self.chunk_size
    }

    pub closed spec fn spec_head(&self) -> usize {
        self.head
    }

    pub closed spec fn spec_is_initialized(&self) -> bool {
        self.initialized
    }

    /// Number of chunks in the arena.
    pub open spec fn chunk_count(&self) -> int {
        ARENA_SIZE as int / self.chunk_size() as int
    }

    /// Whether `addr` is the address of a chunk of this pool.
    pub open spec fn is_chunk(&self, addr: usize) -> bool {
        &&& self.arena().start() <= addr
        &&& (addr - self.arena().start()) % (self.chunk_size() as int) == 0
        &&& (addr - self.arena().start()) / (self.chunk_size() as int) < self.chunk_count()
    }

    /// The addresses of all chunks, in ascending order.
    pub open spec fn all_chunks(&self) -> Seq<usize> {
        chunks(self.arena().start(), self.chunk_size(), self.chunk_count())
    }

    /// The addresses of the free chunks, in the order in which they will be
    /// handed out. Before the list is built, every chunk is free.
    pub closed spec fn free_list(&self) -> Seq<usize> {
        if self.initialized {
            self.free@
        } else {
            self.all_chunks()
        }
    }

    /// A chunk can hold a node, and once the list is built it links
    /// chunks of this pool, none of them twice.
    pub closed spec fn wf(&self) -> bool {
        &&& self.arena.wf()
        &&& self.chunk_size >= POOL_NODE_SIZE
        &&& if self.initialized {
            &&& linked(&self.arena, self.head, self.free@)
            &&& self.free@.no_duplicates()
            &&& forall|i: int| 0 <= i < self.free@.len() ==> self.is_chunk(#[trigger] self.free@[i])
        } else {
            self.head == 0
        }
    }

    /// What `allocate(size, align)` does: `after` is the pool that it
    /// leaves and `ptr` the address that it returns.
    pub open spec fn allocates(&self, after: &Self, ptr: usize) -> bool {
        &&& after.arena().start() == self.arena().start()
        &&& after.chunk_size() == self.chunk_size()
        &&& after.is_initialized()
        &&& self.is_initialized() ==> after.arena()@ == self.arena()@
        &&& if self.free_list().len() > 0 {
            &&& ptr == self.free_list()[0]
            &&& after.free_list() == self.free_list().drop_first()
        } else {
            &&& ptr == 0
            &&& after.free_list() == self.free_list()
        }
    }

    /// Whether `dealloc(ptr, ..)` takes `ptr` back: the list is built and
    /// `ptr` lies in the arena.
    pub open spec fn accepts(&self, ptr: usize) -> bool {
        &&& self.is_initialized()
        &&& self.arena().start() <= ptr < self.arena().start() + ARENA_SIZE
    }

    /// What `dealloc(ptr, ..)` does: `after` is the pool that it leaves.
    pub open spec fn releases(&self, after: &Self, ptr: usize) -> bool {
        &&& after.arena().start() == self.arena().start()
        &&& after.chunk_size() == self.chunk_size()
        &&& after.is_initialized() == self.is_initialized()
        &&& if self.accepts(ptr) {
            &&& after.free_list() == seq![ptr] + self.free_list()
            &&& after.head() == ptr
            &&& after.arena()@ == store(
                self.arena()@,
                ptr - self.arena().start(),
                word_bytes(self.head()),
            )
        } else {
            &&& after.free_list() == self.free_list()
            &&& after.head() == self.head()
            &&& after.arena()@ == self.arena()@
        }
    }

    /// What `wf` says, for callers that cannot see the fields.
    pub proof fn lemma_wf(&self)
        requires
            self.wf(),
        ensures
            self.arena().wf(),
            self.chunk_size() >= POOL_NODE_SIZE,
            self.free_list().no_duplicates(),
            forall|i: int|
                0 <= i < self.free_list().len() ==> self.is_chunk(#[trigger] self.free_list()[i]),
            self.is_initialized() ==> linked(self.arena(), self.head(), self.free_list()),
            !self.is_initialized() ==> self.head() == 0 && self.free_list() == self.all_chunks(),
    {
        if !self.initialized {
            self.lemma_all_chunks();
        }
    }

    /// Every chunk lies in the arena, at least `chunk_size` before the next.
    pub proof fn lemma_chunk(&self, i: int)
        requires
            self.arena().wf(),
            self.chunk_size() > 0,
            0 <= i < self.chunk_count(),
        ensures
            self.arena().start() <= chunk_addr(self.arena().start(), self.chunk_size(), i),
            chunk_addr(self.arena().start(), self.chunk_size(), i) + self.chunk_size()
                <= self.arena().start() + ARENA_SIZE,
            self.is_chunk(chunk_addr(self.arena().start(), self.chunk_size(), i) as usize),
            (chunk_addr(self.arena().start(), self.chunk_size(), i) - self.arena().start())
                / (self.chunk_size() as int) == i,
            chunk_addr(self.arena().start(), self.chunk_size(), i) as usize == chunk_addr(
                self.arena().start(),
                self.chunk_size(),
                i,
            ),
    {
        let c = self.chunk_size() as int;
        let n = self.chunk_count();
        self.arena().lemma_wf();
        lemma_fundamental_div_mod(ARENA_SIZE as int, c);
        assert(0 <= i * c && i * c + c <= n * c && n * c <= ARENA_SIZE) by (nonlinear_arith)
            requires
                0 <= i < n,
                c > 0,
                ARENA_SIZE == c * n + (ARENA_SIZE as int) % c,
                0 <= (ARENA_SIZE as int) % c,
        ;
        lemma_mod_multiples_basic(i, c);
        vstd::arithmetic::div_mod::lemma_div_multiples_vanish(i, c);
        assert(i * c == c * i) by (nonlinear_arith);
    }

    /// A chunk ends before any chunk with a higher index begins.
    pub proof fn lemma_chunk_order(&self, i: int, j: int)
        requires
            self.chunk_size() > 0,
            0 <= i < j,
        ensures
            chunk_addr(self.arena().start(), self.chunk_size(), i) + self.chunk_size()
                <= chunk_addr(self.arena().start(), self.chunk_size(), j),
    {
        let c = self.chunk_size() as int;
        assert(i * c + c <= j * c) by (nonlinear_arith)
            requires
                0 <= i < j,
                c > 0,
        ;
    }

    /// Two different chunks of a pool do not overlap.
    pub proof fn lemma_chunks_apart(&self, a: usize, b: usize)
        requires
            self.chunk_size() > 0,
            self.is_chunk(a),
            self.is_chunk(b),
            a != b,
        ensures
            a + self.chunk_size() <= b || b + self.chunk_size() <= a,
    {
        let start = self.arena().start() as int;
        let c = self.chunk_size() as int;
        if a < b {
            lemma_multiples_apart(a - start, b - start, c);
        } else {
            lemma_multiples_apart(b - start, a - start, c);
        }
    }

    /// A chunk lies in the arena.
    pub proof fn lemma_chunk_in_arena(&self, a: usize)
        requires
            self.arena().wf(),
            self.chunk_size() > 0,
            self.is_chunk(a),
        ensures
            self.arena().start() <= a,
            a + self.chunk_size() <= self.arena().start() + ARENA_SIZE,
    {
        let start = self.arena().start() as int;
        let c = self.chunk_size() as int;
        let i = (a - start) / c;
        lemma_fundamental_div_mod(a - start, c);
        assert(0 <= i) by (nonlinear_arith)
            requires
                a - start == c * i,
                a - start >= 0,
                c > 0,
        ;
        self.lemma_chunk(i);
    }

    /// The list of all chunks holds chunks of this pool, none of them twice.
    pub proof fn lemma_all_chunks(&self)
        requires
            self.arena().wf(),
            self.chunk_size() > 0,
        ensures
            self.all_chunks().no_duplicates(),
            forall|i: int|
                0 <= i < self.all_chunks().len() ==> self.is_chunk(#[trigger] self.all_chunks()[i]),
    {
        let all = self.all_chunks();
        assert forall|i: int| 0 <= i < all.len() implies self.is_chunk(#[trigger] all[i]) by {
            self.lemma_chunk(i);
        }
        assert forall|i: int, j: int| 0 <= i < all.len() && 0 <= j < all.len() && i != j implies all[i]
            != all[j] by {
            self.lemma_chunk(i);
            self.lemma_chunk(j);
            if i < j {
                self.lemma_chunk_order(i, j);
            } else {
                self.lemma_chunk_order(j, i);
            }
        }
    }

    /// A pool over a fresh arena with chunks of `chunk_size` bytes, all
    /// of them free.
    pub fn new(chunk_size: usize) -> (pool: Self)
        requires
            chunk_size >= POOL_NODE_SIZE,
        ensures
            pool.wf(),
            pool.chunk_size() == chunk_size,
            !pool.is_initialized(),
            pool.head() == 0,
            pool.arena().start() == crate::arena::ARENA_BASE,
            pool.free_list() == pool.all_chunks(),
    {
        PoolAllocator {
            arena: Arena::new(),
            chunk_size,
            head: 0,
            initialized: false,
            free: Ghost(Seq::empty()),
        }
    }

    /// The arena that the chunks lie in.
    #[verifier::when_used_as_spec(spec_arena)]
    pub fn arena(&self) -> (arena: &Arena)
        ensures
            arena == self.arena(),
    {
        &self.arena
    }

    /// Number of bytes in a chunk.
    #[verifier::when_used_as_spec(spec_chunk_size)]
    pub fn chunk_size(&self) -> (size: usize)
        ensures
            size == self.chunk_size(),
    {
        self.chunk_size
    }

    /// Address of the first free chunk of the list, or the null address
    /// where the list is empty or not built yet.
    #[verifier::when_used_as_spec(spec_head)]
    pub fn head(&self) -> (addr: usize)
        ensures
            addr == self.head(),
    {
        self.head
    }

    /// Whether the list is built.
    #[verifier::when_used_as_spec(spec_is_initialized)]
    pub fn is_initialized(&self) -> (built: bool)
        ensures
            built == self.is_initialized(),
    {
        self.initialized
    }

    /// Builds the list: every chunk is free, and each is linked to the one
    /// behind it.
    pub fn init(&mut self)
        requires
            old(self).wf(),
        ensures
            final(self).wf(),
            final(self).is_initialized(),
            final(self).arena().start() == old(self).arena().start(),
            final(self).chunk_size() == old(self).chunk_size(),
            final(self).free_list() == final(self).all_chunks(),
            final(self).head() == (if final(self).chunk_count() > 0 {
                final(self).arena().start()
            } else {
                0
            }),
            linked(final(self).arena(), final(self).head(), final(self).free_list()),
    {
        self.initialized = true;
        let chunk_count: usize = ARENA_SIZE / self.chunk_size;
        let base = self.arena.start();
        let ghost all = self.all_chunks();
        proof {
            self.arena.lemma_wf();
            self.lemma_all_chunks();
        }
        let mut i: usize = 0;
        while i < chunk_count
            invariant
                i <= chunk_count,
                chunk_count == self.chunk_count(),
                self.chunk_size == old(self).chunk_size,
                self.chunk_size >= POOL_NODE_SIZE,
                self.arena.wf(),
                self.arena.start() == base,
                base == old(self).arena.start(),
                self.initialized,
                all == self.all_chunks(),
                all.len() == chunk_count,
                forall|j: int|
                    0 <= j < i ==> (#[trigger] self.arena.word_at(all[j] as int)) == (if j + 1
                        < all.len() {
                        all[j + 1]
                    } else {
                        0
                    }),
            decreases chunk_count - i,
        {
            proof {
                self.arena.lemma_wf();
                self.lemma_chunk(i as int);
                if i + 1 < chunk_count {
                    self.lemma_chunk(i + 1);
                }
                assert forall|j: int| 0 <= j < i implies all[j] + WORD_SIZE <= all[i as int]
                    && self.arena.holds(all[j] as int, WORD_SIZE as int) by {
                    self.lemma_chunk(j);
                    self.lemma_chunk_order(j, i as int);
                }
            }
            let addr = base + i * self.chunk_size;
            let next = if i + 1 < chunk_count {
                addr + self.chunk_size
            } else {
                0
            };
            assert(addr == all[i as int]);
            assert(i + 1 < chunk_count ==> next == all[i + 1]) by (nonlinear_arith)
                requires
                    i + 1 < chunk_count ==> next == base + i * self.chunk_size + self.chunk_size,
                    i + 1 < chunk_count ==> all[i + 1] == base + (i + 1) * self.chunk_size,
            ;
            let node = PoolFreeNode { next };
            node.write(&mut self.arena, addr);
            i += 1;
        }
        self.head = if chunk_count > 0 {
            base
        } else {
            0
        };
        self.free = Ghost(all);
    }

    /// Hands out the first free chunk of the list, or returns the null
    /// address where no chunk is free. Builds the list first where that
    /// has not been done.
    pub fn allocate(&mut self, size: usize, align: usize) -> (ptr: usize)
        requires
            old(self).wf(),
            size <= old(self).chunk_size(),
        ensures
            final(self).wf(),
            old(self).allocates(final(self), ptr),
            ptr != 0 ==> old(self).is_chunk(ptr),
            ptr != 0 && align > 0 && old(self).arena().start() % align == 0 && old(
                self,
            ).chunk_size() % align == 0 ==> ptr % align == 0,
    {
        if !self.initialized {
            self.init();
        }
        proof {
            self.arena.lemma_wf();
        }
        if self.head == 0 {
            return 0;
        }
        let ptr = self.head;
        proof {
            self.lemma_chunk_in_arena(ptr);
            if align > 0 && self.arena.start() % align == 0 && self.chunk_size % align == 0 {
                lemma_multiple_of_multiple(
                    ptr - self.arena.start(),
                    self.chunk_size as int,
                    align as int,
                );
                vstd::arithmetic::div_mod::lemma_mod_adds(
                    self.arena.start() as int,
                    ptr - self.arena.start(),
                    align as int,
                );
            }
        }
        let node = PoolFreeNode::read(&self.arena, ptr);
        self.head = node.next;
        self.free = Ghost(self.free@.drop_first());
        ptr
    }

    /// Puts the chunk at `ptr` in front of the list. Does nothing while
    /// the list is not built, or where `ptr` lies outside the arena.
    pub fn dealloc(&mut self, ptr: usize, size: usize, align: usize)
        requires
            old(self).wf(),
            old(self).accepts(ptr) ==> old(self).is_chunk(ptr) && !old(self).free_list().contains(
                ptr,
            ),
        ensures
            final(self).wf(),
            old(self).releases(final(self), ptr),
    {
        proof {
            self.arena.lemma_wf();
        }
        if !self.initialized {
            return ;
        }
        if !(self.arena.start() <= ptr && ptr < self.arena.end()) {
            return ;
        }
        proof {
            self.lemma_chunk_in_arena(ptr);
            assert forall|i: int| 0 <= i < self.free@.len() implies ptr + WORD_SIZE
                <= self.free@[i] || self.free@[i] + WORD_SIZE <= ptr by {
                self.lemma_chunks_apart(ptr, self.free@[i]);
            }
            assert forall|i: int| 0 <= i < self.free@.len() implies self.arena.holds(
                self.free@[i] as int,
                WORD_SIZE as int,
            ) by {
                self.lemma_chunk_in_arena(self.free@[i]);
            }
        }
        let node = PoolFreeNode { next: self.head };
        node.write(&mut self.arena, ptr);
        self.head = ptr;
        self.free = Ghost(seq![ptr] + self.free@);
    }
}

impl SpinLock<PoolAllocator> {
    /// `PoolAllocator::allocate` on the guarded pool, under the lock.
    pub fn allocate(&mut self, size: usize, align: usize) -> (ptr: usize)
        requires
            !old(self).is_locked(),
            old(self).value().wf(),
            size <= old(self).value().chunk_size(),
        ensures
            !final(self).is_locked(),
            final(self).value().wf(),
            old(self).value().allocates(&final(self).value(), ptr),
    {
        let mut guard = self.lock();
        let pool = guard.get_mut();
        let ptr = pool.allocate(size, align);
        SpinLock::unlock(guard);
        ptr
    }

    /// `PoolAllocator::dealloc` on the guarded pool, under the lock.
    pub fn dealloc(&mut self, ptr: usize, size: usize, align: usize)
        requires
            !old(self).is_locked(),
            old(self).value().wf(),
            old(self).value().accepts(ptr) ==> old(self).value().is_chunk(ptr) && !old(
                self,
            ).value().free_list().contains(ptr),
        ensures
            !final(self).is_locked(),
            final(self).value().wf(),
            old(self).value().releases(&final(self).value(), ptr),
    {
        let mut guard = self.lock();
        let pool = guard.get_mut();
        pool.dealloc(ptr, size, align);
        SpinLock::unlock(guard);
    }
}

/// Whether `states`, `sizes` and `ptrs` record a run of requests with
/// nothing given back between them: request `k`, for `sizes[k]` bytes,
/// took the pool from `states[k]` to `states[k + 1]` and returned
/// `ptrs[k]`.
pub open spec fn is_session(states: Seq<PoolAllocator>, sizes: Seq<usize>, ptrs: Seq<usize>) -> bool {
    &&& states.len() == sizes.len() + 1
    &&& ptrs.len() == sizes.len()
    &&& forall|k: int| 0 <= k < sizes.len() ==> #[trigger] is_step(states, sizes, ptrs, k)
}

/// Whether request `k` of the run is an `allocate` on a valid pool.
pub open spec fn is_step(
    states: Seq<PoolAllocator>,
    sizes: Seq<usize>,
    ptrs: Seq<usize>,
    k: int,
) -> bool {
    &&& states[k].wf()
    &&& sizes[k] <= states[k].chunk_size()
    &&& states[k].allocates(&states[k + 1], ptrs[k])
}

/// Over a run of requests the pool stays the same pool, and the chunks
/// that are free after it are the last of those that were free before.
pub proof fn lemma_free_list_shrinks(
    states: Seq<PoolAllocator>,
    sizes: Seq<usize>,
    ptrs: Seq<usize>,
    i: int,
    j: int,
) -> (taken: int)
    requires
        is_session(states, sizes, ptrs),
        0 <= i <= j <= sizes.len(),
    ensures
        states[j].arena().start() == states[i].arena().start(),
        states[j].chunk_size() == states[i].chunk_size(),
        0 <= taken <= states[i].free_list().len(),
        states[j].free_list() == states[i].free_list().skip(taken),
        i < j && ptrs[i] != 0 ==> taken >= 1,
    decreases j - i,
{
    if i == j {
        assert(states[i].free_list().skip(0) =~= states[i].free_list());
        0
    } else {
        let before = lemma_free_list_shrinks(states, sizes, ptrs, i, j - 1);
        assert(is_step(states, sizes, ptrs, j - 1));
        assert(is_step(states, sizes, ptrs, i));
        let list = states[i].free_list();
        if states[j - 1].free_list().len() > 0 {
            assert(list.skip(before).drop_first() =~= list.skip(before + 1));
            before + 1
        } else {
            before
        }
    }
}

/// Blocks that a pool hands out are chunks of it, and no two of them
/// are the same chunk: no two of them share a byte.
pub proof fn lemma_blocks_are_apart(
    states: Seq<PoolAllocator>,
    sizes: Seq<usize>,
    ptrs: Seq<usize>,
    i: int,
    j: int,
)
    requires
        is_session(states, sizes, ptrs),
        0 <= i < j < sizes.len(),
        ptrs[i] != 0,
        ptrs[j] != 0,
    ensures
        states[0].arena().start() <= ptrs[i],
        ptrs[i] + sizes[i] <= states[0].arena().start() + ARENA_SIZE,
        states[0].arena().start() <= ptrs[j],
        ptrs[j] + sizes[j] <= states[0].arena().start() + ARENA_SIZE,
        ptrs[i] + sizes[i] <= ptrs[j] || ptrs[j] + sizes[j] <= ptrs[i],
{
    let pool = states[i];
    let list = pool.free_list();
    assert(is_step(states, sizes, ptrs, i));
    assert(is_step(states, sizes, ptrs, j));
    pool.lemma_wf();
    let _ = lemma_free_list_shrinks(states, sizes, ptrs, 0, i);
    let taken = lemma_free_list_shrinks(states, sizes, ptrs, i, j);
    assert(ptrs[i] == list[0]);
    assert(ptrs[j] == list.skip(taken)[0]);
    assert(ptrs[j] == list[taken]);
    assert(pool.is_chunk(list[0]));
    assert(pool.is_chunk(list[taken]));
    pool.lemma_chunks_apart(ptrs[i], ptrs[j]);
    pool.lemma_chunk_in_arena(ptrs[i]);
    pool.lemma_chunk_in_arena(ptrs[j]);
}

/// In a pool whose arena begins on a multiple of `align` and whose chunk
/// size is a power of two no less than the power of two `align`, every
/// chunk begins on a multiple of `align`.
pub proof fn lemma_chunk_is_aligned(pool: PoolAllocator, ptr: usize, align: usize)
    requires
        pool.is_chunk(ptr),
        is_pow2(align as int),
        is_pow2(pool.chunk_size() as int),
        align <= pool.chunk_size(),
        pool.arena().start() % align == 0,
    ensures
        ptr % align == 0,
{
    let start = pool.arena().start();
    crate::utils::lemma_pow2_upper(align);
    crate::utils::lemma_pow2_divides(align, pool.chunk_size());
    lemma_multiple_of_multiple(ptr - start, pool.chunk_size() as int, align as int);
    vstd::arithmetic::div_mod::lemma_mod_adds(start as int, ptr - start, align as int);
}

/// A block that a pool handed out is a chunk of it that is free no more:
/// it can be given back.
pub proof fn lemma_block_can_come_back(before: PoolAllocator, after: PoolAllocator, ptr: usize)
    requires
        before.wf(),
        before.allocates(&after, ptr),
        ptr != 0,
    ensures
        after.accepts(ptr),
        after.is_chunk(ptr),
        !after.free_list().contains(ptr),
{
    let list = before.free_list();
    before.lemma_wf();
    assert(before.is_chunk(list[0]));
    before.lemma_chunk_in_arena(ptr);
    if after.free_list().contains(ptr) {
        let k = choose|k: int| 0 <= k < list.drop_first().len() && list.drop_first()[k] == ptr;
        assert(list[k + 1] == ptr);
    }
}

/// The chunk that was given back last is the one that the next request gets.
pub proof fn lemma_freed_chunk_comes_next(
    before: PoolAllocator,
    freed: PoolAllocator,
    after: PoolAllocator,
    ptr: usize,
    next: usize,
)
    requires
        before.accepts(ptr),
        before.releases(&freed, ptr),
        freed.allocates(&after, next),
    ensures
        next == ptr,
        after.free_list() == before.free_list(),
{
    let list = seq![ptr] + before.free_list();
    assert(list[0] == ptr);
    assert(list.drop_first() =~= before.free_list());
}

} // verus!

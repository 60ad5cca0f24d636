//! The byte region that every allocator serves its requests from.
//!
//! An arena is `ARENA_SIZE` bytes of its own that stand for the addresses
//! from `start()` up to `end()`. The allocators keep their bookkeeping in
//! these bytes, a word at a time, and hand out addresses of that range.
//! Whoever gives the blocks memory of the machine lays it out by offset:
//! the byte at address `a` is the one at offset `a - start()`.

use crate::ARENA_SIZE;
use vstd::bytes::{
    lemma_auto_spec_u64_to_from_le_bytes,
    spec_u64_from_le_bytes,
    spec_u64_to_le_bytes,
    u64_from_le_bytes,
    u64_to_le_bytes,
};
use vstd::prelude::*;
use vstd::slice::slice_subrange;

verus! {

/// Address of the first byte of every arena: a multiple of every
/// alignment up to `ARENA_SIZE` and beyond.
pub const ARENA_BASE: usize = 0x10_0000;

/// Number of bytes that one word of bookkeeping takes in an arena.
pub const WORD_SIZE: usize = 8;

/// A region of `ARENA_SIZE` bytes that begins at the address `start()`.
pub struct Arena {
    start: usize,
    bytes: Vec<u8>,
}

impl View for Arena {
    type V = Seq<u8>;

    /// The bytes of the arena; the byte at address `a` is `self@[a - self.start()]`.
    closed spec fn view(&self) -> Seq<u8> {
        self.bytes@
    }
}

/// The eight bytes that hold `value` in an arena, lowest byte first.
pub open spec fn word_bytes(value: usize) -> Seq<u8> {
    spec_u64_to_le_bytes(value as u64)
}

/// `mem` with the bytes from `at` on replaced by `bytes`.
pub open spec fn store(mem: Seq<u8>, at: int, bytes: Seq<u8>) -> Seq<u8> {
    Seq::new(
        mem.len(),
        |i: int|
            if at <= i < at + bytes.len() {
                bytes[i - at]
            } else {
                mem[i]
            },
    )
}

/// The word that the eight bytes of `mem` from `at` on hold.
pub open spec fn load(mem: Seq<u8>, at: int) -> usize {
    spec_u64_from_le_bytes(mem.subrange(at, at + WORD_SIZE as int)) as usize
}

/// A word that was stored is loaded again.
pub proof fn lemma_load_stored(mem: Seq<u8>, at: int, value: usize)
    requires
        0 <= at,
        at + WORD_SIZE <= mem.len(),
    ensures
        load(store(mem, at, word_bytes(value)), at) == value,
{
    lemma_auto_spec_u64_to_from_le_bytes();
    let after = store(mem, at, word_bytes(value));
    assert(after.subrange(at, at + WORD_SIZE as int) =~= word_bytes(value));
}

/// A load sees only the eight bytes it reads.
pub proof fn lemma_load_same(pre: Seq<u8>, post: Seq<u8>, at: int)
    requires
        0 <= at,
        at + WORD_SIZE <= pre.len(),
        pre.len() == post.len(),
        forall|i: int| at <= i < at + WORD_SIZE ==> pre[i] == post[i],
    ensures
        load(post, at) == load(pre, at),
{
    assert(post.subrange(at, at + WORD_SIZE as int) =~= pre.subrange(at, at + WORD_SIZE as int));
}

/// Whether `after` is `before` but for the bytes at the addresses from
/// `lo` up to `hi`, which may differ.
pub open spec fn same_outside(before: &Arena, after: &Arena, lo: int, hi: int) -> bool {
    &&& after.start() == before.start()
    &&& after@.len() == before@.len()
    &&& forall|i: int|
        0 <= i < before@.len() && !(lo <= before.start() + i < hi) ==> #[trigger] after@[i]
            == before@[i]
}

/// A word that lies outside the bytes that may differ is the same.
pub proof fn lemma_same_word(before: &Arena, after: &Arena, lo: int, hi: int, addr: int)
    requires
        before.wf(),
        same_outside(before, after, lo, hi),
        before.holds(addr, WORD_SIZE as int),
        addr + WORD_SIZE <= lo || hi <= addr,
    ensures
        after.word_at(addr) == before.word_at(addr),
{
    before.lemma_wf();
    lemma_load_same(before@, after@, addr - before.start());
}

impl Arena {
    /// The arena holds its `ARENA_SIZE` bytes, does not begin at the null
    /// address and ends within the address space.
    pub closed spec fn wf(&self) -> bool {
        &&& self.bytes@.len() == ARENA_SIZE
        &&& 0 < self.start
        &&& self.start + ARENA_SIZE <= usize::MAX
    }

    pub closed spec fn spec_start(&self) -> usize {
        self.start
    }

    pub open spec fn spec_end(&self) -> usize {
        (self.start() + ARENA_SIZE) as usize
    }

    pub open spec fn spec_size(&self) -> usize {
        ARENA_SIZE
    }

    /// Whether the `len` bytes from address `addr` on lie in the arena.
    pub open spec fn holds(&self, addr: int, len: int) -> bool {
        self.start() <= addr && 0 <= len && addr + len <= self.start() + ARENA_SIZE
    }

    /// The word that the arena holds at address `addr`.
    pub open spec fn word_at(&self, addr: int) -> usize {
        load(self@, addr - self.start())
    }

    /// What `wf` says, for callers that cannot see the fields.
    pub proof fn lemma_wf(&self)
        requires
            self.wf(),
        ensures
            self@.len() == ARENA_SIZE,
            0 < self.start(),
            self.start() + ARENA_SIZE <= usize::MAX,
    {
    }

    /// A zeroed arena at `ARENA_BASE`.
    pub fn new() -> (arena: Self)
        ensures
            arena.wf(),
            arena.start() == ARENA_BASE,
            arena@ == Seq::new(ARENA_SIZE as nat, |i: int| 0u8),
    {
        let arena = Arena { start: ARENA_BASE, bytes: vec![0u8; ARENA_SIZE] };
        assert(arena.bytes@ =~= Seq::new(ARENA_SIZE as nat, |i: int| 0u8));
        arena
    }

    /// Address of the first byte.
    #[verifier::when_used_as_spec(spec_start)]
    pub fn start(&self) -> (addr: usize)
        ensures
            addr == self.start(),
    {
        self.start
    }

    /// Address just past the last byte.
    #[verifier::when_used_as_spec(spec_end)]
    pub fn end(&self) -> (addr: usize)
        requires
            self.wf(),
        ensures
            addr == self.end(),
            addr == self.start() + ARENA_SIZE,
    {
        self.start + ARENA_SIZE
    }

    /// Number of bytes in the arena.
    #[verifier::when_used_as_spec(spec_size)]
    pub fn size(&self) -> (n: usize)
        ensures
            n == ARENA_SIZE,
    {
        ARENA_SIZE
    }

    /// Reads the word at address `addr`.
    pub fn read_word(&self, addr: usize) -> (value: usize)
        requires
            self.wf(),
            self.holds(addr as int, WORD_SIZE as int),
        ensures
            value == self.word_at(addr as int),
    {
        let at = addr - self.start;
        let word = u64_from_le_bytes(slice_subrange(self.bytes.as_slice(), at, at + WORD_SIZE));
        #[verifier::truncate]
        (word as usize)
    }

    /// Writes `value` as the word at address `addr`; no other byte changes.
    pub fn write_word(&mut self, addr: usize, value: usize)
        requires
            old(self).wf(),
            old(self).holds(addr as int, WORD_SIZE as int),
        ensures
            final(self).wf(),
            final(self).start() == old(self).start(),
            final(self)@ == store(old(self)@, addr - old(self).start(), word_bytes(value)),
            final(self).word_at(addr as int) == value,
            same_outside(old(self), final(self), addr as int, addr + WORD_SIZE),
            forall|a: int|
                old(self).holds(a, WORD_SIZE as int) && (a + WORD_SIZE <= addr || addr + WORD_SIZE
                    <= a) ==> #[trigger] final(self).word_at(a) == old(self).word_at(a),
    {
        let at = addr - self.start;
        let image = u64_to_le_bytes(value as u64);
        let ghost before = self.bytes@;
        let mut k: usize = 0;
        while k < WORD_SIZE
            invariant
                k <= WORD_SIZE,
                at + WORD_SIZE <= ARENA_SIZE,
                image@ == word_bytes(value),
                image@.len() == WORD_SIZE,
                self.start == old(self).start,
                self.bytes@.len() == ARENA_SIZE,
                before == old(self).bytes@,
                forall|i: int|
                    0 <= i < ARENA_SIZE ==> #[trigger] self.bytes@[i] == (if at <= i < at + k {
                        image@[i - at]
                    } else {
                        before[i]
                    }),
            decreases WORD_SIZE - k,
        {
            self.bytes.set(at + k, image[k]);
            k += 1;
        }
        proof {
            assert(self.bytes@ =~= store(before, at as int, word_bytes(value)));
            lemma_load_stored(before, at as int, value);
            assert forall|a: int|
                old(self).holds(a, WORD_SIZE as int) && (a + WORD_SIZE <= addr || addr + WORD_SIZE
                    <= a) implies #[trigger] self.word_at(a) == old(self).word_at(a) by {
                lemma_load_same(before, self.bytes@, a - self.start);
            }
        }
    }
}

} // verus!

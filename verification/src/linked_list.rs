//! A free list: the free blocks of the arena form a list in ascending
//! address order whose nodes lie in the blocks themselves. A request takes
//! the first block that is large enough, or the one that it fills best;
//! a block that comes back is merged with the free blocks that touch it.

use crate::arena::{lemma_same_word, same_outside, Arena, WORD_SIZE};
use crate::blocks::{
    addr_at,
    apart,
    block_ok,
    carve,
    carved_from,
    carved_next,
    covers,
    fits,
    footprint,
    is_best_fit,
    is_choice,
    is_first_fit,
    is_insertion_point,
    lemma_carve_at,
    lemma_carve_spaced,
    lemma_insertion_point,
    lemma_released_at,
    lemma_released_spaced,
    lemma_spaced_no_touching,
    merged_block,
    merged_index,
    needed,
    next_addr,
    no_touching,
    none_fits,
    ordered,
    padding_for,
    released,
    released_at,
    released_from,
    remainder,
    request_align,
    request_size,
    spaced,
    splits,
    touches_next,
    touches_prev,
    within,
    Block,
};
use crate::spin_lock::SpinLock;
use crate::utils::{
    calc_padding_with_header,
    is_aligned,
    lemma_eight_is_pow2,
    lemma_multiple_of_multiple,
    lemma_padding_with_header,
    lemma_pow2_upper,
    lemma_small_pow2,
};
use crate::ARENA_SIZE;
use vstd::arithmetic::power2::is_pow2;
use vstd::prelude::*;

verus! {

/// Number of bytes that a `FreeNode` takes in the arena.
pub const FREE_NODE_SIZE: usize = 16;

/// Number of bytes that an `AllocationHeader` takes in the arena.
pub const ALLOCATION_HEADER_SIZE: usize = 16;

/// The least alignment that a block gets.
pub const MIN_ALIGN: usize = 8;

/// How a request chooses among the free blocks that are large enough.
#[derive(Clone, Copy, Debug, PartialEq, Eq)]
pub enum PlacementPolicy {
    /// The first of them in the list.
    FindFirst,
    /// The one that the request leaves least of; of several, the first.
    FindBest,
}

/// What lies in the sixteen bytes in front of a block that is handed out:
/// first `block_size`, then `padding`.
#[derive(Clone, Copy, Debug, PartialEq, Eq)]
pub struct AllocationHeader {
    /// Number of bytes that the block takes from the arena, padding
    /// included.
    pub block_size: usize,
    /// Distance from the first of those bytes to the payload.
    pub padding: usize,
}

/// What lies in the first sixteen bytes of a free block: first `next`,
/// the address of the free block behind it or the null address, then
/// `block_size`.
#[derive(Clone, Copy, Debug, PartialEq, Eq)]
pub struct FreeNode {
    pub next: usize,
    pub block_size: usize,
}

impl AllocationHeader {
    /// The header that `arena` holds in front of the payload address `ptr`.
    pub open spec fn at(arena: &Arena, ptr: int) -> AllocationHeader {
        AllocationHeader {
            block_size: arena.word_at(ptr - ALLOCATION_HEADER_SIZE),
            padding: arena.word_at(ptr - WORD_SIZE),
        }
    }

    /// Reads the header in front of the payload address `ptr`.
    pub fn read(arena: &Arena, ptr: usize) -> (header: AllocationHeader)
        requires
            arena.wf(),
            arena.holds(ptr - ALLOCATION_HEADER_SIZE, ALLOCATION_HEADER_SIZE as int),
        ensures
            header == AllocationHeader::at(arena, ptr as int),
    {
        AllocationHeader {
            block_size: arena.read_word(ptr - ALLOCATION_HEADER_SIZE),
            padding: arena.read_word(ptr - WORD_SIZE),
        }
    }

    /// Writes the header in front of the payload address `ptr`; no byte
    /// outside it changes.
    pub fn write(self, arena: &mut Arena, ptr: usize)
        requires
            old(arena).wf(),
            old(arena).holds(ptr - ALLOCATION_HEADER_SIZE, ALLOCATION_HEADER_SIZE as int),
        ensures
            final(arena).wf(),
            AllocationHeader::at(final(arena), ptr as int) == self,
            same_outside(old(arena), final(arena), ptr - ALLOCATION_HEADER_SIZE, ptr as int),
    {
        arena.write_word(ptr - ALLOCATION_HEADER_SIZE, self.block_size);
        arena.write_word(ptr - WORD_SIZE, self.padding);
    }
}

impl FreeNode {
    /// The node that `arena` holds at address `addr`.
    pub open spec fn at(arena: &Arena, addr: int) -> FreeNode {
        FreeNode { next: arena.word_at(addr), block_size: arena.word_at(addr + WORD_SIZE) }
    }

    /// Reads the node at address `addr`.
    pub fn read(arena: &Arena, addr: usize) -> (node: FreeNode)
        requires
            arena.wf(),
            arena.holds(addr as int, FREE_NODE_SIZE as int),
        ensures
            node == FreeNode::at(arena, addr as int),
    {
        proof {
            arena.lemma_wf();
        }
        FreeNode { next: arena.read_word(addr), block_size: arena.read_word(addr + WORD_SIZE) }
    }

    /// Writes the node at address `addr`; no byte outside it changes.
    pub fn write(self, arena: &mut Arena, addr: usize)
        requires
            old(arena).wf(),
            old(arena).holds(addr as int, FREE_NODE_SIZE as int),
        ensures
            final(arena).wf(),
            FreeNode::at(final(arena), addr as int) == self,
            same_outside(old(arena), final(arena), addr as int, addr + FREE_NODE_SIZE),
    {
        proof {
            arena.lemma_wf();
        }
        arena.write_word(addr, self.next);
        arena.write_word(addr + WORD_SIZE, self.block_size);
    }
}

/// Whether `arena` holds at the address of the block with index `i` of
/// `list` a node with the size of that block and the address of the next.
pub open spec fn links(arena: &Arena, list: Seq<Block>, i: int) -> bool {
    &&& list[i].addr != 0
    &&& arena.holds(list[i].addr as int, FREE_NODE_SIZE as int)
    &&& FreeNode::at(arena, list[i].addr as int) == FreeNode {
        next: if i + 1 < list.len() {
            list[i + 1].addr
        } else {
            0
        },
        block_size: list[i].size,
    }
}

/// Whether the nodes that `arena` holds at the addresses of `list` link
/// its blocks in that order, from `head` to the null address, each with
/// the size of its block.
pub open spec fn linked(arena: &Arena, head: usize, list: Seq<Block>) -> bool {
    &&& head == (if list.len() > 0 {
        list[0].addr
    } else {
        0
    })
    &&& forall|i: int| 0 <= i < list.len() ==> #[trigger] links(arena, list, i)
}

/// Whether a list of nodes begins at `head`.
pub open spec fn is_chain(arena: &Arena, head: usize) -> bool {
    exists|list: Seq<Block>| linked(arena, head, list)
}

/// The blocks of the list of nodes that begins at `head`.
pub open spec fn chain(arena: &Arena, head: usize) -> Seq<Block> {
    choose|list: Seq<Block>| linked(arena, head, list)
}

/// The list behind the first block is linked from that block's successor.
pub proof fn lemma_linked_tail(arena: &Arena, head: usize, list: Seq<Block>)
    requires
        linked(arena, head, list),
        list.len() > 0,
    ensures
        head != 0,
        linked(arena, FreeNode::at(arena, head as int).next, list.drop_first()),
{
    let tail = list.drop_first();
    assert(links(arena, list, 0));
    assert forall|i: int| 0 <= i < tail.len() implies #[trigger] links(arena, tail, i) by {
        assert(links(arena, list, i + 1));
        assert(tail[i] == list[i + 1]);
        if i + 1 < tail.len() {
            assert(tail[i + 1] == list[i + 2]);
        }
    }
}

/// Only one list of nodes begins at `head`.
pub proof fn lemma_linked_unique(arena: &Arena, head: usize, a: Seq<Block>, b: Seq<Block>)
    requires
        linked(arena, head, a),
        linked(arena, head, b),
    ensures
        a == b,
    decreases a.len(),
{
    if a.len() == 0 {
        if b.len() > 0 {
            assert(links(arena, b, 0));
        }
        assert(a =~= b);
    } else {
        assert(links(arena, a, 0));
        if b.len() == 0 {
            assert(false);
        }
        assert(links(arena, b, 0));
        lemma_linked_tail(arena, head, a);
        lemma_linked_tail(arena, head, b);
        let next = FreeNode::at(arena, head as int).next;
        lemma_linked_unique(arena, next, a.drop_first(), b.drop_first());
        assert(a[0] == b[0]);
        assert(a =~= seq![a[0]] + a.drop_first());
        assert(b =~= seq![b[0]] + b.drop_first());
    }
}

/// The list that the nodes link is the chain.
pub proof fn lemma_chain_is(arena: &Arena, head: usize, list: Seq<Block>)
    requires
        linked(arena, head, list),
    ensures
        is_chain(arena, head),
        chain(arena, head) == list,
{
    lemma_linked_unique(arena, head, chain(arena, head), list);
}

/// What a search returns for the block with index `i` of `list`: its
/// address, the address of the block in front of it, and the padding.
pub open spec fn found_at(list: Seq<Block>, align: usize, i: int) -> (Option<usize>, Option<usize>, usize) {
    (
        Some(list[i].addr),
        if i > 0 {
            Some(list[i - 1].addr)
        } else {
            None
        },
        padding_for(list[i].addr, align) as usize,
    )
}

/// What a search with `policy` finds in `list`: where a block is chosen,
/// what `found_at` says of it; else nothing.
pub open spec fn search_result(
    policy: PlacementPolicy,
    list: Seq<Block>,
    size: usize,
    align: usize,
    found: (Option<usize>, Option<usize>, usize),
) -> bool {
    if none_fits(list, size, align) {
        found == (None::<usize>, None::<usize>, 0usize)
    } else {
        exists|i: int| is_choice(policy, list, size, align, i) && found == found_at(list, align, i)
    }
}

/// Walks the list that begins at `head` and returns the first block that
/// is large enough for `size` bytes aligned to `align`.
pub fn find_first(arena: &Arena, head: usize, size: usize, align: usize) -> (found: (
    Option<usize>,
    Option<usize>,
    usize,
))
    requires
        arena.wf(),
        is_chain(arena, head),
        is_pow2(align as int),
    ensures
        search_result(PlacementPolicy::FindFirst, chain(arena, head), size, align, found),
{
    let ghost list = chain(arena, head);
    let ghost i: int = 0;
    let mut node_addr = head;
    let mut prev_addr: Option<usize> = None;
    proof {
        lemma_pow2_upper(align);
    }
    while node_addr != 0
        invariant
            arena.wf(),
            is_pow2(align as int),
            0 < align,
            2 * align - 1 <= usize::MAX,
            list == chain(arena, head),
            linked(arena, head, list),
            0 <= i <= list.len(),
            node_addr == (if i < list.len() {
                list[i].addr
            } else {
                0
            }),
            prev_addr == (if i > 0 {
                Some(list[i - 1].addr)
            } else {
                None::<usize>
            }),
            forall|j: int| 0 <= j < i ==> !#[trigger] fits(list[j], size, align),
        decreases list.len() - i,
    {
        assert(links(arena, list, i));
        let node = FreeNode::read(arena, node_addr);
        proof {
            lemma_padding_with_header(node_addr as int, align as int, FREE_NODE_SIZE as int);
        }
        let padding = calc_padding_with_header(node_addr, align, FREE_NODE_SIZE);
        let enough = match size.checked_add(padding) {
            Some(required) => node.block_size >= required,
            None => false,
        };
        if enough {
            proof {
                assert(fits(list[i], size, align));
                assert(is_first_fit(list, size, align, i));
                assert(is_choice(PlacementPolicy::FindFirst, list, size, align, i));
                assert(!none_fits(list, size, align));
                assert((Some(node_addr), prev_addr, padding) == found_at(list, align, i));
            }
            return (Some(node_addr), prev_addr, padding);
        }
        prev_addr = Some(node_addr);
        node_addr = node.next;
        proof {
            i = i + 1;
        }
    }
    proof {
        if i < list.len() {
            assert(links(arena, list, i));
        }
    }
    (None, None, 0)
}

/// Walks the whole list that begins at `head` and returns the block that
/// `size` bytes aligned to `align` leave least of; of several, the first.
pub fn find_best(arena: &Arena, head: usize, size: usize, align: usize) -> (found: (
    Option<usize>,
    Option<usize>,
    usize,
))
    requires
        arena.wf(),
        is_chain(arena, head),
        is_pow2(align as int),
    ensures
        search_result(PlacementPolicy::FindBest, chain(arena, head), size, align, found),
{
    let ghost list = chain(arena, head);
    let ghost i: int = 0;
    let ghost best: int = 0;
    let mut node_addr = head;
    let mut prev_addr: Option<usize> = None;
    let mut best_node: Option<usize> = None;
    let mut prev_to_best: Option<usize> = None;
    let mut best_padding: usize = 0;
    let mut smallest_diff: usize = 0;
    proof {
        lemma_pow2_upper(align);
    }
    while node_addr != 0
        invariant
            arena.wf(),
            is_pow2(align as int),
            0 < align,
            2 * align - 1 <= usize::MAX,
            list == chain(arena, head),
            linked(arena, head, list),
            0 <= i <= list.len(),
            node_addr == (if i < list.len() {
                list[i].addr
            } else {
                0
            }),
            prev_addr == (if i > 0 {
                Some(list[i - 1].addr)
            } else {
                None::<usize>
            }),
            best_node.is_none() ==> (forall|j: int|
                0 <= j < i ==> !#[trigger] fits(list[j], size, align)) && prev_to_best.is_none()
                && best_padding == 0,
            best_node.is_some() ==> {
                &&& is_best_fit(list.take(i), size, align, best)
                &&& (best_node, prev_to_best, best_padding) == found_at(list, align, best)
                &&& smallest_diff == list[best].size - needed(list[best], size, align)
            },
        decreases list.len() - i,
    {
        assert(links(arena, list, i));
        let node = FreeNode::read(arena, node_addr);
        proof {
            lemma_padding_with_header(node_addr as int, align as int, FREE_NODE_SIZE as int);
        }
        let padding = calc_padding_with_header(node_addr, align, FREE_NODE_SIZE);
        let better = match size.checked_add(padding) {
            Some(required) => node.block_size >= required && (best_node.is_none()
                || node.block_size - required < smallest_diff),
            None => false,
        };
        let ghost before = list.take(i);
        let ghost after = list.take(i + 1);
        proof {
            assert forall|j: int| 0 <= j < i implies #[trigger] after[j] == before[j] by {}
            assert(after[i] == list[i]);
        }
        if better {
            proof {
                assert(is_best_fit(after, size, align, i)) by {
                    assert forall|j: int|
                        0 <= j < after.len() && #[trigger] fits(after[j], size, align) implies {
                        let left_i = after[i].size - needed(after[i], size, align);
                        let left_j = after[j].size - needed(after[j], size, align);
                        left_i < left_j || (left_i == left_j && i <= j)
                    } by {
                        if j < i {
                            assert(fits(before[j], size, align));
                        }
                    }
                }
                best = i;
            }
            best_node = Some(node_addr);
            prev_to_best = prev_addr;
            best_padding = padding;
            smallest_diff = node.block_size - (size + padding);
        } else {
            proof {
                if best_node.is_some() {
                    assert(is_best_fit(after, size, align, best)) by {
                        assert(after[best] == before[best]);
                        assert forall|j: int|
                            0 <= j < after.len() && #[trigger] fits(after[j], size, align) implies {
                            let left_i = after[best].size - needed(after[best], size, align);
                            let left_j = after[j].size - needed(after[j], size, align);
                            left_i < left_j || (left_i == left_j && best <= j)
                        } by {
                            if j < i {
                                assert(fits(before[j], size, align));
                            }
                        }
                    }
                }
            }
        }
        prev_addr = Some(node_addr);
        node_addr = node.next;
        proof {
            i = i + 1;
        }
    }
    proof {
        if i < list.len() {
            assert(links(arena, list, i));
        }
        assert(list.take(i) =~= list);
        if best_node.is_some() {
            assert(fits(list[best], size, align));
            assert(!none_fits(list, size, align));
        }
    }
    (best_node, prev_to_best, best_padding)
}

/// Whether `after` has the bytes of `before` wherever no block of `list` lies.
pub open spec fn kept_outside(before: &Arena, after: &Arena, list: Seq<Block>) -> bool {
    &&& after.start() == before.start()
    &&& after@.len() == before@.len()
    &&& forall|x: int|
        0 <= x < before@.len() && !covers(list, before.start() + x) ==> #[trigger] after@[x]
            == before@[x]
}

/// A node that lies outside the bytes that may differ is the same.
pub proof fn lemma_node_kept(before: &Arena, after: &Arena, lo: int, hi: int, addr: int)
    requires
        before.wf(),
        same_outside(before, after, lo, hi),
        before.holds(addr, FREE_NODE_SIZE as int),
        addr + FREE_NODE_SIZE <= lo || hi <= addr,
    ensures
        FreeNode::at(after, addr) == FreeNode::at(before, addr),
        after.holds(addr, FREE_NODE_SIZE as int),
{
    lemma_same_word(before, after, lo, hi, addr);
    lemma_same_word(before, after, lo, hi, addr + WORD_SIZE);
}

/// A node whose bytes are the same is the same.
pub proof fn lemma_node_same(before: &Arena, after: &Arena, addr: int)
    requires
        before.wf(),
        after.start() == before.start(),
        after@.len() == before@.len(),
        before.holds(addr, FREE_NODE_SIZE as int),
        forall|x: int|
            addr - before.start() <= x < addr - before.start() + FREE_NODE_SIZE
                ==> #[trigger] after@[x] == before@[x],
    ensures
        FreeNode::at(after, addr) == FreeNode::at(before, addr),
        after.holds(addr, FREE_NODE_SIZE as int),
{
    before.lemma_wf();
    crate::arena::lemma_load_same(before@, after@, addr - before.start());
    crate::arena::lemma_load_same(before@, after@, addr + WORD_SIZE - before.start());
}

/// A node of a free block other than the one that a request was served
/// from and the one in front of it is the same where only those two differ.
pub proof fn lemma_carved_node_same(
    before: &Arena,
    after: &Arena,
    list: Seq<Block>,
    i: int,
    k: int,
)
    requires
        before.wf(),
        spaced(before.start(), list),
        0 <= i < list.len(),
        0 <= k < list.len(),
        k != i,
        k != i - 1,
        after.start() == before.start(),
        after@.len() == before@.len(),
        forall|x: int|
            0 <= x < before@.len() && !within(list[i], before.start() + x) && !(i > 0 && list[i
                - 1].addr <= before.start() + x < list[i - 1].addr + FREE_NODE_SIZE)
                ==> #[trigger] after@[x] == before@[x],
    ensures
        FreeNode::at(after, list[k].addr as int) == FreeNode::at(before, list[k].addr as int),
        after.holds(list[k].addr as int, FREE_NODE_SIZE as int),
{
    let start = before.start();
    before.lemma_wf();
    assert(block_ok(start, list[k]));
    assert(block_ok(start, list[i]));
    if k < i {
        assert(block_ok(start, list[i - 1]));
        assert(ordered(list, k, i - 1));
        assert(ordered(list, k, i));
    } else {
        assert(ordered(list, i, k));
        if i > 0 {
            assert(block_ok(start, list[i - 1]));
            assert(ordered(list, i - 1, k));
        }
    }
    lemma_node_same(before, after, list[k].addr as int);
}

/// The list is linked again after a request was served from its block
/// with index `i`, where nothing changed outside that block and the node
/// of the block in front of it, and the nodes that the carved list needs
/// in those two places are there.
pub proof fn lemma_carve_linked(
    before: &Arena,
    after: &Arena,
    head_before: usize,
    head_after: usize,
    list: Seq<Block>,
    i: int,
    size: usize,
    align: usize,
)
    requires
        before.wf(),
        linked(before, head_before, list),
        spaced(before.start(), list),
        0 <= i < list.len(),
        fits(list[i], size, align),
        0 <= padding_for(list[i].addr, align),
        after.start() == before.start(),
        after@.len() == before@.len(),
        forall|x: int|
            0 <= x < before@.len() && !within(list[i], before.start() + x) && !(i > 0 && list[i
                - 1].addr <= before.start() + x < list[i - 1].addr + FREE_NODE_SIZE)
                ==> #[trigger] after@[x] == before@[x],
        splits(list[i], size, align) ==> FreeNode::at(
            after,
            remainder(list[i], size, align).addr as int,
        ) == (FreeNode {
            next: next_addr(list, i),
            block_size: remainder(list[i], size, align).size,
        }),
        i > 0 ==> FreeNode::at(after, list[i - 1].addr as int) == (FreeNode {
            next: carved_next(list, i, size, align),
            block_size: list[i - 1].size,
        }),
        head_after == (if i > 0 {
            head_before
        } else {
            carved_next(list, i, size, align)
        }),
    ensures
        linked(after, head_after, carve(list, i, size, align)),
{
    let start = before.start();
    let carved = carve(list, i, size, align);
    before.lemma_wf();
    assert(block_ok(start, list[i]));
    assert(links(before, list, i));
    if i > 0 {
        assert(block_ok(start, list[i - 1]));
        assert(links(before, list, i - 1));
    }
    if carved.len() > 0 {
        lemma_carve_at(list, i, size, align, 0);
    }
    assert forall|k: int| 0 <= k < carved.len() implies #[trigger] links(after, carved, k) by {
        lemma_carve_at(list, i, size, align, k);
        let k0 = carved_from(list, i, size, align, k);
        assert(links(before, list, k0));
        if k0 != i && k0 != i - 1 {
            lemma_carved_node_same(before, after, list, i, k0);
        }
    }
}

/// A node of a free block is the same where only the first bytes of a
/// region apart from that block and the node of another block differ.
pub proof fn lemma_released_node_same(
    before: &Arena,
    after: &Arena,
    list: Seq<Block>,
    region: Block,
    i: int,
    k: int,
)
    requires
        before.wf(),
        spaced(before.start(), list),
        block_ok(before.start(), region),
        0 <= i <= list.len(),
        0 <= k < list.len(),
        k != i - 1,
        apart(region, list[k]),
        after.start() == before.start(),
        after@.len() == before@.len(),
        forall|x: int|
            0 <= x < before@.len() && !(region.addr <= before.start() + x < region.addr
                + FREE_NODE_SIZE) && !(i > 0 && list[i - 1].addr <= before.start() + x < list[i
                - 1].addr + FREE_NODE_SIZE) ==> #[trigger] after@[x] == before@[x],
    ensures
        FreeNode::at(after, list[k].addr as int) == FreeNode::at(before, list[k].addr as int),
        after.holds(list[k].addr as int, FREE_NODE_SIZE as int),
{
    let start = before.start();
    before.lemma_wf();
    assert(block_ok(start, list[k]));
    if i > 0 {
        assert(block_ok(start, list[i - 1]));
        if k < i - 1 {
            assert(ordered(list, k, i - 1));
        } else {
            assert(ordered(list, i - 1, k));
        }
    }
    lemma_node_same(before, after, list[k].addr as int);
}

/// The list is linked again after `region` came back at index `i`,
/// where nothing changed outside the first bytes of the region and the
/// node of the block in front of it, and the nodes that the new list
/// needs in those two places are there.
#[verifier::rlimit(40)]
pub proof fn lemma_released_linked(
    before: &Arena,
    after: &Arena,
    head_before: usize,
    head_after: usize,
    list: Seq<Block>,
    region: Block,
    i: int,
)
    requires
        before.wf(),
        linked(before, head_before, list),
        spaced(before.start(), list),
        block_ok(before.start(), region),
        is_insertion_point(list, region.addr, i),
        forall|k: int| 0 <= k < list.len() ==> #[trigger] apart(region, list[k]),
        after.start() == before.start(),
        after@.len() == before@.len(),
        forall|x: int|
            0 <= x < before@.len() && !(region.addr <= before.start() + x < region.addr
                + FREE_NODE_SIZE) && !(i > 0 && list[i - 1].addr <= before.start() + x < list[i
                - 1].addr + FREE_NODE_SIZE) ==> #[trigger] after@[x] == before@[x],
        FreeNode::at(after, merged_block(list, region, i).addr as int) == (FreeNode {
            next: if touches_next(list, region, i) {
                next_addr(list, i)
            } else {
                addr_at(list, i)
            },
            block_size: merged_block(list, region, i).size,
        }),
        i > 0 && !touches_prev(list, region, i) ==> FreeNode::at(after, list[i - 1].addr as int)
            == (FreeNode { next: region.addr, block_size: list[i - 1].size }),
        head_after == (if i > 0 {
            head_before
        } else {
            region.addr
        }),
    ensures
        linked(after, head_after, released_at(list, region, i)),
{
    let start = before.start();
    let new_list = released_at(list, region, i);
    let at = merged_index(list, region, i);
    let merged = merged_block(list, region, i);
    before.lemma_wf();
    if i > 0 {
        assert(block_ok(start, list[i - 1]));
        assert(links(before, list, i - 1));
    }
    if i < list.len() {
        assert(block_ok(start, list[i]));
        assert(links(before, list, i));
    }
    lemma_released_at(list, region, i, 0);
    assert forall|k: int| 0 <= k < new_list.len() implies #[trigger] links(after, new_list, k) by {
        lemma_released_at(list, region, i, k);
        if k != at {
            let k0 = released_from(list, region, i, k);
            assert(links(before, list, k0));
            assert(apart(region, list[k0]));
            if k0 != i - 1 {
                lemma_released_node_same(before, after, list, region, i, k0);
            }
        }
    }
}

/// Bytes that stay the same over two steps stay the same over both.
pub proof fn lemma_kept_outside_trans(
    first: &Arena,
    second: &Arena,
    third: &Arena,
    list: Seq<Block>,
)
    requires
        kept_outside(first, second, list),
        kept_outside(second, third, list),
    ensures
        kept_outside(first, third, list),
{
    assert forall|x: int|
        0 <= x < first@.len() && !covers(list, first.start() + x) implies #[trigger] third@[x]
        == first@[x] by {
        assert(second@[x] == first@[x]);
    }
}

/// An address that is a multiple of the alignment that a request is
/// served with is a multiple of the alignment that was asked for.
pub proof fn lemma_aligned_to_given(ptr: usize, align: usize, given: usize)
    requires
        is_pow2(given as int),
        align == request_align(given),
        is_aligned(ptr as int, align as int),
    ensures
        ptr % given == 0,
{
    if given < MIN_ALIGN {
        lemma_small_pow2(given);
        lemma_multiple_of_multiple(ptr as int, MIN_ALIGN as int, given as int);
    }
}

/// An arena whose free blocks form a list, and the rule by which a
/// request chooses among them. The list is built when the first block is
/// asked for.
pub struct FreeListAllocator {
    arena: Arena,
    head: usize,
    policy: PlacementPolicy,
    initialized: bool,
    nodes: Ghost<Seq<Block>>,
}

impl FreeListAllocator {
    pub closed spec fn spec_arena(&self) -> &Arena {
        &self.arena
    }

    pub closed spec fn spec_head(&self) -> usize {
        self.head
    }

    pub closed spec fn spec_policy(&self) -> PlacementPolicy {
        self.policy
    }

    pub closed spec fn spec_is_initialized(&self) -> bool {
        self.initialized
    }

    /// The whole arena as one block.
    pub open spec fn whole(&self) -> Block {
        Block { addr: self.arena().start(), size: ARENA_SIZE }
    }

    /// The free blocks, in ascending address order. Before the list is
    /// built, the whole arena is one free block.
    pub closed spec fn free_blocks(&self) -> Seq<Block> {
        if self.initialized {
            self.nodes@
        } else {
            seq![self.whole()]
        }
    }

    /// Once the list is built, its nodes link the free blocks, which lie
    /// in the arena in ascending address order, no two of them touching.
    pub closed spec fn wf(&self) -> bool {
        &&& self.arena.wf()
        &&& if self.initialized {
            &&& linked(&self.arena, self.head, self.nodes@)
            &&& spaced(self.arena.start(), self.nodes@)
        } else {
            self.head == 0
        }
    }

    /// What `allocate(size, align)` does: `after` is the allocator that it
    /// leaves and `ptr` the address that it returns.
    pub open spec fn allocates(&self, after: &Self, size: usize, align: usize, ptr: usize) -> bool {
        let list = self.free_blocks();
        let size = request_size(size);
        let align = request_align(align);
        &&& after.policy() == self.policy()
        &&& after.is_initialized()
        &&& kept_outside(self.arena(), after.arena(), list)
        &&& if none_fits(list, size, align) {
            &&& ptr == 0
            &&& after.free_blocks() == list
        } else {
            exists|i: int|
                {
                    &&& is_choice(self.policy(), list, size, align, i)
                    &&& ptr == list[i].addr + padding_for(list[i].addr, align)
                    &&& after.free_blocks() == carve(list, i, size, align)
                    &&& AllocationHeader::at(after.arena(), ptr as int) == AllocationHeader {
                        block_size: footprint(list[i], size, align) as usize,
                        padding: padding_for(list[i].addr, align) as usize,
                    }
                }
        }
    }

    /// The region that the header in front of the payload address `ptr`
    /// describes.
    pub open spec fn described(&self, ptr: usize) -> Block {
        let header = AllocationHeader::at(self.arena(), ptr as int);
        Block { addr: (ptr - header.padding) as usize, size: header.block_size }
    }

    /// Whether `dealloc(ptr, ..)` takes the block back: a header lies in
    /// the arena in front of `ptr`, and the region that it describes lies
    /// in the arena, can hold a node and shares no byte with a free block.
    pub open spec fn can_release(&self, ptr: usize) -> bool {
        let start = self.arena().start();
        let header = AllocationHeader::at(self.arena(), ptr as int);
        &&& start + ALLOCATION_HEADER_SIZE <= ptr <= start + ARENA_SIZE
        &&& header.padding <= ptr - start
        &&& block_ok(start, self.described(ptr))
        &&& forall|k: int|
            0 <= k < self.free_blocks().len() ==> #[trigger] apart(
                self.described(ptr),
                self.free_blocks()[k],
            )
    }

    /// What `dealloc(ptr, ..)` does: `after` is the allocator that it leaves.
    pub open spec fn releases(&self, after: &Self, ptr: usize) -> bool {
        &&& after.policy() == self.policy()
        &&& after.is_initialized() == self.is_initialized()
        &&& after.arena().start() == self.arena().start()
        &&& if self.can_release(ptr) {
            &&& after.free_blocks() == released(self.free_blocks(), self.described(ptr))
            &&& kept_outside(
                self.arena(),
                after.arena(),
                self.free_blocks().push(self.described(ptr)),
            )
        } else {
            &&& after.free_blocks() == self.free_blocks()
            &&& after.arena()@ == self.arena()@
        }
    }

    /// What `wf` says, for callers that cannot see the fields.
    pub proof fn lemma_wf(&self)
        requires
            self.wf(),
        ensures
            self.arena().wf(),
            spaced(self.arena().start(), self.free_blocks()),
            self.is_initialized() ==> linked(self.arena(), self.head(), self.free_blocks()),
            !self.is_initialized() ==> self.head() == 0 && self.free_blocks() == seq![self.whole()],
    {
        self.arena.lemma_wf();
    }

    /// An allocator over a fresh arena, all of it free, that places
    /// blocks by `policy`.
    pub fn new(policy: PlacementPolicy) -> (allocator: Self)
        ensures
            allocator.wf(),
            allocator.policy() == policy,
            !allocator.is_initialized(),
            allocator.head() == 0,
            allocator.arena().start() == crate::arena::ARENA_BASE,
            allocator.free_blocks() == seq![allocator.whole()],
    {
        FreeListAllocator {
            arena: Arena::new(),
            head: 0,
            policy,
            initialized: false,
            nodes: Ghost(Seq::empty()),
        }
    }

    /// The arena that the blocks come from.
    #[verifier::when_used_as_spec(spec_arena)]
    pub fn arena(&self) -> (arena: &Arena)
        ensures
            arena == self.arena(),
    {
        &self.arena
    }

    /// Address of the first free block of the list, or the null address
    /// where the list is empty or not built yet.
    #[verifier::when_used_as_spec(spec_head)]
    pub fn head(&self) -> (addr: usize)
        ensures
            addr == self.head(),
    {
        self.head
    }

    /// The rule by which a request chooses its block.
    #[verifier::when_used_as_spec(spec_policy)]
    pub fn policy(&self) -> (policy: PlacementPolicy)
        ensures
            policy == self.policy(),
    {
        self.policy
    }

    /// Whether the list is built.
    #[verifier::when_used_as_spec(spec_is_initialized)]
    pub fn is_initialized(&self) -> (built: bool)
        ensures
            built == self.is_initialized(),
    {
        self.initialized
    }

    /// Builds the list: the whole arena is one free block.
    pub fn init(&mut self)
        requires
            old(self).wf(),
        ensures
            final(self).wf(),
            final(self).is_initialized(),
            final(self).policy() == old(self).policy(),
            final(self).head() == final(self).arena().start(),
            final(self).free_blocks() == seq![final(self).whole()],
            kept_outside(old(self).arena(), final(self).arena(), seq![old(self).whole()]),
    {
        proof {
            self.arena.lemma_wf();
        }
        self.initialized = true;
        let start = self.arena.start();
        let node = FreeNode { next: 0, block_size: self.arena.size() };
        node.write(&mut self.arena, start);
        self.head = start;
        let ghost whole = seq![self.whole()];
        self.nodes = Ghost(whole);
        proof {
            assert(links(&self.arena, self.nodes@, 0));
            assert forall|x: int|
                0 <= x < ARENA_SIZE && !covers(whole, start + x) implies #[trigger] self.arena@[x]
                == old(self).arena@[x] by {
                assert(within(whole[0], start + x));
            }
        }
    }
    /// Takes the request out of the block with index `i` of the list,
    /// which lies at `node_addr` behind the block at `prev_addr`.
    fn carve_block(
        &mut self,
        Ghost(i): Ghost<int>,
        node_addr: usize,
        prev_addr: Option<usize>,
        padding: usize,
        size: usize,
        align: usize,
    ) -> (ptr: usize)
        requires
            old(self).wf(),
            old(self).is_initialized(),
            0 <= i < old(self).free_blocks().len(),
            fits(old(self).free_blocks()[i], size, align),
            (Some(node_addr), prev_addr, padding) == found_at(old(self).free_blocks(), align, i),
            FREE_NODE_SIZE <= padding_for(node_addr, align),
        ensures
            final(self).wf(),
            final(self).is_initialized(),
            final(self).policy() == old(self).policy(),
            ptr == node_addr + padding,
            final(self).arena().start() == old(self).arena().start(),
            final(self).free_blocks() == carve(old(self).free_blocks(), i, size, align),
            AllocationHeader::at(final(self).arena(), ptr as int) == (AllocationHeader {
                block_size: footprint(old(self).free_blocks()[i], size, align) as usize,
                padding,
            }),
            kept_outside(old(self).arena(), final(self).arena(), old(self).free_blocks()),
    {
        let ghost list = self.nodes@;
        let ghost arena1 = self.arena;
        let ghost head1 = self.head;
        let ghost start = self.arena.start();
        let ghost block = list[i];
        proof {
            self.arena.lemma_wf();
            assert(links(&arena1, list, i));
            assert(block_ok(start, block));
            if i > 0 {
                assert(links(&arena1, list, i - 1));
                assert(block_ok(start, list[i - 1]));
                assert(ordered(list, i - 1, i));
            }
            lemma_carve_spaced(start, list, i, size, align);
        }
        let node = FreeNode::read(&self.arena, node_addr);
        let required = size + padding;
        let rest = node.block_size - required;
        let successor: usize;
        let taken: usize;
        if rest >= FREE_NODE_SIZE {
            let rest_addr = node_addr + required;
            let rest_node = FreeNode { next: node.next, block_size: rest };
            rest_node.write(&mut self.arena, rest_addr);
            successor = rest_addr;
            taken = required;
        } else {
            successor = node.next;
            taken = node.block_size;
        }
        let ghost arena2 = self.arena;
        proof {
            assert(same_outside(&arena1, &arena2, block.addr as int, block.addr + block.size));
            assert(successor == carved_next(list, i, size, align));
        }
        match prev_addr {
            Some(prev_addr) => {
                proof {
                    lemma_node_kept(
                        &arena1,
                        &arena2,
                        block.addr as int,
                        block.addr + block.size,
                        prev_addr as int,
                    );
                }
                let prev = FreeNode::read(&self.arena, prev_addr);
                let prev_node = FreeNode { next: successor, block_size: prev.block_size };
                prev_node.write(&mut self.arena, prev_addr);
            },
            None => {
                self.head = successor;
            },
        }
        let ghost arena3 = self.arena;
        let ptr = node_addr + padding;
        let header = AllocationHeader { block_size: taken, padding };
        header.write(&mut self.arena, ptr);
        self.nodes = Ghost(carve(list, i, size, align));
        proof {
            let arena4 = self.arena;
            if splits(block, size, align) {
                let rest_addr = remainder(block, size, align).addr as int;
                assert(FreeNode::at(&arena2, rest_addr) == (FreeNode {
                    next: next_addr(list, i),
                    block_size: remainder(block, size, align).size,
                }));
                if i > 0 {
                    lemma_node_kept(
                        &arena2,
                        &arena3,
                        list[i - 1].addr as int,
                        list[i - 1].addr + FREE_NODE_SIZE,
                        rest_addr,
                    );
                }
                lemma_node_kept(&arena3, &arena4, ptr - ALLOCATION_HEADER_SIZE, ptr as int, rest_addr);
            }
            if i > 0 {
                lemma_node_kept(
                    &arena3,
                    &arena4,
                    ptr - ALLOCATION_HEADER_SIZE,
                    ptr as int,
                    list[i - 1].addr as int,
                );
            }
            assert forall|x: int|
                0 <= x < arena1@.len() && !within(block, start + x) && !(i > 0 && list[i - 1].addr
                    <= start + x < list[i - 1].addr + FREE_NODE_SIZE) implies #[trigger] arena4@[x]
                == arena1@[x] by {
                assert(arena4@[x] == arena3@[x]);
                assert(arena3@[x] == arena2@[x]);
                assert(arena2@[x] == arena1@[x]);
            }
            lemma_carve_linked(&arena1, &arena4, head1, self.head, list, i, size, align);
            assert(kept_outside(&arena1, &arena4, list)) by {
                assert forall|x: int|
                    0 <= x < arena1@.len() && !covers(list, start + x) implies #[trigger] arena4@[x]
                    == arena1@[x] by {
                    assert(!within(list[i], start + x));
                    if i > 0 {
                        assert(!within(list[i - 1], start + x));
                    }
                }
            }
        }
        ptr
    }

    /// Searches the list by the policy for a block that is large enough
    /// for `size` bytes aligned to `align`.
    fn choose_block(&self, size: usize, align: usize) -> (found: (
        Option<usize>,
        Option<usize>,
        usize,
        Ghost<int>,
    ))
        requires
            self.wf(),
            self.is_initialized(),
            is_pow2(align as int),
        ensures
            found.0.is_none() ==> none_fits(self.free_blocks(), size, align),
            found.0.is_some() ==> {
                &&& is_choice(self.policy(), self.free_blocks(), size, align, found.3@)
                &&& (found.0, found.1, found.2) == found_at(self.free_blocks(), align, found.3@)
            },
    {
        let ghost list = self.nodes@;
        proof {
            lemma_chain_is(&self.arena, self.head, list);
        }
        let found = match self.policy {
            PlacementPolicy::FindFirst => find_first(&self.arena, self.head, size, align),
            PlacementPolicy::FindBest => find_best(&self.arena, self.head, size, align),
        };
        let ghost i = choose|i: int|
            is_choice(self.policy, list, size, align, i) && found == found_at(list, align, i);
        (found.0, found.1, found.2, Ghost(i))
    }

    /// Serves a request for `size` bytes aligned to `align` from the free
    /// block that the policy chooses: what the request leaves of the block
    /// stays free where it can hold a node, the header goes in front of
    /// the payload, and the payload's address is returned. Returns the
    /// null address, with the free blocks as they were, where no block is
    /// large enough. Builds the list first where that has not been done.
    pub fn allocate(&mut self, size: usize, align: usize) -> (ptr: usize)
        requires
            old(self).wf(),
            is_pow2(align as int),
        ensures
            final(self).wf(),
            old(self).allocates(final(self), size, align, ptr),
            ptr != 0 ==> ptr % align == 0,
    {
        let ghost list = self.free_blocks();
        let ghost arena0 = self.arena;
        let ghost given_align = align;
        if !self.initialized {
            self.init();
        }
        let ghost arena1 = self.arena;
        let size = if size < FREE_NODE_SIZE {
            FREE_NODE_SIZE
        } else {
            size
        };
        let align = if align < MIN_ALIGN {
            MIN_ALIGN
        } else {
            align
        };
        proof {
            lemma_eight_is_pow2();
        }
        let found = self.choose_block(size, align);
        let node_addr = match found.0 {
            Some(addr) => addr,
            None => {
                return 0;
            },
        };
        let ghost i = found.3@;
        proof {
            lemma_pow2_upper(align);
            lemma_padding_with_header(node_addr as int, align as int, FREE_NODE_SIZE as int);
            assert(fits(list[i], size, align));
        }
        let ptr = self.carve_block(Ghost(i), node_addr, found.1, found.2, size, align);
        proof {
            lemma_kept_outside_trans(&arena0, &arena1, &self.arena, list);
            assert(!none_fits(list, size, align));
            lemma_aligned_to_given(ptr, align, given_align);
        }
        ptr
    }

    /// Walks the list to the place where a block at `addr` belongs:
    /// returns the address and size of the free block in front of that
    /// place and the address of the one behind it, each zero where there
    /// is none, and the number of blocks in front.
    fn locate(&self, addr: usize) -> (place: (usize, usize, usize, Ghost<int>))
        requires
            self.wf(),
            self.is_initialized(),
        ensures
            0 <= place.3@ <= self.free_blocks().len(),
            forall|j: int| 0 <= j < place.3@ ==> (#[trigger] self.free_blocks()[j]).addr <= addr,
            forall|j: int|
                place.3@ <= j < self.free_blocks().len() ==> (#[trigger] self.free_blocks()[j]).addr
                    > addr,
            place.3@ > 0 ==> place.0 == self.free_blocks()[place.3@ - 1].addr && place.1
                == self.free_blocks()[place.3@ - 1].size,
            place.3@ == 0 ==> place.0 == 0 && place.1 == 0,
            place.2 == addr_at(self.free_blocks(), place.3@),
    {
        let ghost list = self.nodes@;
        let ghost i: int = 0;
        let mut prev_addr: usize = 0;
        let mut prev_size: usize = 0;
        let mut node_addr = self.head;
        while node_addr != 0 && node_addr <= addr
            invariant
                self.arena.wf(),
                list == self.nodes@,
                linked(&self.arena, self.head, list),
                spaced(self.arena.start(), list),
                0 <= i <= list.len(),
                node_addr == addr_at(list, i),
                forall|j: int| 0 <= j < i ==> (#[trigger] list[j]).addr <= addr,
                i > 0 ==> prev_addr == list[i - 1].addr && prev_size == list[i - 1].size,
                i == 0 ==> prev_addr == 0 && prev_size == 0,
            decreases list.len() - i,
        {
            assert(links(&self.arena, list, i));
            let node = FreeNode::read(&self.arena, node_addr);
            prev_addr = node_addr;
            prev_size = node.block_size;
            node_addr = node.next;
            proof {
                i = i + 1;
            }
        }
        proof {
            if i < list.len() {
                assert(links(&self.arena, list, i));
                assert forall|j: int| i <= j < list.len() implies (#[trigger] list[j]).addr
                    > addr by {
                    if j > i {
                        assert(block_ok(self.arena.start(), list[i]));
                        assert(ordered(list, i, j));
                    }
                }
            }
        }
        (prev_addr, prev_size, node_addr, Ghost(i))
    }

    /// Puts the region of `size` bytes at `addr` into the list at index
    /// `i`, between the free block at `prev_addr` and the one at
    /// `node_addr`, as one block with those of the two that it touches.
    fn insert_block(
        &mut self,
        Ghost(i): Ghost<int>,
        addr: usize,
        size: usize,
        prev_addr: usize,
        prev_size: usize,
        node_addr: usize,
    )
        requires
            old(self).wf(),
            old(self).is_initialized(),
            block_ok(old(self).arena().start(), Block { addr, size }),
            is_insertion_point(old(self).free_blocks(), addr, i),
            forall|k: int|
                0 <= k < old(self).free_blocks().len() ==> #[trigger] apart(
                    Block { addr, size },
                    old(self).free_blocks()[k],
                ),
            i > 0 ==> prev_addr == old(self).free_blocks()[i - 1].addr && prev_size == old(
                self,
            ).free_blocks()[i - 1].size,
            i == 0 ==> prev_addr == 0,
            node_addr == addr_at(old(self).free_blocks(), i),
        ensures
            final(self).wf(),
            final(self).is_initialized(),
            final(self).policy() == old(self).policy(),
            final(self).arena().start() == old(self).arena().start(),
            final(self).free_blocks() == released_at(
                old(self).free_blocks(),
                Block { addr, size },
                i,
            ),
            kept_outside(
                old(self).arena(),
                final(self).arena(),
                old(self).free_blocks().push(Block { addr, size }),
            ),
    {
        let ghost list = self.nodes@;
        let ghost region = Block { addr, size };
        let ghost arena1 = self.arena;
        let ghost head1 = self.head;
        let ghost start = self.arena.start();
        proof {
            self.arena.lemma_wf();
            if i > 0 {
                assert(links(&arena1, list, i - 1));
                assert(block_ok(start, list[i - 1]));
                assert(apart(region, list[i - 1]));
            }
            if i < list.len() {
                assert(links(&arena1, list, i));
                assert(block_ok(start, list[i]));
                assert(apart(region, list[i]));
            }
            lemma_released_spaced(start, list, region, i);
        }
        let mut new_addr = addr;
        let mut new_size = size;
        let mut new_next = node_addr;
        let joins_prev = prev_addr != 0 && prev_addr + prev_size == addr;
        if joins_prev {
            new_addr = prev_addr;
            new_size = prev_size + new_size;
        }
        if node_addr != 0 && addr + size == node_addr {
            let node = FreeNode::read(&self.arena, node_addr);
            new_size = new_size + node.block_size;
            new_next = node.next;
        }
        if prev_addr == 0 {
            self.head = new_addr;
        } else if !joins_prev {
            let prev_node = FreeNode { next: new_addr, block_size: prev_size };
            prev_node.write(&mut self.arena, prev_addr);
        }
        let ghost arena2 = self.arena;
        let new_node = FreeNode { next: new_next, block_size: new_size };
        new_node.write(&mut self.arena, new_addr);
        self.nodes = Ghost(released_at(list, region, i));
        proof {
            let arena3 = self.arena;
            if i > 0 && !touches_prev(list, region, i) {
                lemma_node_kept(
                    &arena2,
                    &arena3,
                    addr as int,
                    addr + FREE_NODE_SIZE,
                    list[i - 1].addr as int,
                );
            }
            assert forall|x: int|
                0 <= x < arena1@.len() && !(region.addr <= start + x < region.addr
                    + FREE_NODE_SIZE) && !(i > 0 && list[i - 1].addr <= start + x < list[i
                    - 1].addr + FREE_NODE_SIZE) implies #[trigger] arena3@[x] == arena1@[x] by {
                assert(arena3@[x] == arena2@[x]);
                assert(arena2@[x] == arena1@[x]);
            }
            lemma_released_linked(&arena1, &arena3, head1, self.head, list, region, i);
            let all = list.push(region);
            assert(kept_outside(&arena1, &arena3, all)) by {
                assert forall|x: int|
                    0 <= x < arena1@.len() && !covers(all, start + x) implies #[trigger] arena3@[x]
                    == arena1@[x] by {
                    assert(all[list.len() as int] == region);
                    assert(!within(all[list.len() as int], start + x));
                    if i > 0 {
                        assert(all[i - 1] == list[i - 1]);
                        assert(!within(all[i - 1], start + x));
                    }
                }
            }
        }
    }

    /// Takes the block with the payload address `ptr` back: the region
    /// that its header describes is free again, as one block with the free
    /// blocks that it touches. Changes nothing where `ptr` has no header in
    /// the arena in front of it, or where the region that the header
    /// describes does not lie in the arena, cannot hold a node, or shares
    /// a byte with a free block.
    pub fn dealloc(&mut self, ptr: usize, size: usize, align: usize)
        requires
            old(self).wf(),
        ensures
            final(self).wf(),
            old(self).releases(final(self), ptr),
            no_touching(final(self).free_blocks()),
    {
        let ghost list = self.free_blocks();
        let ghost region = self.described(ptr);
        proof {
            self.arena.lemma_wf();
            self.lemma_wf();
            lemma_spaced_no_touching(self.arena.start(), list);
        }
        let start = self.arena.start();
        let end = self.arena.end();
        if ptr < start + ALLOCATION_HEADER_SIZE || ptr > end {
            return ;
        }
        let header = AllocationHeader::read(&self.arena, ptr);
        if header.padding > ptr - start {
            return ;
        }
        let addr = ptr - header.padding;
        let block_size = header.block_size;
        if block_size < FREE_NODE_SIZE || block_size > end - addr {
            return ;
        }
        if !self.initialized {
            proof {
                assert(!apart(region, list[0]));
            }
            return ;
        }
        let (prev_addr, prev_size, node_addr, Ghost(i)) = self.locate(addr);
        proof {
            if i > 0 {
                assert(block_ok(start, list[i - 1]));
            }
            if i < list.len() {
                assert(block_ok(start, list[i]));
            }
        }
        if prev_addr != 0 && prev_addr + prev_size > addr {
            proof {
                assert(!apart(region, list[i - 1]));
            }
            return ;
        }
        if node_addr != 0 && addr + block_size > node_addr {
            proof {
                assert(!apart(region, list[i]));
            }
            return ;
        }
        proof {
            assert forall|k: int| 0 <= k < list.len() implies #[trigger] apart(region, list[k]) by {
                assert(block_ok(start, list[k]));
                if k < i - 1 {
                    assert(ordered(list, k, i - 1));
                } else if k > i {
                    assert(ordered(list, i, k));
                }
            }
            assert(is_insertion_point(list, addr, i)) by {
                assert forall|j: int| 0 <= j < i implies (#[trigger] list[j]).addr < addr by {
                    assert(block_ok(start, list[j]));
                    assert(apart(region, list[j]));
                }
            }
            lemma_insertion_point(list, addr, i);
        }
        self.insert_block(Ghost(i), addr, block_size, prev_addr, prev_size, node_addr);
        proof {
            self.lemma_wf();
            lemma_spaced_no_touching(self.arena.start(), self.free_blocks());
        }
    }
}

impl SpinLock<FreeListAllocator> {
    /// `FreeListAllocator::allocate` on the guarded allocator, under the lock.
    pub fn allocate(&mut self, size: usize, align: usize) -> (ptr: usize)
        requires
            !old(self).is_locked(),
            old(self).value().wf(),
            is_pow2(align as int),
        ensures
            !final(self).is_locked(),
            final(self).value().wf(),
            old(self).value().allocates(&final(self).value(), size, align, ptr),
            ptr != 0 ==> ptr % align == 0,
    {
        let mut guard = self.lock();
        let allocator = guard.get_mut();
        let ptr = allocator.allocate(size, align);
        SpinLock::unlock(guard);
        ptr
    }

    /// `FreeListAllocator::dealloc` on the guarded allocator, under the lock.
    pub fn dealloc(&mut self, ptr: usize, size: usize, align: usize)
        requires
            !old(self).is_locked(),
            old(self).value().wf(),
        ensures
            !final(self).is_locked(),
            final(self).value().wf(),
            old(self).value().releases(&final(self).value(), ptr),
            no_touching(final(self).value().free_blocks()),
    {
        let mut guard = self.lock();
        let allocator = guard.get_mut();
        allocator.dealloc(ptr, size, align);
        SpinLock::unlock(guard);
    }
}

} // verus!

//! Lists of free blocks, as a free-list arena keeps them: what a request
//! chooses from such a list and leaves of it, and what the list is after a
//! block came back.

use crate::linked_list::{PlacementPolicy, FREE_NODE_SIZE, MIN_ALIGN};
use crate::utils::padding_with_header;
use crate::ARENA_SIZE;
use vstd::prelude::*;

verus! {

/// A free block: `size` bytes from address `addr` on.
pub struct Block {
    pub addr: usize,
    pub size: usize,
}

/// Whether the byte at address `addr` lies in `block`.
pub open spec fn within(block: Block, addr: int) -> bool {
    block.addr <= addr < block.addr + block.size
}

/// Whether the byte at address `addr` lies in a block of `list`.
pub open spec fn covers(list: Seq<Block>, addr: int) -> bool {
    exists|k: int| 0 <= k < list.len() && #[trigger] within(list[k], addr)
}

/// Whether two blocks share no byte.
pub open spec fn apart(a: Block, b: Block) -> bool {
    a.addr + a.size <= b.addr || b.addr + b.size <= a.addr
}

/// Whether `a` ends where `b` begins.
pub open spec fn touches(a: Block, b: Block) -> bool {
    a.addr + a.size == b.addr
}

/// Whether `block` lies in an arena that begins at `start` and can hold a node.
pub open spec fn block_ok(start: usize, block: Block) -> bool {
    &&& start <= block.addr
    &&& block.size >= FREE_NODE_SIZE
    &&& block.addr + block.size <= start + ARENA_SIZE
}

/// Whether the block with index `i` of `list` ends before the one with
/// index `j` begins.
pub open spec fn ordered(list: Seq<Block>, i: int, j: int) -> bool {
    list[i].addr + list[i].size < list[j].addr
}

/// Whether the blocks of `list` lie in an arena that begins at `start`,
/// each large enough for a node, in ascending address order, and with at
/// least one byte between any two of them.
pub open spec fn spaced(start: usize, list: Seq<Block>) -> bool {
    &&& forall|i: int| 0 <= i < list.len() ==> #[trigger] block_ok(start, list[i])
    &&& forall|i: int, j: int| 0 <= i < j < list.len() ==> #[trigger] ordered(list, i, j)
}

/// Whether no block of `list` ends where another begins.
pub open spec fn no_touching(list: Seq<Block>) -> bool {
    forall|u: int, v: int|
        0 <= u < list.len() && 0 <= v < list.len() ==> !#[trigger] touches(list[u], list[v])
}

/// Blocks that are spaced do not touch.
pub proof fn lemma_spaced_no_touching(start: usize, list: Seq<Block>)
    requires
        spaced(start, list),
    ensures
        no_touching(list),
{
    assert forall|u: int, v: int| 0 <= u < list.len() && 0 <= v < list.len() implies !#[trigger] touches(
        list[u],
        list[v],
    ) by {
        assert(block_ok(start, list[u]));
        assert(block_ok(start, list[v]));
        if u < v {
            assert(ordered(list, u, v));
        } else if v < u {
            assert(ordered(list, v, u));
        }
    }
}

/// Distance from the address of a free block to the payload of a block
/// aligned to `align` that is taken from it.
pub open spec fn padding_for(addr: usize, align: usize) -> int {
    padding_with_header(addr as int, align as int, FREE_NODE_SIZE as int)
}

/// Number of bytes that a request for `size` bytes aligned to `align`
/// needs of the free block `block`.
pub open spec fn needed(block: Block, size: usize, align: usize) -> int {
    size + padding_for(block.addr, align)
}

/// Whether `block` is large enough for the request.
pub open spec fn fits(block: Block, size: usize, align: usize) -> bool {
    block.size >= needed(block, size, align)
}

/// Whether no block of `list` is large enough for the request.
pub open spec fn none_fits(list: Seq<Block>, size: usize, align: usize) -> bool {
    forall|j: int| 0 <= j < list.len() ==> !#[trigger] fits(list[j], size, align)
}

/// Whether the block with index `i` is the first of `list` that is large
/// enough for the request.
pub open spec fn is_first_fit(list: Seq<Block>, size: usize, align: usize, i: int) -> bool {
    &&& 0 <= i < list.len()
    &&& fits(list[i], size, align)
    &&& forall|j: int| 0 <= j < i ==> !#[trigger] fits(list[j], size, align)
}

/// Whether the block with index `i` is the one of `list` that the
/// request leaves least of, and the first such.
pub open spec fn is_best_fit(list: Seq<Block>, size: usize, align: usize, i: int) -> bool {
    &&& 0 <= i < list.len()
    &&& fits(list[i], size, align)
    &&& forall|j: int|
        0 <= j < list.len() && #[trigger] fits(list[j], size, align) ==> {
            let left_i = list[i].size - needed(list[i], size, align);
            let left_j = list[j].size - needed(list[j], size, align);
            left_i < left_j || (left_i == left_j && i <= j)
        }
}

/// Whether the block with index `i` is the one that `policy` chooses.
pub open spec fn is_choice(
    policy: PlacementPolicy,
    list: Seq<Block>,
    size: usize,
    align: usize,
    i: int,
) -> bool {
    match policy {
        PlacementPolicy::FindFirst => is_first_fit(list, size, align, i),
        PlacementPolicy::FindBest => is_best_fit(list, size, align, i),
    }
}

/// The size that a request for `size` bytes is served with: a block must
/// be able to hold a node once it is free again.
pub open spec fn request_size(size: usize) -> usize {
    if size < FREE_NODE_SIZE {
        FREE_NODE_SIZE
    } else {
        size
    }
}

/// The alignment that a request for alignment `align` is served with.
pub open spec fn request_align(align: usize) -> usize {
    if align < MIN_ALIGN {
        MIN_ALIGN
    } else {
        align
    }
}

/// Whether a request that takes `size` bytes aligned to `align` from
/// `block` leaves enough of it for a free block of its own.
pub open spec fn splits(block: Block, size: usize, align: usize) -> bool {
    block.size - needed(block, size, align) >= FREE_NODE_SIZE
}

/// What such a request leaves of `block`.
pub open spec fn remainder(block: Block, size: usize, align: usize) -> Block {
    Block {
        addr: (block.addr + needed(block, size, align)) as usize,
        size: (block.size - needed(block, size, align)) as usize,
    }
}

/// Number of bytes that the request takes from the arena: what it needs
/// where the block is split, else the whole block.
pub open spec fn footprint(block: Block, size: usize, align: usize) -> int {
    if splits(block, size, align) {
        needed(block, size, align)
    } else {
        block.size as int
    }
}

/// The bytes that a request takes from `block`, from the block's first
/// byte on.
pub open spec fn taken_region(block: Block, size: usize, align: usize) -> Block {
    Block { addr: block.addr, size: footprint(block, size, align) as usize }
}

/// `list` after the request was served from the block with index `i`:
/// what is left of that block stands in its place, or nothing does.
pub open spec fn carve(list: Seq<Block>, i: int, size: usize, align: usize) -> Seq<Block> {
    if splits(list[i], size, align) {
        list.update(i, remainder(list[i], size, align))
    } else {
        list.remove(i)
    }
}

/// Address of the block behind the one with index `i`, or the null
/// address behind the last.
pub open spec fn next_addr(list: Seq<Block>, i: int) -> usize {
    if i + 1 < list.len() {
        list[i + 1].addr
    } else {
        0
    }
}

/// Address of the block at index `i`, or the null address behind the last.
pub open spec fn addr_at(list: Seq<Block>, i: int) -> usize {
    if 0 <= i < list.len() {
        list[i].addr
    } else {
        0
    }
}

/// Address of the block that follows the block in front of the one with
/// index `i` once a request was served from that one.
pub open spec fn carved_next(list: Seq<Block>, i: int, size: usize, align: usize) -> usize {
    if splits(list[i], size, align) {
        remainder(list[i], size, align).addr
    } else {
        next_addr(list, i)
    }
}

/// Index of the block of `list` that stands at index `k` of
/// `carve(list, i, size, align)`, or is what is left of it.
pub open spec fn carved_from(list: Seq<Block>, i: int, size: usize, align: usize, k: int) -> int {
    if splits(list[i], size, align) || k < i {
        k
    } else {
        k + 1
    }
}

/// What stands at index `k` of `carve(list, i, size, align)`.
pub proof fn lemma_carve_at(list: Seq<Block>, i: int, size: usize, align: usize, k: int)
    requires
        0 <= i < list.len(),
        0 <= k < carve(list, i, size, align).len(),
    ensures
        0 <= carved_from(list, i, size, align, k) < list.len(),
        carved_from(list, i, size, align, k) == i ==> splits(list[i], size, align) && carve(
            list,
            i,
            size,
            align,
        )[k] == remainder(list[i], size, align),
        carved_from(list, i, size, align, k) != i ==> carve(list, i, size, align)[k]
            == list[carved_from(list, i, size, align, k)],
        next_addr(carve(list, i, size, align), k) == (if carved_from(list, i, size, align, k) == i
            - 1 {
            carved_next(list, i, size, align)
        } else {
            next_addr(list, carved_from(list, i, size, align, k))
        }),
{
}

/// Carving keeps the blocks in the arena, in order and apart.
pub proof fn lemma_carve_spaced(start: usize, list: Seq<Block>, i: int, size: usize, align: usize)
    requires
        start + ARENA_SIZE <= usize::MAX,
        spaced(start, list),
        0 <= i < list.len(),
        fits(list[i], size, align),
        0 <= padding_for(list[i].addr, align),
    ensures
        spaced(start, carve(list, i, size, align)),
{
    let after = carve(list, i, size, align);
    assert(block_ok(start, list[i]));
    if splits(list[i], size, align) {
        assert forall|k: int| 0 <= k < after.len() implies #[trigger] block_ok(start, after[k]) by {
            assert(block_ok(start, list[k]));
        }
        assert forall|k: int, j: int| 0 <= k < j < after.len() implies #[trigger] ordered(
        after,
        k,
        j,
    ) by {
            assert(ordered(list, k, j));
        }
    } else {
        assert forall|k: int| 0 <= k < after.len() implies #[trigger] block_ok(start, after[k]) by {
            if k < i {
                assert(block_ok(start, list[k]));
            } else {
                assert(block_ok(start, list[k + 1]));
            }
        }
        assert forall|k: int, j: int| 0 <= k < j < after.len() implies #[trigger] ordered(
        after,
        k,
        j,
    ) by {
            let k0 = if k < i {
                k
            } else {
                k + 1
            };
            let j0 = if j < i {
                j
            } else {
                j + 1
            };
            assert(ordered(list, k0, j0));
        }
    }
}

/// A block of the list other than the one that a request is served from
/// stands in the carved list.
pub proof fn lemma_carve_keeps(list: Seq<Block>, i: int, size: usize, align: usize, k: int) -> (at: int)
    requires
        0 <= i < list.len(),
        0 <= k < list.len(),
        k != i,
    ensures
        0 <= at < carve(list, i, size, align).len(),
        carve(list, i, size, align)[at] == list[k],
{
    if splits(list[i], size, align) || k < i {
        k
    } else {
        k - 1
    }
}

/// Whether `i` blocks of `list` lie before the address `addr`, and the
/// others behind it.
pub open spec fn is_insertion_point(list: Seq<Block>, addr: usize, i: int) -> bool {
    &&& 0 <= i <= list.len()
    &&& forall|j: int| 0 <= j < i ==> (#[trigger] list[j]).addr < addr
    &&& forall|j: int| i <= j < list.len() ==> (#[trigger] list[j]).addr > addr
}

/// Number of blocks of `list` that lie before the address `addr`.
pub open spec fn insertion_point(list: Seq<Block>, addr: usize) -> int {
    choose|i: int| is_insertion_point(list, addr, i)
}

/// Only one index is the insertion point.
pub proof fn lemma_insertion_point(list: Seq<Block>, addr: usize, i: int)
    requires
        is_insertion_point(list, addr, i),
    ensures
        insertion_point(list, addr) == i,
{
    let j = insertion_point(list, addr);
    if j < i {
        assert(list[j].addr < addr);
    } else if i < j {
        assert(list[i].addr > addr);
    }
}

/// The place in the list where a region that shares no byte with a free
/// block belongs.
pub proof fn lemma_place_of(start: usize, list: Seq<Block>, region: Block, n: int) -> (i: int)
    requires
        spaced(start, list),
        block_ok(start, region),
        forall|k: int| 0 <= k < list.len() ==> #[trigger] apart(region, list[k]),
        0 <= n <= list.len(),
        forall|j: int| 0 <= j < n ==> (#[trigger] list[j]).addr < region.addr,
    ensures
        is_insertion_point(list, region.addr, i),
    decreases list.len() - n,
{
    if n < list.len() && list[n].addr <= region.addr {
        assert(apart(region, list[n]));
        assert(block_ok(start, list[n]));
        lemma_place_of(start, list, region, n + 1)
    } else {
        assert forall|j: int| n <= j < list.len() implies (#[trigger] list[j]).addr
            > region.addr by {
            if j > n {
                assert(block_ok(start, list[n]));
                assert(ordered(list, n, j));
            }
        }
        n
    }
}

/// Whether `region` begins where the block in front of index `i` ends.
pub open spec fn touches_prev(list: Seq<Block>, region: Block, i: int) -> bool {
    i > 0 && list[i - 1].addr + list[i - 1].size == region.addr
}

/// Whether `region` ends where the block with index `i` begins.
pub open spec fn touches_next(list: Seq<Block>, region: Block, i: int) -> bool {
    i < list.len() && region.addr + region.size == list[i].addr
}

/// `region` together with the blocks around index `i` that it touches.
pub open spec fn merged_block(list: Seq<Block>, region: Block, i: int) -> Block {
    let lo = if touches_prev(list, region, i) {
        list[i - 1].addr as int
    } else {
        region.addr as int
    };
    let hi = if touches_next(list, region, i) {
        list[i].addr + list[i].size
    } else {
        region.addr + region.size
    };
    Block { addr: lo as usize, size: (hi - lo) as usize }
}

/// Index of the merged block in `released_at(list, region, i)`.
pub open spec fn merged_index(list: Seq<Block>, region: Block, i: int) -> int {
    if touches_prev(list, region, i) {
        i - 1
    } else {
        i
    }
}

/// `list` with `region` put at index `i` and merged with the blocks that
/// it touches.
pub open spec fn released_at(list: Seq<Block>, region: Block, i: int) -> Seq<Block> {
    let from = if touches_prev(list, region, i) {
        i - 1
    } else {
        i
    };
    let to = if touches_next(list, region, i) {
        i + 1
    } else {
        i
    };
    list.subrange(0, from) + seq![merged_block(list, region, i)] + list.subrange(
        to,
        list.len() as int,
    )
}

/// Index of the block of `list` that stands at index `k` of
/// `released_at(list, region, i)`, where that is not the merged block.
pub open spec fn released_from(list: Seq<Block>, region: Block, i: int, k: int) -> int {
    let from = if touches_prev(list, region, i) {
        i - 1
    } else {
        i
    };
    let to = if touches_next(list, region, i) {
        i + 1
    } else {
        i
    };
    if k < from {
        k
    } else {
        k - from - 1 + to
    }
}

/// `list` after `region` came back: it stands where its address puts
/// it, as one block with the free blocks that it touches.
pub open spec fn released(list: Seq<Block>, region: Block) -> Seq<Block> {
    released_at(list, region, insertion_point(list, region.addr))
}

/// What stands at index `k` of `released_at(list, region, i)`.
pub proof fn lemma_released_at(list: Seq<Block>, region: Block, i: int, k: int)
    requires
        0 <= i <= list.len(),
        0 <= k < released_at(list, region, i).len(),
    ensures
        0 <= merged_index(list, region, i) < released_at(list, region, i).len(),
        k == merged_index(list, region, i) ==> released_at(list, region, i)[k] == merged_block(
            list,
            region,
            i,
        ),
        k != merged_index(list, region, i) ==> {
            &&& 0 <= released_from(list, region, i, k) < list.len()
            &&& released_at(list, region, i)[k] == list[released_from(list, region, i, k)]
            &&& released_from(list, region, i, k) < i - 1 || released_from(list, region, i, k) >= i
                || !touches_prev(list, region, i)
            &&& released_from(list, region, i, k) != i || !touches_next(list, region, i)
        },
        next_addr(released_at(list, region, i), k) == (if k == merged_index(list, region, i) {
            if touches_next(list, region, i) {
                next_addr(list, i)
            } else {
                addr_at(list, i)
            }
        } else if k + 1 == merged_index(list, region, i) {
            merged_block(list, region, i).addr
        } else {
            next_addr(list, released_from(list, region, i, k))
        }),
{
}

/// Putting a region back keeps the blocks in the arena, in order and apart.
#[verifier::rlimit(40)]
pub proof fn lemma_released_spaced(start: usize, list: Seq<Block>, region: Block, i: int)
    requires
        start + ARENA_SIZE <= usize::MAX,
        spaced(start, list),
        block_ok(start, region),
        is_insertion_point(list, region.addr, i),
        forall|k: int| 0 <= k < list.len() ==> #[trigger] apart(region, list[k]),
    ensures
        spaced(start, released_at(list, region, i)),
{
    let after = released_at(list, region, i);
    let from = if touches_prev(list, region, i) {
        i - 1
    } else {
        i
    };
    let to = if touches_next(list, region, i) {
        i + 1
    } else {
        i
    };
    let merged = merged_block(list, region, i);
    if i > 0 {
        assert(block_ok(start, list[i - 1]));
        assert(apart(region, list[i - 1]));
    }
    if i < list.len() {
        assert(block_ok(start, list[i]));
        assert(apart(region, list[i]));
    }
    assert(block_ok(start, merged));
    assert forall|k: int| 0 <= k < after.len() implies #[trigger] block_ok(start, after[k]) by {
        if k < from {
            assert(block_ok(start, list[k]));
        } else if k > from {
            assert(block_ok(start, list[k - from - 1 + to]));
        }
    }
    assert forall|k: int, j: int| 0 <= k < j < after.len() implies #[trigger] ordered(
        after,
        k,
        j,
    ) by {
        let k0 = if k < from {
            k
        } else {
            k - from - 1 + to
        };
        let j0 = if j < from {
            j
        } else {
            j - from - 1 + to
        };
        if k < from && j == from {
            // a block in front of the merged one
            assert(apart(region, list[k]));
            if k < i - 1 {
                assert(ordered(list, k, i - 1));
            }
        } else if k == from && j > from {
            // a block behind the merged one
            assert(apart(region, list[j0]));
            if j0 > i {
                assert(ordered(list, i, j0));
            }
        } else {
            assert(ordered(list, k0, j0));
        }
    }
}

/// A block of the list that a region is not merged with stands in the
/// list that the region was put into.
pub proof fn lemma_released_keeps(list: Seq<Block>, region: Block, i: int, k: int) -> (at: int)
    requires
        0 <= i <= list.len(),
        0 <= k < list.len(),
        !(k == i - 1 && touches_prev(list, region, i)),
        !(k == i && touches_next(list, region, i)),
    ensures
        0 <= at < released_at(list, region, i).len(),
        released_at(list, region, i)[at] == list[k],
{
    let from = merged_index(list, region, i);
    if k < from {
        k
    } else if touches_next(list, region, i) {
        k - (i + 1) + from + 1
    } else {
        k - i + from + 1
    }
}

/// Putting back what was carved out of the block with index `i` gives
/// the list as it was.
pub proof fn lemma_released_carved(
    start: usize,
    list: Seq<Block>,
    i: int,
    size: usize,
    align: usize,
)
    requires
        start + ARENA_SIZE <= usize::MAX,
        spaced(start, list),
        0 <= i < list.len(),
        fits(list[i], size, align),
        FREE_NODE_SIZE <= padding_for(list[i].addr, align),
    ensures
        block_ok(start, taken_region(list[i], size, align)),
        forall|k: int|
            0 <= k < carve(list, i, size, align).len() ==> #[trigger] apart(
                taken_region(list[i], size, align),
                carve(list, i, size, align)[k],
            ),
        released(carve(list, i, size, align), taken_region(list[i], size, align)) == list,
{
    let block = list[i];
    let region = taken_region(block, size, align);
    let carved = carve(list, i, size, align);
    assert(block_ok(start, block));
    assert forall|k: int| 0 <= k < carved.len() implies #[trigger] apart(region, carved[k]) by {
        lemma_carve_at(list, i, size, align, k);
        let k0 = carved_from(list, i, size, align, k);
        if k0 < i {
            assert(ordered(list, k0, i));
        } else if k0 > i {
            assert(ordered(list, i, k0));
        }
    }
    assert(is_insertion_point(carved, region.addr, i)) by {
        assert forall|j: int| 0 <= j < i implies (#[trigger] carved[j]).addr < region.addr by {
            assert(block_ok(start, list[j]));
            assert(ordered(list, j, i));
        }
        assert forall|j: int| i <= j < carved.len() implies (#[trigger] carved[j]).addr
            > region.addr by {
            lemma_carve_at(list, i, size, align, j);
            let j0 = carved_from(list, i, size, align, j);
            if j0 > i {
                assert(ordered(list, i, j0));
            }
        }
    }
    lemma_insertion_point(carved, region.addr, i);
    if i > 0 {
        assert(ordered(list, i - 1, i));
    }
    if i + 1 < list.len() {
        assert(ordered(list, i, i + 1));
    }
    assert(released_at(carved, region, i) =~= list);
}

} // verus!

//! Fixed-arena memory allocators.
//!
//! Every allocator owns one arena of `ARENA_SIZE` bytes and serves requests out
//! of it with its own strategy: a linear (bump) arena, a stack, a pool of
//! equally sized chunks and a free list with first-fit or best-fit placement.
//! Allocator bookkeeping that belongs to a block (headers, list links) is kept
//! inside the arena's bytes, next to the block it describes.
//!
//! Addresses are plain `usize` values; the null address is `0`.

pub mod accounting;
pub mod arena;
pub mod blocks;
pub mod linear_arena;
pub mod linked_list;
pub mod pool;
pub mod spin_lock;
pub mod stack;
pub mod utils;

pub use arena::Arena;
pub use spin_lock::SpinLock;

use vstd::prelude::*;

verus! {

/// Number of bytes in every arena.
pub const ARENA_SIZE: usize = 131072;

} // verus!

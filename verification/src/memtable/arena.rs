//! The arena: a region of bounded size that hands out zeroed byte buffers
//! and never takes one back.
//!
//! A buffer stays valid, and where it is, for as long as the arena lives.
//! The memory is given back all at once, when the arena is dropped.

use bumpalo::Bump;
use vstd::prelude::*;

verus! {

#[verifier::external_type_specification]
#[verifier::external_body]
pub struct ExBump<const MIN_ALIGN: usize>(Bump<MIN_ALIGN>);

/// The allocation limit, in bytes, that a bump region was made with.
pub uninterp spec fn bump_limit(bump: Bump) -> usize;

/// `Bump::new` followed by `Bump::set_allocation_limit`: an empty region
/// that holds no chunk yet, with `limit` as the most bytes that its chunks
/// may take together. Nothing proved: the contract gives the region's limit
/// its name.
#[verifier::external_body]
fn bump_with_limit(limit: usize) -> (bump: Bump)
    ensures
        bump_limit(bump) == limit,
{
    let bump = Bump::new();
    bump.set_allocation_limit(Some(limit));
    bump
}

/// `Bump::try_alloc_slice_fill_copy` with `0` as the fill: a fresh slice of
/// `len` bytes, each of them `0`, or nothing where the region cannot take
/// it. Nothing proved. A slice lies within one chunk, and the chunks of a
/// region made by `bump_with_limit` never take more than the limit
/// together, so no slice is longer than the limit. When a request within
/// the limit succeeds depends on the chunks taken so far and on the global
/// allocator: the contract says nothing of it.
#[verifier::external_body]
fn bump_alloc_zeroed<'a>(bump: &'a Bump, len: usize) -> (r: Option<&'a mut [u8]>)
    ensures
        r matches Some(buffer) ==> buffer@.len() == len && forall|i: int|
            0 <= i < len ==> buffer@[i] == 0u8,
        len > bump_limit(*bump) ==> r is None,
{
    match bump.try_alloc_slice_fill_copy(len, 0u8) {
        Ok(buffer) => Some(buffer),
        Err(_) => None,
    }
}

/// The capacity of an arena made by `Arena::default`: ten mebibytes.
pub const DEFAULT_CAPACITY: usize = 10485760;

/// A region of memory of bounded size from which byte buffers are carved.
pub struct Arena {
    arena: Bump,
}

impl Arena {
    /// The capacity that the arena was made with, in bytes.
    pub closed spec fn capacity(&self) -> usize {
        bump_limit(self.arena)
    }

    /// An arena that hands out at most `capacity` bytes.
    pub fn new(capacity: usize) -> (arena: Arena)
        ensures
            arena.capacity() == capacity,
    {
        Arena { arena: bump_with_limit(capacity) }
    }

    /// A fresh buffer of `size` bytes, all of them zero, or `None` where the
    /// arena cannot take it. A request above the capacity is always refused.
    pub fn allocate(&self, size: usize) -> (r: Option<&mut [u8]>)
        ensures
            r matches Some(buffer) ==> buffer@.len() == size && forall|i: int|
                0 <= i < size ==> buffer@[i] == 0u8,
            size > self.capacity() ==> r is None,
    {
        bump_alloc_zeroed(&self.arena, size)
    }
}

impl Default for Arena {
    fn default() -> (arena: Arena)
        ensures
            arena.capacity() == DEFAULT_CAPACITY,
    {
        Arena::new(DEFAULT_CAPACITY)
    }
}

} // verus!

//! Blocks: the unit of the memory bookkeeping.
//!
//! A block is a half-open interval `[ptr, ptr + size)` of heap addresses.
//! A block with `size > 0` describes a free region; a block with `size == 0`
//! is an occupied placeholder that only keeps its slot in the directory.

use vstd::prelude::*;

verus! {

/// A half-open interval `[ptr, ptr + size)` on the heap.
#[derive(Clone, Copy, PartialEq, Eq, Structural, Debug)]
pub struct Block {
    /// Address of the first byte of the region.
    pub ptr: usize,
    /// Length of the region in bytes; `0` marks an occupied placeholder.
    pub size: usize,
}

impl Block {
    /// The exclusive upper end of the interval, as a mathematical integer.
    pub open spec fn end_spec(self) -> int {
        self.ptr + self.size
    }

    /// Whether `addr` lies inside the interval.
    pub open spec fn spec_contains(self, addr: int) -> bool {
        self.ptr <= addr < self.ptr + self.size
    }

    /// Whether the block describes a free region.
    pub open spec fn spec_is_free(self) -> bool {
        self.size > 0
    }

    /// The exclusive upper end of the interval.
    pub fn end(self) -> (r: usize)
        requires
            self.ptr + self.size <= usize::MAX,
        ensures
            r == self.end_spec(),
    {
        self.ptr + self.size
    }

    /// Whether the block ends exactly at address `q`.
    pub fn left_to(self, q: usize) -> (r: bool)
        requires
            self.ptr + self.size <= usize::MAX,
        ensures
            r <==> self.end_spec() == q,
    {
        self.ptr + self.size == q
    }

    /// Whether the block describes a free region.
    pub fn is_free(self) -> (r: bool)
        ensures
            r <==> self.spec_is_free(),
    {
        self.size != 0
    }

    /// Turn the block into an occupied placeholder, keeping its address.
    pub fn set_occupied(&mut self)
        ensures
            final(self).ptr == old(self).ptr,
            final(self).size == 0,
    {
        self.size = 0;
    }
}

} // verus!

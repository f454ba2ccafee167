//! Bookkeeping core of a `brk`-grown memory allocator.
//!
//! The library keeps a sorted, coalescing directory of the free regions of a
//! single contiguous heap segment.  Addresses are plain integers; the segment
//! itself (the program break and the bytes below it) is modeled by
//! [`heap::Heap`].  Every public operation preserves the directory invariants:
//! entries are sorted by address, pairwise disjoint, never both free and
//! adjacent, bounded by the segment end, and the directory never outgrows its
//! own reserved capacity.

pub mod block;
pub mod bookkeeper;
pub mod heap;
pub mod laws;

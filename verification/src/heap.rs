//! Model of the kernel-owned data segment.
//!
//! The host provides a single `brk`-style primitive: advancing the program
//! break by `n` bytes returns the prior break address.  The bookkeeper is the
//! segment's only client, so the prior break is always the address it last
//! computed as the segment end.  `Heap` models that contract: a break pointer
//! that only moves forward, and the bytes of `[HEAP_BASE, brk)`.

use vstd::prelude::*;

verus! {

use vstd::pervasive::VecAdditionalExecFns;

/// The address of the program break before any request has been made.
pub const HEAP_BASE: usize = 8192;

/// The data segment: the program break and the bytes below it.
pub struct Heap {
    brk: usize,
    mem: Vec<u8>,
}

impl Heap {
    /// The current program break.
    pub closed spec fn brk_spec(self) -> int {
        self.brk as int
    }

    /// The bytes of the segment, indexed from `HEAP_BASE`.
    pub closed spec fn mem_spec(self) -> Seq<u8> {
        self.mem@
    }

    /// The segment holds exactly the bytes of `[HEAP_BASE, brk)`.
    pub open spec fn wf(self) -> bool {
        &&& HEAP_BASE <= self.brk_spec()
        &&& self.mem_spec().len() == self.brk_spec() - HEAP_BASE
    }

    /// The byte stored at address `addr`.
    pub open spec fn byte_at(self, addr: int) -> u8 {
        self.mem_spec()[addr - HEAP_BASE]
    }

    /// A fresh segment: the break sits at `HEAP_BASE`, no bytes yet.
    pub fn new() -> (r: Heap)
        ensures
            r.wf(),
            r.brk_spec() == HEAP_BASE,
    {
        Heap { brk: HEAP_BASE, mem: Vec::new() }
    }

    /// Advance the program break by `n` bytes and return the prior break.
    /// The fresh bytes read as zero.
    pub fn inc_brk(&mut self, n: usize) -> (r: usize)
        requires
            old(self).wf(),
            old(self).brk_spec() + n <= usize::MAX,
        ensures
            final(self).wf(),
            r == old(self).brk_spec(),
            final(self).brk_spec() == old(self).brk_spec() + n,
            forall|a: int|
                HEAP_BASE <= a < old(self).brk_spec() ==> final(self).byte_at(a) == old(
                    self,
                ).byte_at(a),
            forall|a: int|
                old(self).brk_spec() <= a < final(self).brk_spec() ==> final(self).byte_at(a)
                    == 0u8,
    {
        let r = self.brk;
        self.brk = self.brk + n;
        let mut i: usize = 0;
        while i < n
            invariant
                i <= n,
                self.brk == old(self).brk_spec() + n,
                self.mem@.len() == old(self).mem_spec().len() + i,
                forall|j: int| 0 <= j < old(self).mem_spec().len() ==> self.mem@[j] == old(
                    self,
                ).mem_spec()[j],
                forall|j: int|
                    old(self).mem_spec().len() <= j < self.mem@.len() ==> self.mem@[j] == 0u8,
            decreases n - i,
        {
            self.mem.push(0u8);
            i = i + 1;
        }
        r
    }

    /// Read the byte at `addr`.
    pub fn read(&self, addr: usize) -> (r: u8)
        requires
            self.wf(),
            HEAP_BASE <= addr < self.brk_spec(),
        ensures
            r == self.byte_at(addr as int),
    {
        self.mem[addr - HEAP_BASE]
    }

    /// Store `val` at `addr`.
    pub fn write(&mut self, addr: usize, val: u8)
        requires
            old(self).wf(),
            HEAP_BASE <= addr < old(self).brk_spec(),
        ensures
            final(self).wf(),
            final(self).brk_spec() == old(self).brk_spec(),
            final(self).byte_at(addr as int) == val,
            forall|a: int|
                HEAP_BASE <= a < old(self).brk_spec() && a != addr ==> final(self).byte_at(a)
                    == old(self).byte_at(a),
    {
        self.mem.set(addr - HEAP_BASE, val);
    }
}

} // verus!

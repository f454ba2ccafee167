//! The memory bookkeeper.
//!
//! A sorted, coalescing directory of the free blocks of the heap segment.
//! The directory's own backing buffer is charged against the very segment it
//! manages: `[buf_ptr, buf_ptr + cap * BLOCK_SLOT_BYTES)` is reserved for the
//! directory and never handed out or recorded as free.

use vstd::prelude::*;

verus! {

use vstd::arithmetic::div_mod::lemma_fundamental_div_mod;
use vstd::arithmetic::div_mod::lemma_mod_multiples_basic;
use crate::block::Block;
use crate::heap::Heap;
use crate::heap::HEAP_BASE;

/// Sentinel address marking a directory that has not been initialised yet.
pub const EMPTY_HEAP: usize = 1;

/// Number of directory slots reserved by the initial bootstrap request.
pub const INITIAL_CAPACITY: usize = 16;

/// Bytes of segment charged per directory slot (two machine words).
pub const BLOCK_SLOT_BYTES: usize = 16;

/// Alignment of the directory's backing buffer.
pub const BLOCK_SLOT_ALIGN: usize = 8;

/// Smallest number of bytes any break request asks for.
pub const BRK_MIN: usize = 200;

/// Growth factor of the slack added to a break request.
pub const BRK_MULTIPLIER: usize = 1;

/// Upper bound on the slack added to a break request.
pub const BRK_MIN_EXTRA: usize = 10000;

/// Ordering and disjointness of one pair of directory entries, the first
/// standing somewhere before the second: addresses strictly increase, the
/// intervals do not overlap, and two entries may touch only if one of them
/// is an occupied placeholder.
pub open spec fn pair_wf(a: Block, b: Block) -> bool {
    &&& a.ptr < b.ptr
    &&& a.end_spec() <= b.ptr
    &&& (a.end_spec() == b.ptr ==> a.size == 0 || b.size == 0)
}

/// Every pair of entries of the directory is ordered and disjoint.
pub open spec fn blocks_wf(es: Seq<Block>) -> bool {
    forall|i: int, j: int| 0 <= i < j < es.len() ==> pair_wf(#[trigger] es[i], #[trigger] es[j])
}

/// Whether some entry of `es` covers address `addr` as free space.
pub open spec fn covers_seq(es: Seq<Block>, addr: int) -> bool {
    exists|i: int| 0 <= i < es.len() && (#[trigger] es[i]).spec_contains(addr)
}

/// The block lies inside the segment `[HEAP_BASE, seg_end)`.
pub open spec fn block_in_segment(b: Block, seg_end: int) -> bool {
    &&& HEAP_BASE <= b.ptr
    &&& b.ptr < seg_end
    &&& b.end_spec() <= seg_end
}

/// What we add to a pointer to align it to `a`: zero when `p` is already
/// a multiple of `a`.
pub open spec fn spec_aligner(p: int, a: int) -> int {
    if p % a == 0 {
        0
    } else {
        a - p % a
    }
}

/// Calculate the aligner: the offset that carries `ptr` to the next multiple
/// of `align`.
pub fn aligner(ptr: usize, align: usize) -> (r: usize)
    requires
        1 <= align,
    ensures
        r == spec_aligner(ptr as int, align as int),
        r < align,
        (ptr + r) % (align as int) == 0,
{
    let m = ptr % align;
    let r = if m == 0 {
        0
    } else {
        align - m
    };
    proof {
        let a = align as int;
        let p = ptr as int;
        lemma_fundamental_div_mod(p, a);
        let d = p / a;
        if m == 0 {
            assert(a * d == d * a) by (nonlinear_arith);
            lemma_mod_multiples_basic(d, a);
        } else {
            assert(a * d + a == (d + 1) * a) by (nonlinear_arith);
            lemma_mod_multiples_basic(d + 1, a);
        }
    }
    r
}

/// The free entry can serve a request of `size` bytes aligned to `align`:
/// it is free and holds the alignment offset plus the size.
pub open spec fn entry_fits(e: Block, size: int, align: int) -> bool {
    e.spec_is_free() && spec_aligner(e.ptr as int, align) + size <= e.size
}

/// The slack-inflated size of a break request.  Kernel calls are expensive,
/// so every request is padded: at least `BRK_MIN` bytes are asked for, and a
/// request is inflated by its own size up to `BRK_MIN_EXTRA` extra bytes.
pub open spec fn spec_canonicalize_brk(n: int) -> int {
    let extra = if BRK_MULTIPLIER * n < BRK_MIN_EXTRA {
        BRK_MULTIPLIER * n
    } else {
        BRK_MIN_EXTRA as int
    };
    let s = if n + extra <= usize::MAX {
        n + extra
    } else {
        usize::MAX as int
    };
    if s < BRK_MIN {
        BRK_MIN as int
    } else {
        s
    }
}

/// Canonicalize a break request: the returned size is never below the
/// argument, never below `BRK_MIN`, and exceeds the argument by at most
/// `BRK_MIN_EXTRA` slack (plus the `BRK_MIN` floor).
pub fn canonicalize_brk(size: usize) -> (r: usize)
    ensures
        r == spec_canonicalize_brk(size as int),
        size <= r,
        size + BRK_MIN_EXTRA <= usize::MAX ==> size < r,
        r <= size + BRK_MIN_EXTRA || r == BRK_MIN,
{
    let scaled = BRK_MULTIPLIER * size;
    let extra = if scaled < BRK_MIN_EXTRA {
        scaled
    } else {
        BRK_MIN_EXTRA
    };
    let s = if size <= usize::MAX - extra {
        size + extra
    } else {
        usize::MAX
    };
    if s < BRK_MIN {
        BRK_MIN
    } else {
        s
    }
}

/// The bytes of the segment only ever grow, and the bytes already present
/// keep their values.
pub open spec fn mem_preserved(pre: BlockVec, post: BlockVec) -> bool {
    &&& pre.brk_spec() <= post.brk_spec()
    &&& forall|a: int| HEAP_BASE <= a < pre.brk_spec() ==> post.byte_at(a) == pre.byte_at(a)
}

/// Some entry of `es` has address `p`.
pub open spec fn ptr_among(es: Seq<Block>, p: int) -> bool {
    exists|j: int| 0 <= j < es.len() && (#[trigger] es[j]).ptr == p
}

/// Address `p` is accounted for by the earlier state: it lay in free space,
/// was already an entry address, or sits at or above the old segment end.
pub open spec fn ptr_rooted(es: Seq<Block>, seg: int, p: int) -> bool {
    ||| covers_seq(es, p)
    ||| p >= seg
    ||| exists|j: int| 0 <= j < es.len() && (#[trigger] es[j]).ptr == p
}

/// Every entry address of `post` is accounted for by `pre`.
pub open spec fn ptrs_rooted(pre: BlockVec, post: BlockVec) -> bool {
    forall|i: int|
        0 <= i < post.blocks().len() ==> ptr_rooted(
            pre.blocks(),
            pre.seg_spec(),
            (#[trigger] post.blocks()[i]).ptr as int,
        )
}

/// The tail left over when an allocation of `size` bytes with pre-stub `al`
/// is carved out of the free entry `e`: the addresses from the end of the
/// allocation to the end of the entry, present only when the carve leaves
/// such a tail.
spec fn tail_region(al: usize, res: int, size: int, e: Block, a: int) -> bool {
    al + size < e.size && res + size <= a < e.end_spec()
}

/// An interval that shares no address with `[lo, hi)` lies wholly on one
/// side of it.
proof fn lemma_interval_avoids(bp: int, bsz: int, lo: int, hi: int)
    requires
        bsz >= 1,
        lo < hi,
        !(lo <= bp < hi),
        !(bp <= lo < bp + bsz),
    ensures
        bp + bsz <= lo || hi <= bp,
{
}

/// A block no address of which falls in the directory's buffer region lies
/// wholly below or wholly above that region.
proof fn lemma_block_avoids_directory(bv: BlockVec, block: Block)
    requires
        bv.cap_spec() > 0,
        block.size >= 1,
        forall|a: int| #![trigger bv.in_dir(a)] block.spec_contains(a) ==> !bv.in_dir(a),
    ensures
        block.end_spec() <= bv.buf_spec() || bv.dir_end() <= block.ptr,
{
    assert(bv.buf_spec() < bv.dir_end());
    assert(bv.in_dir(bv.buf_spec()));
    assert(!bv.in_dir(block.ptr as int));
    lemma_interval_avoids(block.ptr as int, block.size as int, bv.buf_spec(), bv.dir_end());
}

/// A block that was a valid target for `free` stays one across an operation
/// that only consumes old free space or fresh segment ground: coverage only
/// moves upward or into the directory buffer, entry addresses stay rooted in
/// the old state, and the directory buffer moves only into old free space or
/// fresh ground.
proof fn lemma_valid_block_preserved(pre: BlockVec, post: BlockVec, b: Block)
    requires
        pre.valid_free_block(b),
        pre.seg_spec() <= post.seg_spec(),
        forall|a: int|
            #![trigger post.covers(a)]
            post.covers(a) ==> pre.covers(a) || a >= pre.seg_spec(),
        forall|i: int|
            0 <= i < post.blocks().len() ==> ptr_rooted(
                pre.blocks(),
                pre.seg_spec(),
                (#[trigger] post.blocks()[i]).ptr as int,
            ),
        forall|a: int|
            #![trigger post.in_dir(a)]
            post.in_dir(a) ==> pre.in_dir(a) || pre.covers(a) || a >= pre.seg_spec(),
    ensures
        post.valid_free_block(b),
{
    assert forall|a: int| b.spec_contains(a) implies !post.covers(a) by {
        if post.covers(a) {
            assert(pre.covers(a) || a >= pre.seg_spec());
        }
    }
    assert forall|j: int| 0 <= j < post.blocks().len() implies !(b.ptr < (
    #[trigger] post.blocks()[j]).ptr < b.end_spec()) by {
        let p = post.blocks()[j].ptr as int;
        assert(ptr_rooted(pre.blocks(), pre.seg_spec(), p));
        if b.ptr < p < b.end_spec() {
            if covers_seq(pre.blocks(), p) {
                assert(pre.covers(p));
                assert(b.spec_contains(p));
                assert(false);
            } else if p >= pre.seg_spec() {
                assert(b.end_spec() <= pre.seg_spec());
                assert(false);
            } else {
                let y = choose|y: int|
                    0 <= y < pre.blocks().len() && (#[trigger] pre.blocks()[y]).ptr == p;
                assert(!(b.ptr < pre.blocks()[y].ptr < b.end_spec()));
                assert(false);
            }
        }
    }
    assert forall|a: int| b.spec_contains(a) implies !post.in_dir(a) by {
        if post.in_dir(a) {
            assert(pre.in_dir(a) || pre.covers(a) || a >= pre.seg_spec());
        }
    }
}

/// As `lemma_valid_block_preserved`, for an operation that additionally
/// hands the region of `blk` back to the directory: a valid block disjoint
/// from `blk` stays valid.
proof fn lemma_valid_block_preserved_around(pre: BlockVec, post: BlockVec, b: Block, blk: Block)
    requires
        pre.valid_free_block(b),
        b.ptr + b.size <= blk.ptr || blk.ptr + blk.size <= b.ptr,
        pre.seg_spec() <= post.seg_spec(),
        forall|a: int|
            #![trigger post.covers(a)]
            post.covers(a) ==> pre.covers(a) || blk.spec_contains(a) || a >= pre.seg_spec(),
        forall|i: int|
            0 <= i < post.blocks().len() ==> ptr_rooted(
                pre.blocks(),
                pre.seg_spec(),
                (#[trigger] post.blocks()[i]).ptr as int,
            ) || blk.ptr <= post.blocks()[i].ptr <= blk.ptr + blk.size,
        forall|a: int|
            #![trigger post.in_dir(a)]
            post.in_dir(a) ==> pre.in_dir(a) || pre.covers(a) || a >= pre.seg_spec(),
    ensures
        post.valid_free_block(b),
{
    assert forall|a: int| b.spec_contains(a) implies !post.covers(a) by {
        if post.covers(a) {
            assert(pre.covers(a) || blk.spec_contains(a) || a >= pre.seg_spec());
        }
    }
    assert forall|j: int| 0 <= j < post.blocks().len() implies !(b.ptr < (
    #[trigger] post.blocks()[j]).ptr < b.end_spec()) by {
        let p = post.blocks()[j].ptr as int;
        if b.ptr < p < b.end_spec() {
            if blk.ptr <= post.blocks()[j].ptr <= blk.ptr + blk.size {
                assert(false);
            } else if covers_seq(pre.blocks(), p) {
                assert(pre.covers(p));
                assert(b.spec_contains(p));
                assert(false);
            } else if p >= pre.seg_spec() {
                assert(b.end_spec() <= pre.seg_spec());
                assert(false);
            } else {
                let y = choose|y: int|
                    0 <= y < pre.blocks().len() && (#[trigger] pre.blocks()[y]).ptr == p;
                assert(!(b.ptr < pre.blocks()[y].ptr < b.end_spec()));
                assert(false);
            }
        }
    }
    assert forall|a: int| b.spec_contains(a) implies !post.in_dir(a) by {
        if post.in_dir(a) {
            assert(pre.in_dir(a) || pre.covers(a) || a >= pre.seg_spec());
        }
    }
}

/// Merging a freed block with its free neighbors keeps the directory
/// well-formed and extends the covered addresses by exactly the block.
#[verifier::rlimit(100)]
proof fn lemma_free_ind_merge(
    esb: Seq<Block>,
    es1: Seq<Block>,
    ind: int,
    block: Block,
    left: bool,
    right: bool,
    seg: int,
    buf: int,
    dir_end: int,
)
    requires
        blocks_wf(esb),
        forall|i: int| 0 <= i < esb.len() ==> block_in_segment(#[trigger] esb[i], seg),
        forall|i: int|
            0 <= i < esb.len() && (#[trigger] esb[i]).spec_is_free() ==> esb[i].end_spec() <= buf
                || dir_end <= esb[i].ptr,
        block.size >= 1,
        HEAP_BASE <= block.ptr,
        block.end_spec() <= seg,
        block.end_spec() <= buf || dir_end <= block.ptr,
        buf < dir_end,
        seg <= usize::MAX,
        0 <= ind <= esb.len(),
        !right ==> (ind < esb.len() ==> !(esb[ind].spec_is_free() && esb[ind].ptr
            == block.end_spec())),
        !left ==> (1 <= ind ==> !(esb[ind - 1].spec_is_free() && esb[ind - 1].end_spec()
            == block.ptr)),
        forall|j: int|
            0 <= j < ind ==> (#[trigger] esb[j]).ptr < block.ptr && esb[j].end_spec()
                <= block.ptr,
        forall|j: int| ind <= j < esb.len() ==> block.end_spec() <= (#[trigger] esb[j]).ptr,
        left || right,
        left ==> 1 <= ind && esb[ind - 1].spec_is_free() && esb[ind - 1].end_spec() == block.ptr,
        right ==> ind < esb.len() && esb[ind].spec_is_free() && esb[ind].ptr
            == block.end_spec(),
        left && right ==> es1 == esb.update(
            ind - 1,
            Block {
                ptr: esb[ind - 1].ptr,
                size: (esb[ind - 1].size + block.size + esb[ind].size) as usize,
            },
        ).remove(ind),
        left && !right ==> es1 == esb.update(
            ind - 1,
            Block { ptr: esb[ind - 1].ptr, size: (esb[ind - 1].size + block.size) as usize },
        ),
        !left && right ==> es1 == esb.update(
            ind,
            Block { ptr: block.ptr, size: (block.size + esb[ind].size) as usize },
        ),
    ensures
        blocks_wf(es1),
        forall|i: int| 0 <= i < es1.len() ==> block_in_segment(#[trigger] es1[i], seg),
        forall|i: int|
            0 <= i < es1.len() && (#[trigger] es1[i]).spec_is_free() ==> es1[i].end_spec() <= buf
                || dir_end <= es1[i].ptr,
        es1.len() == esb.len() - (if left && right {
            1int
        } else {
            0int
        }),
        forall|a: int|
            #![trigger covers_seq(es1, a)]
            #![trigger covers_seq(esb, a)]
            #![trigger block.spec_contains(a)]
            covers_seq(es1, a) <==> covers_seq(esb, a) || block.spec_contains(a),
        forall|j: int|
            0 <= j < es1.len() ==> ptr_among(esb, (#[trigger] es1[j]).ptr as int)
                || es1[j].ptr == block.ptr,
{
    let m: int = if left {
        ind - 1
    } else {
        ind
    };
    let merged = es1[m];
    let lo: int = if left {
        esb[ind - 1].ptr as int
    } else {
        block.ptr as int
    };
    let hi: int = if right {
        esb[ind].end_spec()
    } else {
        block.end_spec()
    };
    assert(merged.ptr == lo && merged.end_spec() == hi && merged.size > 0);
    // the merged interval is the old left entry, the block, and the old
    // right entry laid end to end
    assert forall|i: int, j: int| 0 <= i < j < es1.len() implies pair_wf(es1[i], es1[j]) by {
        let i0: int = if left && right && i >= ind {
            i + 1
        } else {
            i
        };
        let j0: int = if left && right && j >= ind {
            j + 1
        } else {
            j
        };
        if i == m {
            assert(block.end_spec() <= esb[j0].ptr);
            if right {
                assert(pair_wf(esb[ind], esb[j0]));
            }
            if !right && esb[j0].ptr == hi && esb[j0].size != 0 {
                if j0 > ind {
                    assert(pair_wf(esb[ind], esb[j0]));
                    assert(block.end_spec() <= esb[ind].ptr);
                    assert(false);
                } else {
                    assert(false);
                }
            }
        } else if j == m {
            assert(pair_wf(esb[i0], esb[if left {
                ind - 1
            } else {
                ind
            }]));
            if !left && esb[i0].end_spec() == lo && esb[i0].size != 0 {
                if i0 < ind - 1 {
                    assert(pair_wf(esb[i0], esb[ind - 1]));
                    assert(esb[i0].end_spec() <= esb[ind - 1].ptr);
                    assert(esb[ind - 1].ptr < block.ptr);
                    assert(false);
                } else {
                    assert(false);
                }
            }
        } else {
            assert(pair_wf(esb[i0], esb[j0]));
        }
    }
    assert forall|i: int| 0 <= i < es1.len() implies block_in_segment(es1[i], seg) by {
        let i0: int = if left && right && i >= ind {
            i + 1
        } else {
            i
        };
        if i != m {
            assert(block_in_segment(esb[i0], seg));
        } else {
            assert(block_in_segment(esb[if left {
                ind - 1
            } else {
                ind
            }], seg));
            if right {
                assert(block_in_segment(esb[ind], seg));
            }
        }
    }
    assert forall|i: int|
        0 <= i < es1.len() && (#[trigger] es1[i]).spec_is_free() implies es1[i].end_spec() <= buf
            || dir_end <= es1[i].ptr by {
        let i0: int = if left && right && i >= ind {
            i + 1
        } else {
            i
        };
        if i != m {
            assert(esb[i0].spec_is_free());
        } else {
            // each piece of the merged interval avoids the directory, and
            // the pieces touch, so the whole avoids it too
            if dir_end <= lo {
            } else {
                if left {
                    assert(esb[ind - 1].spec_is_free());
                    assert(esb[ind - 1].end_spec() <= buf || dir_end <= esb[ind - 1].ptr);
                    assert(esb[ind - 1].end_spec() <= buf);
                    assert(block.end_spec() <= buf || dir_end <= block.ptr);
                    if dir_end <= block.ptr {
                        assert(buf < dir_end <= block.ptr);
                        assert(esb[ind - 1].end_spec() == block.ptr);
                        assert(false);
                    }
                } else {
                    assert(block.end_spec() <= buf);
                }
                if right {
                    assert(esb[ind].spec_is_free());
                    if dir_end <= esb[ind].ptr {
                        assert(esb[ind].ptr == block.end_spec());
                        assert(block.end_spec() <= buf);
                        assert(false);
                    }
                    assert(esb[ind].end_spec() <= buf);
                }
            }
        }
    }
    assert forall|a: int| covers_seq(es1, a) implies covers_seq(esb, a) || block.spec_contains(
        a,
    ) by {
        let i = choose|i: int| 0 <= i < es1.len() && (#[trigger] es1[i]).spec_contains(a);
        let i0: int = if left && right && i >= ind {
            i + 1
        } else {
            i
        };
        if i != m {
            assert(esb[i0].spec_contains(a));
        } else {
            if left && a < esb[ind - 1].end_spec() {
                assert(esb[ind - 1].spec_contains(a));
            } else if right && a >= esb[ind].ptr {
                assert(esb[ind].spec_contains(a));
            } else {
                assert(block.spec_contains(a));
            }
        }
    }
    assert forall|a: int|
        covers_seq(esb, a) || block.spec_contains(a) implies covers_seq(es1, a) by {
        if covers_seq(esb, a) {
            let i = choose|i: int| 0 <= i < esb.len() && (#[trigger] esb[i]).spec_contains(a);
            if left && i == ind - 1 {
                assert(es1[m].spec_contains(a));
            } else if right && i == ind {
                assert(es1[m].spec_contains(a));
            } else {
                let i1: int = if left && right && i > ind {
                    i - 1
                } else {
                    i
                };
                assert(es1[i1].spec_contains(a));
            }
        } else {
            assert(es1[m].spec_contains(a));
        }
    }
    assert forall|j: int| 0 <= j < es1.len() implies ptr_among(esb, (#[trigger] es1[j]).ptr as int)
        || es1[j].ptr == block.ptr by {
        let j0: int = if left && right && j >= ind {
            j + 1
        } else {
            j
        };
        if j != m {
            assert(esb[j0].ptr == es1[j].ptr);
        } else if left {
            assert(esb[ind - 1].ptr == es1[j].ptr);
        }
    }
}

/// Growing the last entry of the directory in place extends the covered
/// addresses by exactly the added tail.
proof fn lemma_extend_last_covers(es0: Seq<Block>, es1: Seq<Block>, b: Block)
    requires
        es0.len() > 0,
        es1 == es0.update(es0.len() - 1, b),
        b.ptr == es0.last().ptr,
        b.size >= es0.last().size,
        es0.last().spec_is_free(),
    ensures
        forall|a: int|
            covers_seq(es1, a) <==> covers_seq(es0, a) || (es0.last().end_spec() <= a
                < b.end_spec()),
{
    let l = es0.len() - 1;
    assert forall|a: int| covers_seq(es1, a) implies covers_seq(es0, a) || (es0.last().end_spec()
        <= a < b.end_spec()) by {
        let i = choose|i: int| 0 <= i < es1.len() && (#[trigger] es1[i]).spec_contains(a);
        if i != l {
            assert(es0[i].spec_contains(a));
        } else if a < es0.last().end_spec() {
            assert(es0[l].spec_contains(a));
        }
    }
    assert forall|a: int|
        covers_seq(es0, a) || (es0.last().end_spec() <= a < b.end_spec()) implies covers_seq(
        es1,
        a,
    ) by {
        if covers_seq(es0, a) {
            let i = choose|i: int| 0 <= i < es0.len() && (#[trigger] es0[i]).spec_contains(a);
            if i == l {
                assert(es1[l].spec_contains(a));
            } else {
                assert(es1[i].spec_contains(a));
            }
        } else {
            assert(es1[l].spec_contains(a));
        }
    }
}

/// The block vector: the sorted directory of free blocks and occupied
/// placeholders, together with the segment it lives in.
pub struct BlockVec {
    /// Number of slots the directory's heap-resident buffer can hold.
    cap: usize,
    /// Exclusive upper bound of the managed segment.
    seg_end: usize,
    /// Address of the directory's backing buffer inside the segment.
    ptr: usize,
    /// The entries themselves.
    entries: Vec<Block>,
    /// The modeled kernel segment.
    heap: Heap,
}

impl BlockVec {
    /// The directory entries.
    pub closed spec fn blocks(self) -> Seq<Block> {
        self.entries@
    }

    /// The slot capacity of the directory buffer.
    pub closed spec fn cap_spec(self) -> int {
        self.cap as int
    }

    /// The segment end.
    pub closed spec fn seg_spec(self) -> int {
        self.seg_end as int
    }

    /// The address of the directory buffer.
    pub closed spec fn buf_spec(self) -> int {
        self.ptr as int
    }

    /// The underlying segment model.
    pub closed spec fn heap_spec(self) -> Heap {
        self.heap
    }

    /// The current program break.
    pub open spec fn brk_spec(self) -> int {
        self.heap_spec().brk_spec()
    }

    /// The byte stored at `addr`.
    pub open spec fn byte_at(self, addr: int) -> u8 {
        self.heap_spec().byte_at(addr)
    }

    /// Number of entries in use.
    pub open spec fn len_spec(self) -> int {
        self.blocks().len() as int
    }

    /// Exclusive upper end of the directory's reserved buffer region.
    pub open spec fn dir_end(self) -> int {
        self.buf_spec() + self.cap_spec() * (BLOCK_SLOT_BYTES as int)
    }

    /// Whether `addr` lies in the region reserved for the directory buffer.
    pub open spec fn in_dir(self, addr: int) -> bool {
        self.buf_spec() <= addr < self.dir_end()
    }

    /// Whether `addr` is covered by a free entry of the directory.
    pub open spec fn covers(self, addr: int) -> bool {
        covers_seq(self.blocks(), addr)
    }

    /// The directory invariants: entries sorted and disjoint, adjacent only
    /// across an occupied placeholder, bounded by the segment end, length
    /// within capacity, and (once initialised) the directory buffer inside
    /// the segment, aligned, tight against the break, and overlapping no
    /// free entry.
    pub open spec fn wf(self) -> bool {
        let es = self.blocks();
        &&& self.heap_spec().wf()
        &&& es.len() <= self.cap_spec()
        &&& blocks_wf(es)
        &&& forall|i: int| 0 <= i < es.len() ==> block_in_segment(#[trigger] es[i], self.seg_spec())
        &&& if self.cap_spec() == 0 {
            &&& es.len() == 0
            &&& self.buf_spec() == EMPTY_HEAP
            &&& self.seg_spec() == EMPTY_HEAP
            &&& self.brk_spec() == HEAP_BASE
        } else {
            &&& INITIAL_CAPACITY <= self.cap_spec()
            &&& HEAP_BASE <= self.buf_spec()
            &&& self.buf_spec() % (BLOCK_SLOT_ALIGN as int) == 0
            &&& self.dir_end() <= self.seg_spec()
            &&& self.seg_spec() == self.brk_spec()
            &&& forall|i: int|
                0 <= i < es.len() && (#[trigger] es[i]).spec_is_free() ==> es[i].end_spec()
                    <= self.buf_spec() || self.dir_end() <= es[i].ptr
        }
    }

    /// A new, empty block vector; no allocation, no break request.
    pub fn new() -> (r: BlockVec)
        ensures
            r.wf(),
            r.cap_spec() == 0,
            r.blocks().len() == 0,
    {
        BlockVec {
            cap: 0,
            seg_end: EMPTY_HEAP,
            ptr: EMPTY_HEAP,
            entries: Vec::new(),
            heap: Heap::new(),
        }
    }

    /// Append `block` at the high end of the directory.  The caller has
    /// already reserved a slot and guarantees that the block stands strictly
    /// above every existing entry.
    fn push(&mut self, block: Block)
        requires
            old(self).wf(),
            old(self).len_spec() < old(self).cap_spec(),
            block_in_segment(block, old(self).seg_spec()),
            forall|i: int|
                0 <= i < old(self).len_spec() ==> pair_wf(
                    #[trigger] old(self).blocks()[i],
                    block,
                ),
            block.spec_is_free() ==> block.end_spec() <= old(self).buf_spec() || old(self).dir_end() <= block.ptr,
        ensures
            final(self).wf(),
            final(self).blocks() == old(self).blocks().push(block),
            final(self).cap_spec() == old(self).cap_spec(),
            final(self).seg_spec() == old(self).seg_spec(),
            final(self).buf_spec() == old(self).buf_spec(),
            final(self).heap_spec() == old(self).heap_spec(),
    {
        self.entries.push(block);
        proof {
            let es0 = old(self).blocks();
            let es1 = self.blocks();
            assert forall|i: int, j: int| 0 <= i < j < es1.len() implies pair_wf(
                es1[i],
                es1[j],
            ) by {
                if j < es0.len() {
                    assert(pair_wf(es0[i], es0[j]));
                } else {
                    assert(es1[i] == es0[i]);
                    assert(es1[j] == block);
                }
            }
            assert forall|i: int| 0 <= i < es1.len() implies block_in_segment(
                es1[i],
                self.seg_spec(),
            ) by {
                if i < es0.len() {
                    assert(block_in_segment(es0[i], old(self).seg_spec()));
                }
            }
        }
    }

    /// Record the free region `[p, p + size)` lying above every entry and the
    /// directory buffer: extend the last entry when it is free and touches
    /// `p`, push a fresh entry otherwise.
    fn append_free(&mut self, p: usize, size: usize)
        requires
            old(self).wf(),
            old(self).cap_spec() > 0,
            old(self).len_spec() < old(self).cap_spec(),
            size >= 1,
            HEAP_BASE <= p,
            p + size <= old(self).seg_spec(),
            forall|i: int|
                0 <= i < old(self).len_spec() ==> (#[trigger] old(self).blocks()[i]).ptr < p && old(self).blocks()[i].end_spec() <= p,
            p + size <= old(self).buf_spec() || old(self).dir_end() <= p,
        ensures
            final(self).wf(),
            final(self).cap_spec() == old(self).cap_spec(),
            final(self).seg_spec() == old(self).seg_spec(),
            final(self).buf_spec() == old(self).buf_spec(),
            final(self).heap_spec() == old(self).heap_spec(),
            forall|a: int|
                #![trigger final(self).covers(a)]
                #![trigger old(self).covers(a)]
                final(self).covers(a) <==> old(self).covers(a) || (p <= a < p + size),
            forall|i: int|
                0 <= i < final(self).blocks().len() ==> ptr_among(
                    old(self).blocks(),
                    (#[trigger] final(self).blocks()[i]).ptr as int,
                ) || final(self).blocks()[i].ptr == p,
            forall|i: int|
                0 <= i < old(self).len_spec() - 1 ==> final(self).blocks()[i] == old(self).blocks()[i],
            final(self).len_spec() <= old(self).len_spec() + 1,
            old(self).len_spec() <= final(self).len_spec(),
    {
        let ghost es0 = old(self).blocks();
        let len = self.entries.len();
        let mut merged = false;
        if len > 0 {
            let last = self.entries[len - 1];
            proof {
                assert(block_in_segment(es0[len - 1], old(self).seg_spec()));
            }
            if last.size != 0 && last.ptr + last.size == p {
                let grown = Block { ptr: last.ptr, size: last.size + size };
                self.entries.set(len - 1, grown);
                merged = true;
                proof {
                    let es1 = self.blocks();
                    let l = es1.len() - 1;
                    assert forall|i: int, j: int| 0 <= i < j < es1.len() implies pair_wf(
                        es1[i],
                        es1[j],
                    ) by {
                        assert(pair_wf(es0[i], es0[j]));
                        if j == l {
                            assert(es0[i].ptr < p);
                        }
                    }
                    assert forall|i: int| 0 <= i < es1.len() implies block_in_segment(
                        es1[i],
                        self.seg_spec(),
                    ) by {
                        assert(block_in_segment(es0[i], old(self).seg_spec()));
                    }
                    assert forall|i: int|
                        0 <= i < es1.len() && (#[trigger] es1[i]).spec_is_free() implies es1[i].end_spec()
                        <= self.buf_spec() || self.dir_end() <= es1[i].ptr by {
                        if i < l {
                            assert(es0[i].spec_is_free());
                        } else if p + size <= old(self).buf_spec() {
                            assert(es1[l].end_spec() <= self.buf_spec());
                        } else {
                            assert(es0[l].spec_is_free());
                            assert(old(self).buf_spec() < old(self).dir_end());
                            assert(old(self).dir_end() <= es0[l].ptr);
                        }
                    }
                    lemma_extend_last_covers(es0, es1, grown);
                    assert forall|i: int| 0 <= i < es1.len() implies ptr_among(
                        es0,
                        (#[trigger] es1[i]).ptr as int,
                    ) || es1[i].ptr == p by {
                        assert(es0[i].ptr == es1[i].ptr);
                    }
                }
            }
        }
        if !merged {
            proof {
                assert forall|i: int| 0 <= i < es0.len() implies pair_wf(
                    es0[i],
                    Block { ptr: p, size },
                ) by {
                    if i < es0.len() - 1 {
                        assert(pair_wf(es0[i], es0[es0.len() - 1]));
                        assert(es0[i].end_spec() <= es0[es0.len() - 1].ptr);
                    }
                }
            }
            self.push(Block { ptr: p, size });
            proof {
                let es1 = self.blocks();
                assert forall|a: int| final(self).covers(a) implies old(self).covers(a) || (p <= a
                    < p + size) by {
                    let i = choose|i: int|
                        0 <= i < es1.len() && (#[trigger] es1[i]).spec_contains(a);
                    if i < es0.len() {
                        assert(es0[i].spec_contains(a));
                    }
                }
                assert forall|a: int|
                    old(self).covers(a) || (p <= a < p + size) implies final(self).covers(a) by {
                    if old(self).covers(a) {
                        let i = choose|i: int|
                            0 <= i < es0.len() && (#[trigger] es0[i]).spec_contains(a);
                        assert(es1[i].spec_contains(a));
                    } else {
                        assert(es1[es1.len() - 1].spec_contains(a));
                    }
                }
            }
        }
    }

    /// Find a block's index through binary search by address.  On failure the
    /// returned index is where the block could be inserted to keep the
    /// directory sorted.
    fn search(&self, block: &Block) -> (r: Result<usize, usize>)
        requires
            self.wf(),
        ensures
            match r {
                Ok(i) => i < self.len_spec() && self.blocks()[i as int].ptr == block.ptr,
                Err(i) => {
                    &&& i <= self.len_spec()
                    &&& forall|j: int|
                        0 <= j < i ==> (#[trigger] self.blocks()[j]).ptr < block.ptr
                    &&& forall|j: int|
                        i <= j < self.len_spec() ==> block.ptr < (#[trigger] self.blocks()[j]).ptr
                },
            },
    {
        let ghost es = self.blocks();
        let mut lo: usize = 0;
        let mut hi: usize = self.entries.len();
        while lo < hi
            invariant
                self.wf(),
                es == self.blocks(),
                lo <= hi <= self.len_spec(),
                forall|j: int| 0 <= j < lo ==> (#[trigger] es[j]).ptr < block.ptr,
                forall|j: int| hi <= j < es.len() ==> block.ptr < (#[trigger] es[j]).ptr,
            decreases hi - lo,
        {
            let mid = lo + (hi - lo) / 2;
            let e = self.entries[mid];
            if e.ptr == block.ptr {
                return Ok(mid);
            } else if e.ptr < block.ptr {
                proof {
                    assert forall|j: int| 0 <= j < mid + 1 implies (#[trigger] es[j]).ptr
                        < block.ptr by {
                        if j < mid {
                            assert(pair_wf(es[j], es[mid as int]));
                        }
                    }
                }
                lo = mid + 1;
            } else {
                proof {
                    assert forall|j: int| mid <= j < es.len() implies block.ptr < (
                    #[trigger] es[j]).ptr by {
                        if mid < j {
                            assert(pair_wf(es[mid as int], es[j]));
                        }
                    }
                }
                hi = mid;
            }
        }
        Err(lo)
    }

    /// The index where `block` is, or where it would be inserted: everything
    /// below the result has a strictly smaller address, everything at or
    /// above it an address no smaller than the block's.
    fn find(&self, block: &Block) -> (r: usize)
        requires
            self.wf(),
        ensures
            r <= self.len_spec(),
            forall|j: int| 0 <= j < r ==> (#[trigger] self.blocks()[j]).ptr < block.ptr,
            forall|j: int|
                r <= j < self.len_spec() ==> block.ptr <= (#[trigger] self.blocks()[j]).ptr,
    {
        match self.search(block) {
            Ok(x) => {
                proof {
                    let es = self.blocks();
                    assert forall|j: int| 0 <= j < x implies (#[trigger] es[j]).ptr < block.ptr by {
                        assert(pair_wf(es[j], es[x as int]));
                    }
                    assert forall|j: int| x <= j < es.len() implies block.ptr <= (
                    #[trigger] es[j]).ptr by {
                        if x < j {
                            assert(pair_wf(es[x as int], es[j]));
                        }
                    }
                }
                x
            },
            Err(x) => x,
        }
    }

    /// Enough address space is left below `usize::MAX` that growing the
    /// directory cannot overflow the break.
    pub open spec fn reserve_room(self) -> bool {
        self.brk_spec() + 48 * self.cap_spec() + 25000 <= usize::MAX
    }

    /// Meta-circular bootstrap: make the first break request, carve out the
    /// directory's own buffer, and record the slack around it as the first
    /// free entries.
    fn init(&mut self)
        requires
            old(self).wf(),
            old(self).cap_spec() == 0,
        ensures
            final(self).wf(),
            final(self).cap_spec() == INITIAL_CAPACITY,
            final(self).buf_spec() == HEAP_BASE + spec_aligner(
                HEAP_BASE as int,
                BLOCK_SLOT_ALIGN as int,
            ),
            final(self).seg_spec() == HEAP_BASE + INITIAL_CAPACITY * BLOCK_SLOT_BYTES
                + BLOCK_SLOT_ALIGN,
            final(self).len_spec() <= 2,
            forall|a: int|
                #![trigger final(self).covers(a)]
                #![trigger final(self).in_dir(a)]
                final(self).covers(a) <==> (HEAP_BASE <= a < final(self).seg_spec() && !final(self).in_dir(a)),
            mem_preserved(*old(self), *final(self)),
    {
        let raw = self.heap.inc_brk(INITIAL_CAPACITY * BLOCK_SLOT_BYTES + BLOCK_SLOT_ALIGN);
        let al = aligner(raw, BLOCK_SLOT_ALIGN);
        let alignment_block = Block { ptr: raw, size: al };
        self.cap = INITIAL_CAPACITY;
        self.ptr = raw + al;
        let dir_bytes = INITIAL_CAPACITY * BLOCK_SLOT_BYTES;
        let stub = Block { ptr: raw + al + dir_bytes, size: BLOCK_SLOT_ALIGN - al };
        self.seg_end = raw + al + dir_bytes + (BLOCK_SLOT_ALIGN - al);
        if al != 0 {
            self.push(alignment_block);
        }
        self.push(stub);
        proof {
            let es = self.blocks();
            assert forall|a: int| final(self).covers(a) implies (HEAP_BASE <= a < final(self).seg_spec() && !final(self).in_dir(a)) by {
                let i = choose|i: int| 0 <= i < es.len() && (#[trigger] es[i]).spec_contains(a);
            }
            assert forall|a: int|
                HEAP_BASE <= a < final(self).seg_spec() && !final(self).in_dir(a) implies final(self).covers(a) by {
                if a < self.buf_spec() {
                    assert(es[0].spec_contains(a));
                } else {
                    assert(es[es.len() - 1].spec_contains(a));
                }
            }
        }
    }

    /// Reserve space for the directory: make sure at least `needed` slots
    /// can be used, initialising the directory first if necessary.  The
    /// directory's own buffer is grown like any other block: in place when
    /// the neighboring free entry or the segment top allows it, by moving to
    /// a freshly broken area otherwise (the old buffer is abandoned in
    /// place).
    #[verifier::rlimit(100)]
    fn reserve(&mut self, needed: usize)
        requires
            old(self).wf(),
            needed <= old(self).len_spec() + 2,
            old(self).reserve_room(),
        ensures
            final(self).wf(),
            old(self).cap_spec() <= final(self).cap_spec(),
            needed <= final(self).cap_spec(),
            INITIAL_CAPACITY <= final(self).cap_spec(),
            final(self).cap_spec() - final(self).len_spec() >= needed - old(self).len_spec(),
            final(self).cap_spec() <= old(self).cap_spec() + old(self).cap_spec() / 2 + 218,
            final(self).cap_spec() == old(self).cap_spec() || (old(self).cap_spec() == 0 && final(self).cap_spec() == INITIAL_CAPACITY) || final(self).cap_spec() == needed || final(self).cap_spec() == needed + 1 || final(self).cap_spec() == needed + (if old(self).cap_spec()
                < 200 + old(self).cap_spec() / 2 {
                old(self).cap_spec()
            } else {
                200 + old(self).cap_spec() / 2
            }),
            final(self).len_spec() <= old(self).len_spec() + 2,
            old(self).seg_spec() <= final(self).seg_spec(),
            final(self).cap_spec() == old(self).cap_spec() ==> *final(self) == *old(self),
            needed <= old(self).cap_spec() && old(self).cap_spec() > 0 ==> *final(self) == *old(self),
            final(self).brk_spec() <= old(self).brk_spec() + 48 * old(self).cap_spec() + 25000,
            mem_preserved(*old(self), *final(self)),
            forall|a: int|
                #![trigger old(self).covers(a)]
                #![trigger final(self).covers(a)]
                old(self).covers(a) ==> final(self).covers(a) || final(self).in_dir(a),
            forall|a: int|
                #![trigger final(self).covers(a)]
                #![trigger old(self).covers(a)]
                final(self).covers(a) ==> old(self).covers(a) || old(self).seg_spec() <= a,
            forall|a: int|
                #![trigger final(self).in_dir(a)]
                #![trigger old(self).in_dir(a)]
                final(self).in_dir(a) ==> old(self).in_dir(a) || old(self).covers(a) || a >= old(self).seg_spec(),
            ptrs_rooted(*old(self), *final(self)),
    {
        if self.cap == 0 {
            self.init();
            proof {
                assert forall|i: int| 0 <= i < self.blocks().len() implies ptr_rooted(
                    old(self).blocks(),
                    old(self).seg_spec(),
                    (#[trigger] self.blocks()[i]).ptr as int,
                ) by {
                    assert(self.blocks()[i].ptr >= HEAP_BASE > EMPTY_HEAP);
                }
            }
            return ;
        }
        if needed > self.cap {
            let ghost pre = *self;
            let dir_end = self.ptr + self.cap * BLOCK_SLOT_BYTES;
            let probe = Block { ptr: dir_end, size: 0 };
            let ind = self.find(&probe);
            let len = self.entries.len();
            let grow_inplace = if ind < len {
                let e = self.entries[ind];
                e.ptr == dir_end && e.size >= (needed - self.cap) * BLOCK_SLOT_BYTES && e.size
                    >= 1
            } else {
                false
            };
            if grow_inplace {
                // the free entry right after the buffer absorbs the growth
                let delta = (needed - self.cap) * BLOCK_SLOT_BYTES;
                let e = self.entries[ind];
                let ghost es0 = self.blocks();
                if e.size == delta {
                    self.entries.remove(ind);
                } else {
                    self.entries.set(ind, Block { ptr: e.ptr + delta, size: e.size - delta });
                }
                self.cap = needed;
                proof {
                    let es1 = self.blocks();
                    assert forall|i: int, j: int| 0 <= i < j < es1.len() implies pair_wf(
                        es1[i],
                        es1[j],
                    ) by {
                        let i0: int = if e.size == delta && i >= ind { i + 1 } else { i };
                        let j0: int = if e.size == delta && j >= ind { j + 1 } else { j };
                        assert(pair_wf(es0[i0], es0[j0]));
                    }
                    assert forall|i: int| 0 <= i < es1.len() implies block_in_segment(
                        es1[i],
                        self.seg_spec(),
                    ) by {
                        let i0: int = if e.size == delta && i >= ind { i + 1 } else { i };
                        assert(block_in_segment(es0[i0], pre.seg_spec()));
                    }
                    assert forall|i: int|
                        0 <= i < es1.len() && (#[trigger] es1[i]).spec_is_free() implies es1[i].end_spec()
                        <= self.buf_spec() || self.dir_end() <= es1[i].ptr by {
                        let i0: int = if e.size == delta && i >= ind { i + 1 } else { i };
                        assert(es0[i0].spec_is_free());
                        if i0 < ind {
                            assert(es0[i0].ptr < dir_end);
                            assert(es0[i0].end_spec() <= pre.buf_spec() || pre.dir_end()
                                <= es0[i0].ptr);
                        } else if i0 == ind {
                            assert(es1[i].ptr == dir_end + delta);
                        } else {
                            assert(pair_wf(es0[ind as int], es0[i0]));
                        }
                    }
                    assert(self.wf());
                    assert forall|a: int| pre.covers(a) implies self.covers(a) || self.in_dir(
                        a,
                    ) by {
                        let i = choose|i: int|
                            0 <= i < es0.len() && (#[trigger] es0[i]).spec_contains(a);
                        if i == ind {
                            if a >= dir_end + delta {
                                if e.size == delta {
                                } else {
                                    assert(es1[ind as int].spec_contains(a));
                                }
                            } else {
                                assert(self.in_dir(a));
                            }
                        } else if e.size == delta && i > ind {
                            assert(es1[i - 1].spec_contains(a));
                        } else {
                            assert(es1[i].spec_contains(a));
                        }
                    }
                    assert forall|a: int| self.covers(a) implies pre.covers(a) || pre.seg_spec()
                        <= a by {
                        let i = choose|i: int|
                            0 <= i < es1.len() && (#[trigger] es1[i]).spec_contains(a);
                        let i0: int = if e.size == delta && i >= ind { i + 1 } else { i };
                        assert(es0[i0].spec_contains(a));
                    }
                    assert forall|i: int| 0 <= i < es1.len() implies ptr_rooted(
                        es0,
                        pre.seg_spec(),
                        (#[trigger] es1[i]).ptr as int,
                    ) by {
                        let i0: int = if e.size == delta && i >= ind { i + 1 } else { i };
                        if i0 == ind {
                            assert(es0[ind as int].spec_contains(es1[i].ptr as int));
                        } else {
                            assert(es0[i0].ptr == es1[i].ptr);
                        }
                    }
                }
            } else if dir_end == self.seg_end {
                // the buffer touches the segment top: extend it by a break
                let delta = (needed + 1 - self.cap) * BLOCK_SLOT_BYTES;
                let can = canonicalize_brk(delta);
                let raw = self.heap.inc_brk(can);
                self.seg_end = raw + can;
                self.cap = needed + 1;
                proof {
                    assert forall|i: int| 0 <= i < self.blocks().len() implies block_in_segment(
                        #[trigger] self.blocks()[i],
                        self.seg_spec(),
                    ) by {
                        assert(block_in_segment(pre.blocks()[i], pre.seg_spec()));
                    }
                    assert forall|i: int|
                        0 <= i < self.blocks().len() && (#[trigger] self.blocks()[i]).spec_is_free()
                        implies self.blocks()[i].end_spec() <= self.buf_spec() || self.dir_end()
                        <= self.blocks()[i].ptr by {
                        assert(pre.blocks()[i].ptr < pre.seg_spec());
                        assert(pre.blocks()[i].end_spec() <= pre.buf_spec() || pre.dir_end()
                            <= pre.blocks()[i].ptr);
                    }
                    assert forall|i: int| 0 <= i < self.blocks().len() implies (
                    #[trigger] self.blocks()[i]).ptr < raw + delta && self.blocks()[i].end_spec()
                        <= raw + delta by {
                        assert(block_in_segment(pre.blocks()[i], pre.seg_spec()));
                    }
                }
                self.append_free(raw + delta, can - delta);
                proof {
                    assert forall|i: int| 0 <= i < self.blocks().len() implies ptr_rooted(
                        pre.blocks(),
                        pre.seg_spec(),
                        (#[trigger] self.blocks()[i]).ptr as int,
                    ) by {
                        if ptr_among(pre.blocks(), self.blocks()[i].ptr as int) {
                        } else {
                            assert(self.blocks()[i].ptr == raw + delta >= pre.seg_spec());
                        }
                    }
                }
            } else {
                // move the buffer to a freshly broken area; the old buffer
                // is abandoned in place
                let slack = if self.cap < 200 + self.cap / 2 {
                    self.cap
                } else {
                    200 + self.cap / 2
                };
                let new_cap = needed + slack;
                let bytes = new_cap * BLOCK_SLOT_BYTES;
                let al = aligner(self.seg_end, BLOCK_SLOT_ALIGN);
                let can = canonicalize_brk(bytes);
                let raw = self.heap.inc_brk(can + al);
                self.ptr = raw + al;
                self.cap = new_cap;
                self.seg_end = raw + al + (can - al) + al;
                proof {
                    assert(self.seg_spec() == raw + can + al);
                    assert forall|i: int| 0 <= i < self.blocks().len() implies block_in_segment(
                        #[trigger] self.blocks()[i],
                        self.seg_spec(),
                    ) && self.blocks()[i].ptr < raw && self.blocks()[i].end_spec() <= raw by {
                        assert(block_in_segment(pre.blocks()[i], pre.seg_spec()));
                    }
                    assert forall|i: int|
                        0 <= i < self.blocks().len() && (#[trigger] self.blocks()[i]).spec_is_free()
                        implies self.blocks()[i].end_spec() <= self.buf_spec() by {
                        assert(block_in_segment(pre.blocks()[i], pre.seg_spec()));
                    }
                }
                let ghost mid = *self;
                if al != 0 {
                    self.append_free(raw, al);
                }
                let ghost mid2 = *self;
                proof {
                    assert forall|i: int| 0 <= i < self.blocks().len() implies (
                    #[trigger] self.blocks()[i]).ptr < raw + al + bytes
                        && self.blocks()[i].end_spec() <= raw + al + bytes by {
                        if al != 0 && self.blocks()[i].ptr == raw {
                        } else {
                            assert(ptr_among(mid.blocks(), self.blocks()[i].ptr as int)
                                || self.blocks()[i].ptr == raw);
                        }
                        if self.covers(self.blocks()[i].end_spec() - 1) {
                        }
                    }
                }
                self.append_free(raw + al + bytes, can - bytes);
                proof {
                    assert forall|i: int| 0 <= i < self.blocks().len() implies ptr_rooted(
                        pre.blocks(),
                        pre.seg_spec(),
                        (#[trigger] self.blocks()[i]).ptr as int,
                    ) by {
                        if ptr_among(mid2.blocks(), self.blocks()[i].ptr as int) {
                            let j = choose|j: int|
                                0 <= j < mid2.blocks().len() && (#[trigger] mid2.blocks()[j]).ptr
                                    == self.blocks()[i].ptr;
                            if ptr_among(mid.blocks(), mid2.blocks()[j].ptr as int) {
                            } else {
                                assert(mid2.blocks()[j].ptr == raw >= pre.seg_spec());
                            }
                        } else {
                            assert(self.blocks()[i].ptr == raw + al + bytes >= pre.seg_spec());
                        }
                    }
                }
            }
        }
    }

    /// Insert a free block at its sort position `ind`.  Entries are shifted
    /// one slot to the right into the first occupied placeholder, which the
    /// shift absorbs; when no placeholder exists, a slot is reserved first.
    #[verifier::rlimit(100)]
    fn insert(&mut self, ind: usize, block: Block)
        requires
            old(self).wf(),
            block.size >= 1,
            ind <= old(self).len_spec(),
            forall|j: int| 0 <= j < ind ==> (#[trigger] old(self).blocks()[j]).ptr < block.ptr,
            ind > 0 ==> pair_wf(old(self).blocks()[ind - 1], block),
            ind < old(self).len_spec() ==> pair_wf(block, old(self).blocks()[ind as int]),
            forall|j: int|
                ind <= j < old(self).len_spec() ==> block.ptr < (#[trigger] old(self).blocks()[j]).ptr,
            block_in_segment(block, old(self).seg_spec()),
            block.end_spec() <= old(self).buf_spec() || old(self).dir_end() <= block.ptr,
            old(self).reserve_room(),
        ensures
            final(self).wf(),
            forall|a: int|
                #![trigger block.spec_contains(a)]
                #![trigger final(self).covers(a)]
                block.spec_contains(a) ==> final(self).covers(a),
            forall|a: int|
                #![trigger old(self).covers(a)]
                #![trigger final(self).covers(a)]
                old(self).covers(a) ==> final(self).covers(a) || final(self).in_dir(a),
            forall|a: int|
                #![trigger final(self).covers(a)]
                #![trigger old(self).covers(a)]
                final(self).covers(a) ==> old(self).covers(a) || block.spec_contains(a) || a >= old(self).seg_spec(),
            final(self).cap_spec() == old(self).cap_spec() ==> (forall|a: int|
                #![trigger final(self).covers(a)]
                #![trigger old(self).covers(a)]
                #![trigger block.spec_contains(a)]
                final(self).covers(a) <==> old(self).covers(a) || block.spec_contains(a)),
            final(self).cap_spec() == old(self).cap_spec() ==> final(self).seg_spec() == old(self).seg_spec(),
            old(self).cap_spec() <= final(self).cap_spec() <= old(self).cap_spec() + old(self).cap_spec() / 2 + 218,
            old(self).seg_spec() <= final(self).seg_spec(),
            mem_preserved(*old(self), *final(self)),
            final(self).brk_spec() <= old(self).brk_spec() + 48 * old(self).cap_spec() + 25000,
            forall|a: int|
                #![trigger final(self).in_dir(a)]
                #![trigger old(self).in_dir(a)]
                final(self).in_dir(a) ==> old(self).in_dir(a) || old(self).covers(a) || a >= old(self).seg_spec(),
            forall|i: int|
                0 <= i < final(self).blocks().len() ==> ptr_rooted(
                    old(self).blocks(),
                    old(self).seg_spec(),
                    (#[trigger] final(self).blocks()[i]).ptr as int,
                ) || final(self).blocks()[i].ptr == block.ptr,
            exists|jj: int|
                0 <= jj < final(self).blocks().len() && (#[trigger] final(self).blocks()[jj]).spec_is_free()
                    && final(self).blocks()[jj].ptr <= block.ptr && block.end_spec() <= final(self).blocks()[jj].end_spec(),
            final(self).cap_spec() == old(self).cap_spec() ==> (forall|i: int|
                0 <= i < ind ==> final(self).blocks()[i] == old(self).blocks()[i]),
            final(self).cap_spec() == old(self).cap_spec() ==> old(self).len_spec() <= final(self).len_spec(),
            final(self).len_spec() <= old(self).len_spec() + 3,
    {
        let ghost es0 = old(self).blocks();
        proof {
            // the block overlaps no free entry of the old directory
            assert forall|j: int| 0 <= j < es0.len() implies (#[trigger] es0[j]).end_spec()
                <= block.ptr || block.end_spec() <= es0[j].ptr by {
                if j < ind {
                    if j < ind - 1 {
                        assert(pair_wf(es0[j], es0[ind - 1]));
                    }
                } else {
                    if ind < j {
                        assert(pair_wf(es0[ind as int], es0[j]));
                    }
                }
            }
            assert forall|a: int| block.spec_contains(a) implies !old(self).covers(a) by {
                if old(self).covers(a) {
                    let j = choose|j: int|
                        0 <= j < es0.len() && (#[trigger] es0[j]).spec_contains(a);
                }
            }
        }
        // find the next gap: the first occupied placeholder at or after ind
        let len0 = self.entries.len();
        let mut k = ind;
        while k < len0 && self.entries[k].size != 0
            invariant
                ind <= k <= len0,
                len0 == self.len_spec(),
                *self == *old(self),
                forall|j: int| ind <= j < k ==> (#[trigger] self.blocks()[j]).size != 0,
            decreases len0 - k,
        {
            k = k + 1;
        }
        if k < len0 {
            // shift the run [ind, k) one slot right, absorbing the
            // placeholder at k
            let mut m = k;
            while m > ind
                invariant
                    ind <= m <= k < len0,
                    len0 == self.len_spec(),
                    self.cap_spec() == old(self).cap_spec(),
                    self.seg_spec() == old(self).seg_spec(),
                    self.buf_spec() == old(self).buf_spec(),
                    self.heap_spec() == old(self).heap_spec(),
                    forall|j: int| 0 <= j <= m ==> (#[trigger] self.blocks()[j]) == es0[j],
                    forall|j: int| m < j <= k ==> (#[trigger] self.blocks()[j]) == es0[j - 1],
                    forall|j: int| k < j < len0 ==> (#[trigger] self.blocks()[j]) == es0[j],
                decreases m,
            {
                let moved = self.entries[m - 1];
                self.entries.set(m, moved);
                m = m - 1;
            }
            self.entries.set(ind, block);
            proof {
                let es1 = self.blocks();
                let ki = k as int;
                let ii = ind as int;
                assert(es0[ki].size == 0);
                assert forall|i: int, j: int| 0 <= i < j < es1.len() implies pair_wf(
                    es1[i],
                    es1[j],
                ) by {
                    let i0: int = if i <= ii - 1 { i } else if i <= ki { i - 1 } else { i };
                    let j0: int = if j <= ii - 1 { j } else if j <= ki { j - 1 } else { j };
                    if i == ii {
                        // left element is the inserted block
                        if j <= ki {
                            if ii < j0 {
                                assert(pair_wf(es0[ii], es0[j0]));
                            }
                            assert(pair_wf(block, es0[ii]));
                        } else {
                            assert(pair_wf(block, es0[ii]));
                            if ii < j0 {
                                assert(pair_wf(es0[ii], es0[j0]));
                            }
                        }
                    } else if j == ii {
                        assert(pair_wf(es0[i0], block));
                    } else {
                        if i0 < j0 {
                            assert(pair_wf(es0[i0], es0[j0]));
                        }
                        if i0 == j0 {
                            assert(i <= ki && j > ki);
                            assert(pair_wf(es0[ki], es0[j0 + 1])) by {
                                assert(j0 + 1 <= es0.len() - 1);
                            }
                        }
                        // the pair around the absorbed placeholder
                        if i < ii && j > ki {
                            assert(pair_wf(es0[i0], es0[j0]));
                        }
                        if i > ii && i <= ki && j > ki {
                            assert(pair_wf(es0[i0], es0[j0]));
                        }
                    }
                }
                assert forall|i: int| 0 <= i < es1.len() implies block_in_segment(
                    es1[i],
                    self.seg_spec(),
                ) by {
                    let i0: int = if i <= ii - 1 { i } else if i <= ki { i - 1 } else { i };
                    if i != ii {
                        assert(block_in_segment(es0[i0], old(self).seg_spec()));
                    }
                }
                assert forall|i: int|
                    0 <= i < es1.len() && (#[trigger] es1[i]).spec_is_free() implies es1[i].end_spec()
                    <= self.buf_spec() || self.dir_end() <= es1[i].ptr by {
                    let i0: int = if i <= ii - 1 { i } else if i <= ki { i - 1 } else { i };
                    if i != ii {
                        assert(es0[i0].spec_is_free());
                    }
                }
                assert(self.wf());
                assert forall|a: int|
                    #![trigger self.covers(a)]
                    #![trigger old(self).covers(a)]
                    #![trigger block.spec_contains(a)]
                    self.covers(a) implies old(self).covers(a) || block.spec_contains(a) by {
                    let i = choose|i: int|
                        0 <= i < es1.len() && (#[trigger] es1[i]).spec_contains(a);
                    let i0: int = if i <= ii - 1 { i } else if i <= ki { i - 1 } else { i };
                    if i != ii {
                        assert(es0[i0].spec_contains(a));
                    }
                }
                assert forall|a: int|
                    #![trigger self.covers(a)]
                    #![trigger old(self).covers(a)]
                    #![trigger block.spec_contains(a)]
                    old(self).covers(a) || block.spec_contains(a) implies self.covers(a) by {
                    if old(self).covers(a) {
                        let i = choose|i: int|
                            0 <= i < es0.len() && (#[trigger] es0[i]).spec_contains(a);
                        if i < ii {
                            assert(es1[i].spec_contains(a));
                        } else if i < ki {
                            assert(es1[i + 1].spec_contains(a));
                        } else if i == ki {
                            assert(false);
                        } else {
                            assert(es1[i].spec_contains(a));
                        }
                    } else {
                        assert(es1[ii].spec_contains(a));
                    }
                }
                assert forall|i: int| 0 <= i < es1.len() implies ptr_rooted(
                    es0,
                    old(self).seg_spec(),
                    (#[trigger] es1[i]).ptr as int,
                ) || es1[i].ptr == block.ptr by {
                    let i0: int = if i <= ii - 1 { i } else if i <= ki { i - 1 } else { i };
                    if i != ii {
                        assert(es0[i0].ptr == es1[i].ptr);
                    }
                }
                assert(es1[ii].spec_is_free() && es1[ii].ptr <= block.ptr && block.end_spec()
                    <= es1[ii].end_spec());
            }
        } else {
            // no gap in sight: place the block through a fresh reservation
            proof {
                assert forall|j: int| 0 <= j < es0.len() implies !(block.ptr <= (
                #[trigger] es0[j]).ptr < block.end_spec()) by {
                    if j < ind {
                    } else {
                        assert(block.ptr < es0[j].ptr);
                        if ind < j {
                            assert(pair_wf(es0[ind as int], es0[j]));
                            assert(block.end_spec() <= es0[ind as int].ptr);
                        }
                    }
                }
                assert forall|j: int|
                    0 <= j < es0.len() implies !((#[trigger] es0[j]).spec_is_free()
                    && es0[j].end_spec() == block.ptr) by {
                    if j < ind - 1 {
                        assert(pair_wf(es0[j], es0[ind - 1]));
                    } else if j >= ind {
                        assert(block.ptr < es0[j].ptr);
                    }
                }
                assert forall|j: int|
                    0 <= j < es0.len() implies !((#[trigger] es0[j]).spec_is_free() && es0[j].ptr
                    == block.end_spec()) by {
                    if j < ind {
                        assert(es0[j].ptr < block.ptr);
                    } else if j > ind {
                        assert(pair_wf(es0[ind as int], es0[j]));
                        assert(block.end_spec() <= es0[ind as int].ptr);
                    }
                }
            }
            self.insert_slow(block);
            proof {
                assert forall|a: int| block.ptr <= a < block.end_spec() implies covers_seq(
                    self.blocks(),
                    a,
                ) by {
                    assert(block.spec_contains(a));
                    assert(self.covers(a));
                }
                crate::laws::lemma_coalesced_interval(
                    self.blocks(),
                    block.ptr as int,
                    block.end_spec(),
                );
                let jx = choose|jx: int|
                    0 <= jx < self.blocks().len() && (#[trigger] self.blocks()[jx]).ptr
                        <= block.ptr && block.end_spec() <= self.blocks()[jx].end_spec();
                assert(self.blocks()[jx].spec_is_free());
            }
        }
    }

    /// Place a free block that touches no entry: reserve one more slot, then
    /// put the block at its sort position.  The reservation may have appended
    /// a fresh stub right at the block's end, in which case the two merge.
    #[verifier::rlimit(100)]
    fn insert_slow(&mut self, block: Block)
        requires
            old(self).wf(),
            block.size >= 1,
            forall|j: int|
                0 <= j < old(self).len_spec() ==> (#[trigger] old(self).blocks()[j]).end_spec()
                    <= block.ptr || block.end_spec() <= old(self).blocks()[j].ptr,
            forall|j: int|
                0 <= j < old(self).len_spec() ==> !(block.ptr <= (#[trigger] old(self).blocks()[j]).ptr < block.end_spec()),
            forall|j: int|
                0 <= j < old(self).len_spec() ==> !((#[trigger] old(self).blocks()[j]).spec_is_free() && old(self).blocks()[j].end_spec() == block.ptr),
            forall|j: int|
                0 <= j < old(self).len_spec() ==> !((#[trigger] old(self).blocks()[j]).spec_is_free() && old(self).blocks()[j].ptr == block.end_spec()),
            block_in_segment(block, old(self).seg_spec()),
            block.end_spec() <= old(self).buf_spec() || old(self).dir_end() <= block.ptr,
            old(self).reserve_room(),
        ensures
            final(self).wf(),
            forall|a: int|
                #![trigger block.spec_contains(a)]
                #![trigger final(self).covers(a)]
                block.spec_contains(a) ==> final(self).covers(a),
            forall|a: int|
                #![trigger old(self).covers(a)]
                #![trigger final(self).covers(a)]
                old(self).covers(a) ==> final(self).covers(a) || final(self).in_dir(a),
            forall|a: int|
                #![trigger final(self).covers(a)]
                #![trigger old(self).covers(a)]
                final(self).covers(a) ==> old(self).covers(a) || block.spec_contains(a) || a >= old(self).seg_spec(),
            final(self).cap_spec() == old(self).cap_spec() ==> (forall|a: int|
                #![trigger final(self).covers(a)]
                #![trigger old(self).covers(a)]
                #![trigger block.spec_contains(a)]
                final(self).covers(a) <==> old(self).covers(a) || block.spec_contains(a)),
            final(self).cap_spec() == old(self).cap_spec() ==> final(self).seg_spec() == old(self).seg_spec(),
            old(self).cap_spec() <= final(self).cap_spec() <= old(self).cap_spec() + old(self).cap_spec() / 2 + 218,
            old(self).seg_spec() <= final(self).seg_spec(),
            mem_preserved(*old(self), *final(self)),
            final(self).brk_spec() <= old(self).brk_spec() + 48 * old(self).cap_spec() + 25000,
            forall|a: int|
                #![trigger final(self).in_dir(a)]
                #![trigger old(self).in_dir(a)]
                final(self).in_dir(a) ==> old(self).in_dir(a) || old(self).covers(a) || a >= old(self).seg_spec(),
            forall|i: int|
                0 <= i < final(self).blocks().len() ==> ptr_rooted(
                    old(self).blocks(),
                    old(self).seg_spec(),
                    (#[trigger] final(self).blocks()[i]).ptr as int,
                ) || final(self).blocks()[i].ptr == block.ptr,
            final(self).cap_spec() == old(self).cap_spec() ==> (forall|i: int|
                0 <= i < old(self).len_spec() && (#[trigger] old(self).blocks()[i]).ptr
                    < block.ptr ==> final(self).blocks()[i] == old(self).blocks()[i]),
            final(self).cap_spec() == old(self).cap_spec() ==> old(self).len_spec() <= final(self).len_spec(),
            final(self).len_spec() <= old(self).len_spec() + 3,
    {
        let ghost es0 = old(self).blocks();
        proof {
            assert forall|a: int| block.spec_contains(a) implies !old(self).covers(a) by {
                if old(self).covers(a) {
                    let j = choose|j: int|
                        0 <= j < es0.len() && (#[trigger] es0[j]).spec_contains(a);
                }
            }
        }
        let len0 = self.entries.len();
        self.reserve(len0 + 1);
        let ghost mid = *self;
        let ind2 = self.find(&block);
        proof {
            let esm = mid.blocks();
            assert forall|j: int| 0 <= j < esm.len() implies (#[trigger] esm[j]).ptr
                != block.ptr by {
                assert(ptr_rooted(es0, old(self).seg_spec(), esm[j].ptr as int));
                if covers_seq(es0, esm[j].ptr as int) {
                    let x = choose|x: int|
                        0 <= x < es0.len() && (#[trigger] es0[x]).spec_contains(
                            esm[j].ptr as int,
                        );
                    assert(es0[x].end_spec() <= block.ptr || block.end_spec() <= es0[x].ptr);
                } else if esm[j].ptr as int >= old(self).seg_spec() {
                } else {
                    let x = choose|x: int|
                        0 <= x < es0.len() && (#[trigger] es0[x]).ptr == esm[j].ptr;
                    assert(!(block.ptr <= es0[x].ptr < block.end_spec()));
                }
            }
            assert forall|j: int| 0 <= j < esm.len() implies !(block.ptr < (
            #[trigger] esm[j]).ptr < block.end_spec()) by {
                assert(ptr_rooted(es0, old(self).seg_spec(), esm[j].ptr as int));
                if covers_seq(es0, esm[j].ptr as int) {
                    let x = choose|x: int|
                        0 <= x < es0.len() && (#[trigger] es0[x]).spec_contains(
                            esm[j].ptr as int,
                        );
                    assert(es0[x].end_spec() <= block.ptr || block.end_spec() <= es0[x].ptr);
                } else if esm[j].ptr as int >= old(self).seg_spec() {
                } else {
                    let x = choose|x: int|
                        0 <= x < es0.len() && (#[trigger] es0[x]).ptr == esm[j].ptr;
                }
            }
            assert forall|a: int| block.spec_contains(a) implies !mid.covers(a) by {
                assert(a < old(self).seg_spec());
            }
            assert forall|a: int| block.spec_contains(a) implies !mid.in_dir(a) by {
                assert(a < old(self).seg_spec());
                assert(!old(self).covers(a));
                assert(!old(self).in_dir(a)) by {
                    assert(block.end_spec() <= old(self).buf_spec() || old(self).dir_end()
                        <= block.ptr);
                }
            }
            // position facts at ind2
            assert forall|j: int| 0 <= j < ind2 implies (#[trigger] esm[j]).end_spec()
                <= block.ptr && (esm[j].end_spec() == block.ptr ==> esm[j].size == 0) by {
                if esm[j].spec_is_free() {
                    if esm[j].end_spec() > block.ptr {
                        assert(esm[j].spec_contains(block.ptr as int));
                        assert(mid.covers(block.ptr as int));
                        assert(block.spec_contains(block.ptr as int));
                    }
                    if esm[j].end_spec() == block.ptr {
                        // a free mid entry ending at the block: its end
                        // is an old end or a fresh stub end above the
                        // old segment; both are excluded
                        assert(mid.covers(block.ptr - 1));
                        assert(old(self).covers(block.ptr - 1) || block.ptr - 1 >= old(self).seg_spec());
                        if old(self).covers(block.ptr - 1) {
                            let x = choose|x: int|
                                0 <= x < es0.len() && (#[trigger] es0[x]).spec_contains(
                                    block.ptr - 1,
                                );
                            assert(es0[x].end_spec() <= block.ptr || block.end_spec()
                                <= es0[x].ptr);
                            assert(es0[x].end_spec() == block.ptr);
                            assert(es0[x].spec_is_free());
                            assert(false);
                        } else {
                            assert(block.ptr - 1 >= old(self).seg_spec());
                            assert(block.ptr < old(self).seg_spec());
                            assert(false);
                        }
                    }
                }
            }
        }
        let lenm = self.entries.len();
        let mut placed = false;
        if ind2 < lenm {
            let e = self.entries[ind2];
            proof {
                assert(block_in_segment(mid.blocks()[ind2 as int], mid.seg_spec()));
            }
            if e.size != 0 && block.ptr + block.size == e.ptr {
                self.entries.set(
                    ind2,
                    Block { ptr: block.ptr, size: block.size + e.size },
                );
                placed = true;
                proof {
                    let esm = mid.blocks();
                    let es1 = self.blocks();
                    let ii = ind2 as int;
                    assert forall|i: int, j: int| 0 <= i < j < es1.len() implies pair_wf(
                        es1[i],
                        es1[j],
                    ) by {
                        assert(pair_wf(esm[i], esm[j]));
                        if j == ii {
                            assert(esm[i].end_spec() <= block.ptr && (esm[i].end_spec()
                                == block.ptr ==> esm[i].size == 0));
                            assert(esm[i].ptr < block.ptr);
                        }
                    }
                    assert forall|i: int| 0 <= i < es1.len() implies block_in_segment(
                        es1[i],
                        self.seg_spec(),
                    ) by {
                        assert(block_in_segment(esm[i], mid.seg_spec()));
                    }
                    assert forall|i: int|
                        0 <= i < es1.len() && (#[trigger] es1[i]).spec_is_free() implies es1[i].end_spec()
                        <= self.buf_spec() || self.dir_end() <= es1[i].ptr by {
                        if i != ii {
                            assert(esm[i].spec_is_free());
                        } else {
                            assert(esm[ii].spec_is_free());
                            assert(mid.buf_spec() < mid.dir_end()) by {
                                assert(mid.cap_spec() >= INITIAL_CAPACITY);
                            }
                            assert(!mid.in_dir(block.ptr as int));
                            assert(!block.spec_contains(mid.buf_spec())) by {
                                assert(mid.in_dir(mid.buf_spec()));
                            }
                            lemma_interval_avoids(
                                block.ptr as int,
                                block.size as int,
                                mid.buf_spec(),
                                mid.dir_end(),
                            );
                            if mid.dir_end() <= block.ptr {
                                assert(self.dir_end() <= es1[ii].ptr);
                            } else {
                                assert(block.end_spec() <= mid.buf_spec());
                                assert(esm[ii].ptr < mid.dir_end());
                                assert(esm[ii].end_spec() <= mid.buf_spec());
                                assert(es1[ii].end_spec() <= self.buf_spec());
                            }
                        }
                    }
                    assert(self.wf());
                    assert forall|a: int| self.covers(a) implies mid.covers(a)
                        || block.spec_contains(a) by {
                        let i = choose|i: int|
                            0 <= i < es1.len() && (#[trigger] es1[i]).spec_contains(a);
                        if i != ii {
                            assert(esm[i].spec_contains(a));
                        } else if a >= block.end_spec() {
                            assert(esm[ii].spec_contains(a));
                        }
                    }
                    assert forall|a: int|
                        mid.covers(a) || block.spec_contains(a) implies self.covers(a) by {
                        if mid.covers(a) {
                            let i = choose|i: int|
                                0 <= i < esm.len() && (#[trigger] esm[i]).spec_contains(a);
                            if i == ii {
                                assert(es1[ii].spec_contains(a));
                            } else {
                                assert(es1[i].spec_contains(a));
                            }
                        } else {
                            assert(es1[ii].spec_contains(a));
                        }
                    }
                    assert forall|i: int| 0 <= i < es1.len() implies ptr_rooted(
                        esm,
                        mid.seg_spec(),
                        (#[trigger] es1[i]).ptr as int,
                    ) || es1[i].ptr == block.ptr by {
                        if i != ii {
                            assert(esm[i].ptr == es1[i].ptr);
                        }
                    }
                }
            }
        }
        if !placed {
            proof {
                let esm = mid.blocks();
                assert forall|j: int| ind2 <= j < esm.len() implies block.end_spec() <= (
                #[trigger] esm[j]).ptr && pair_wf(block, esm[j]) by {
                    assert(block.ptr <= esm[j].ptr);
                    assert(esm[j].ptr != block.ptr);
                    assert(!(block.ptr < esm[j].ptr < block.end_spec()));
                    if esm[j].ptr == block.end_spec() && esm[j].size != 0 && j == ind2 {
                        assert(false);
                    }
                    if esm[j].ptr == block.end_spec() && esm[j].size != 0 && j > ind2 {
                        assert(pair_wf(esm[ind2 as int], esm[j]));
                        assert(block.end_spec() <= esm[ind2 as int].ptr);
                        assert(esm[ind2 as int].ptr < esm[j].ptr);
                        assert(false);
                    }
                }
            }
            self.entries.insert(ind2, block);
            proof {
                let esm = mid.blocks();
                let es1 = self.blocks();
                let ii = ind2 as int;
                assert forall|i: int, j: int| 0 <= i < j < es1.len() implies pair_wf(
                    es1[i],
                    es1[j],
                ) by {
                    let i0: int = if i < ii { i } else { i - 1 };
                    let j0: int = if j < ii { j } else { j - 1 };
                    if i == ii {
                        assert(pair_wf(block, esm[j0]));
                    } else if j == ii {
                        assert(esm[i0].end_spec() <= block.ptr && (esm[i0].end_spec()
                            == block.ptr ==> esm[i0].size == 0));
                        assert(esm[i0].ptr < block.ptr);
                    } else {
                        assert(pair_wf(esm[i0], esm[j0]));
                    }
                }
                assert forall|i: int| 0 <= i < es1.len() implies block_in_segment(
                    es1[i],
                    self.seg_spec(),
                ) by {
                    let i0: int = if i < ii { i } else { i - 1 };
                    if i != ii {
                        assert(block_in_segment(esm[i0], mid.seg_spec()));
                    } else {
                        assert(block_in_segment(block, old(self).seg_spec()));
                    }
                }
                assert forall|i: int|
                    0 <= i < es1.len() && (#[trigger] es1[i]).spec_is_free() implies es1[i].end_spec()
                    <= self.buf_spec() || self.dir_end() <= es1[i].ptr by {
                    let i0: int = if i < ii { i } else { i - 1 };
                    if i != ii {
                        assert(esm[i0].spec_is_free());
                    } else {
                        assert(mid.buf_spec() < mid.dir_end()) by {
                            assert(mid.cap_spec() >= INITIAL_CAPACITY);
                        }
                        assert(!mid.in_dir(block.ptr as int));
                        assert(!block.spec_contains(mid.buf_spec())) by {
                            assert(mid.in_dir(mid.buf_spec()));
                        }
                        lemma_interval_avoids(
                            block.ptr as int,
                            block.size as int,
                            mid.buf_spec(),
                            mid.dir_end(),
                        );
                    }
                }
                assert(self.len_spec() <= self.cap_spec());
                assert(self.wf());
                assert forall|a: int| self.covers(a) implies mid.covers(a)
                    || block.spec_contains(a) by {
                    let i = choose|i: int|
                        0 <= i < es1.len() && (#[trigger] es1[i]).spec_contains(a);
                    let i0: int = if i < ii { i } else { i - 1 };
                    if i != ii {
                        assert(esm[i0].spec_contains(a));
                    }
                }
                assert forall|a: int|
                    mid.covers(a) || block.spec_contains(a) implies self.covers(a) by {
                    if mid.covers(a) {
                        let i = choose|i: int|
                            0 <= i < esm.len() && (#[trigger] esm[i]).spec_contains(a);
                        if i < ii {
                            assert(es1[i].spec_contains(a));
                        } else {
                            assert(es1[i + 1].spec_contains(a));
                        }
                    } else {
                        assert(es1[ii].spec_contains(a));
                    }
                }
                assert forall|i: int| 0 <= i < es1.len() implies ptr_rooted(
                    esm,
                    mid.seg_spec(),
                    (#[trigger] es1[i]).ptr as int,
                ) || es1[i].ptr == block.ptr by {
                    let i0: int = if i < ii { i } else { i - 1 };
                    if i != ii {
                        assert(esm[i0].ptr == es1[i].ptr);
                    }
                }
            }
        }
        proof {
            // compose the reservation's clauses with the placement
            let esm = mid.blocks();
            assert forall|a: int| old(self).covers(a) implies self.covers(a) || self.in_dir(
                a,
            ) by {
                if mid.covers(a) {
                    assert(self.covers(a));
                } else {
                    assert(mid.in_dir(a));
                    assert(self.in_dir(a));
                }
            }
            assert forall|a: int| self.covers(a) implies old(self).covers(a)
                || block.spec_contains(a) || a >= old(self).seg_spec() by {
                if mid.covers(a) {
                    assert(old(self).covers(a) || a >= old(self).seg_spec());
                }
            }
            assert forall|a: int| self.in_dir(a) implies old(self).in_dir(a) || old(self).covers(a) || a >= old(self).seg_spec() by {
                assert(mid.in_dir(a) ==> old(self).in_dir(a) || old(self).covers(a) || a
                    >= old(self).seg_spec());
            }
            assert forall|i: int| 0 <= i < self.blocks().len() implies ptr_rooted(
                es0,
                old(self).seg_spec(),
                (#[trigger] self.blocks()[i]).ptr as int,
            ) || self.blocks()[i].ptr == block.ptr by {
                let p = self.blocks()[i].ptr as int;
                if p != block.ptr {
                    assert(ptr_rooted(esm, mid.seg_spec(), p) || self.blocks()[i].ptr
                        == block.ptr);
                    if covers_seq(esm, p) {
                        assert(old(self).covers(p) || p >= old(self).seg_spec());
                    } else if p >= mid.seg_spec() {
                        assert(p >= old(self).seg_spec());
                    } else if ptr_among(esm, p) {
                        let j = choose|j: int|
                            0 <= j < esm.len() && (#[trigger] esm[j]).ptr == p;
                        assert(ptr_rooted(es0, old(self).seg_spec(), esm[j].ptr as int));
                    }
                }
            }
        }
    }

    /// Enough address space is left that one fresh allocation, directory
    /// reservation included, cannot overflow the break.
    pub open spec fn alloc_room(self, size: int, align: int) -> bool {
        self.brk_spec() + size + align + 48 * self.cap_spec() + 64000 <= usize::MAX
    }

    /// Carve a fresh allocation out of a break request: the alignment
    /// pre-stub and the excess tail are recorded as free, and the aligned
    /// region between them is handed out.  The caller has already reserved
    /// directory capacity for the two stubs.
    fn brk_fresh(&mut self, size: usize, align: usize) -> (r: usize)
        requires
            old(self).wf(),
            old(self).cap_spec() > 0,
            old(self).len_spec() + 2 <= old(self).cap_spec(),
            1 <= align,
            old(self).brk_spec() + size + BRK_MIN_EXTRA + BRK_MIN + align <= usize::MAX,
        ensures
            final(self).wf(),
            r as int % align as int == 0,
            r == old(self).seg_spec() + spec_aligner(old(self).seg_spec(), align as int),
            r + size <= final(self).seg_spec(),
            final(self).seg_spec() == old(self).seg_spec() + spec_aligner(
                old(self).seg_spec(),
                align as int,
            ) + spec_canonicalize_brk(size as int),
            final(self).cap_spec() == old(self).cap_spec(),
            final(self).buf_spec() == old(self).buf_spec(),
            old(self).seg_spec() <= final(self).seg_spec(),
            final(self).len_spec() <= old(self).len_spec() + 2,
            old(self).len_spec() <= final(self).len_spec(),
            forall|i: int|
                0 <= i < old(self).len_spec() - 1 ==> final(self).blocks()[i] == old(self).blocks()[i],
            mem_preserved(*old(self), *final(self)),
            final(self).brk_spec() <= old(self).brk_spec() + size + align + BRK_MIN_EXTRA
                + BRK_MIN,
            forall|a: int|
                #![trigger final(self).covers(a)]
                #![trigger old(self).covers(a)]
                final(self).covers(a) <==> old(self).covers(a) || (old(self).seg_spec() <= a < r)
                    || (r + size <= a < final(self).seg_spec()),
            ptrs_rooted(*old(self), *final(self)),
            forall|i: int|
                0 <= i < final(self).blocks().len() ==> ptr_among(
                    old(self).blocks(),
                    (#[trigger] final(self).blocks()[i]).ptr as int,
                ) || (final(self).blocks()[i].ptr == old(self).seg_spec() && (old(self).seg_spec()
                    < r || size == 0)) || final(self).blocks()[i].ptr == r + size,
    {
        let ghost pre = *self;
        let al = aligner(self.seg_end, align);
        let can = canonicalize_brk(size);
        let raw = self.heap.inc_brk(can + al);
        self.seg_end = raw + can + al;
        let res = raw + al;
        proof {
            assert(raw == pre.seg_spec());
            assert forall|i: int| 0 <= i < self.blocks().len() implies block_in_segment(
                #[trigger] self.blocks()[i],
                self.seg_spec(),
            ) && self.blocks()[i].ptr < raw && self.blocks()[i].end_spec() <= raw by {
                assert(block_in_segment(pre.blocks()[i], pre.seg_spec()));
            }
            assert(self.dir_end() <= raw);
        }
        let ghost mid = *self;
        if size == 0 {
            self.append_free(raw, al + can);
        } else {
            if al != 0 {
                self.append_free(raw, al);
            }
            let ghost mid2 = *self;
            proof {
                assert forall|i: int| 0 <= i < self.blocks().len() implies (
                #[trigger] self.blocks()[i]).ptr < res + size && self.blocks()[i].end_spec() <= res
                    by {
                    if !(al != 0 && self.blocks()[i].ptr == raw) {
                        assert(ptr_among(mid.blocks(), self.blocks()[i].ptr as int)
                            || self.blocks()[i].ptr == raw);
                    }
                    if self.blocks()[i].spec_is_free() {
                        assert(self.covers(self.blocks()[i].end_spec() - 1));
                        assert(mid.covers(self.blocks()[i].end_spec() - 1) || (raw
                            <= self.blocks()[i].end_spec() - 1 < res));
                    }
                }
            }
            self.append_free(res + size, can - size);
            proof {
                assert forall|a: int| self.covers(a) implies mid.covers(a) || (raw <= a < res) || (
                res + size <= a < self.seg_spec()) by {
                    if al != 0 {
                        assert(mid2.covers(a) || (res + size <= a < self.seg_spec()));
                    }
                }
                assert forall|a: int|
                    mid.covers(a) || (raw <= a < res) || (res + size <= a
                        < self.seg_spec()) implies self.covers(a) by {
                    if mid.covers(a) {
                        if al != 0 {
                            assert(mid2.covers(a));
                        }
                    } else if raw <= a < res {
                        assert(al != 0);
                        assert(mid2.covers(a));
                    }
                }
            }
        }
        proof {
            assert forall|i: int| 0 <= i < self.blocks().len() implies ptr_rooted(
                pre.blocks(),
                pre.seg_spec(),
                (#[trigger] self.blocks()[i]).ptr as int,
            ) && (ptr_among(pre.blocks(), (#[trigger] self.blocks()[i]).ptr as int) || (
            self.blocks()[i].ptr == pre.seg_spec() && (pre.seg_spec() < res || size == 0))
                || self.blocks()[i].ptr == res + size) by {
                let p = self.blocks()[i].ptr as int;
                if !ptr_among(pre.blocks(), p) {
                    assert(p == raw || p == res + size);
                    if p == raw && size != 0 {
                        assert(al != 0);
                    }
                }
            }
        }
        res
    }

    /// Allocate fresh space through a break request, reserving directory
    /// capacity for the stubs first.
    fn alloc_fresh(&mut self, size: usize, align: usize) -> (r: usize)
        requires
            old(self).wf(),
            1 <= align,
            old(self).alloc_room(size as int, align as int),
        ensures
            final(self).wf(),
            r as int % align as int == 0,
            HEAP_BASE <= r,
            r + size <= final(self).seg_spec(),
            old(self).seg_spec() <= r + align,
            old(self).seg_spec() <= final(self).seg_spec(),
            old(self).cap_spec() <= final(self).cap_spec() <= old(self).cap_spec() + old(self).cap_spec() / 2 + 218,
            INITIAL_CAPACITY <= final(self).cap_spec(),
            mem_preserved(*old(self), *final(self)),
            final(self).brk_spec() <= old(self).brk_spec() + 48 * old(self).cap_spec() + size
                + align + 36000,
            final(self).cap_spec() == old(self).cap_spec() ==> r == old(self).seg_spec()
                + spec_aligner(old(self).seg_spec(), align as int),
            final(self).cap_spec() == old(self).cap_spec() ==> final(self).seg_spec() == old(self).seg_spec() + spec_aligner(old(self).seg_spec(), align as int)
                + spec_canonicalize_brk(size as int),
            forall|a: int|
                #![trigger final(self).covers(a)]
                r <= a < r + size ==> !final(self).covers(a),
            forall|a: int|
                #![trigger old(self).covers(a)]
                r <= a < r + size ==> old(self).covers(a) || a >= old(self).seg_spec(),
            forall|a: int|
                #![trigger final(self).covers(a)]
                #![trigger old(self).covers(a)]
                final(self).covers(a) ==> old(self).covers(a) || old(self).seg_spec() <= a,
            forall|a: int|
                #![trigger old(self).covers(a)]
                #![trigger final(self).covers(a)]
                old(self).covers(a) ==> final(self).covers(a) || final(self).in_dir(a),
            final(self).cap_spec() == old(self).cap_spec() ==> (forall|a: int|
                #![trigger final(self).covers(a)]
                #![trigger old(self).covers(a)]
                (final(self).covers(a) || (r <= a < r + size)) <==> (old(self).covers(a) || (old(self).seg_spec() <= a < final(self).seg_spec()))),
            forall|a: int|
                #![trigger final(self).in_dir(a)]
                #![trigger old(self).in_dir(a)]
                final(self).in_dir(a) ==> old(self).in_dir(a) || old(self).covers(a) || a >= old(self).seg_spec(),
            ptrs_rooted(*old(self), *final(self)),
            forall|i: int|
                0 <= i < final(self).blocks().len() ==> !(r < (#[trigger] final(self).blocks()[i]).ptr < r + size),
            forall|a: int| r <= a < r + size ==> !final(self).in_dir(a),
            final(self).len_spec() <= old(self).len_spec() + 4,
    {
        let ghost pre = *self;
        let len0 = self.entries.len();
        self.reserve(len0 + 2);
        let ghost mid = *self;
        let r = self.brk_fresh(size, align);
        proof {
            assert forall|a: int| r <= a < r + size implies !self.covers(a) by {
                if self.covers(a) {
                    if mid.covers(a) {
                        let i = choose|i: int|
                            0 <= i < mid.blocks().len() && (#[trigger] mid.blocks()[i]).spec_contains(
                                a,
                            );
                        assert(block_in_segment(mid.blocks()[i], mid.seg_spec()));
                    }
                }
            }
            assert forall|a: int| self.covers(a) implies pre.covers(a) || pre.seg_spec() <= a by {
                if mid.covers(a) {
                }
            }
            assert forall|a: int| pre.covers(a) implies self.covers(a) || self.in_dir(a) by {
                if mid.covers(a) {
                    assert(self.covers(a));
                } else {
                    assert(mid.in_dir(a));
                }
            }
            if self.cap_spec() == pre.cap_spec() {
                assert(mid == pre);
                assert forall|a: int|
                    (self.covers(a) || (r <= a < r + size)) implies (pre.covers(a) || (
                    pre.seg_spec() <= a < self.seg_spec())) by {}
                assert forall|a: int|
                    (pre.covers(a) || (pre.seg_spec() <= a < self.seg_spec())) implies (self.covers(
                        a,
                    ) || (r <= a < r + size)) by {
                    if pre.covers(a) {
                        assert(mid.covers(a));
                    }
                }
            }
            assert forall|i: int| 0 <= i < self.blocks().len() implies ptr_rooted(
                pre.blocks(),
                pre.seg_spec(),
                (#[trigger] self.blocks()[i]).ptr as int,
            ) by {
                let p = self.blocks()[i].ptr as int;
                assert(ptr_rooted(mid.blocks(), mid.seg_spec(), p));
                if covers_seq(mid.blocks(), p) {
                    assert(pre.covers(p) || p >= pre.seg_spec());
                } else if p >= mid.seg_spec() {
                } else if ptr_among(mid.blocks(), p) {
                    let j = choose|j: int|
                        0 <= j < mid.blocks().len() && (#[trigger] mid.blocks()[j]).ptr == p;
                    assert(ptr_rooted(pre.blocks(), pre.seg_spec(), mid.blocks()[j].ptr as int));
                }
            }
            assert forall|i: int| 0 <= i < self.blocks().len() implies !(r < (
            #[trigger] self.blocks()[i]).ptr < r + size) by {
                let p = self.blocks()[i].ptr as int;
                if ptr_among(mid.blocks(), p) {
                    let j = choose|j: int|
                        0 <= j < mid.blocks().len() && (#[trigger] mid.blocks()[j]).ptr == p;
                    assert(block_in_segment(mid.blocks()[j], mid.seg_spec()));
                    assert(p < mid.seg_spec());
                    assert(mid.seg_spec() <= r);
                } else {
                    assert((p == mid.seg_spec() && (mid.seg_spec() < r as int || size == 0)) || p
                        == r + size);
                }
            }
            assert forall|a: int| r <= a < r + size implies !self.in_dir(a) by {
                if self.in_dir(a) {
                    assert(mid.in_dir(a));
                    assert(mid.dir_end() <= mid.seg_spec());
                    assert(mid.seg_spec() <= r);
                }
            }
        }
        r
    }

    /// Allocate `size` bytes aligned to `align`.  Free entries are scanned
    /// right to left (fresh blocks gather at the high end); the chosen entry
    /// is carved into an alignment pre-stub, the returned region, and a free
    /// tail.  When nothing fits, fresh space is broken from the kernel.
    #[verifier::rlimit(100)]
    fn allocate(&mut self, size: usize, align: usize) -> (r: usize)
        requires
            old(self).wf(),
            1 <= align,
            old(self).alloc_room(size as int, align as int),
        ensures
            final(self).wf(),
            r as int % align as int == 0,
            HEAP_BASE <= r,
            r + size <= final(self).seg_spec(),
            old(self).seg_spec() <= final(self).seg_spec(),
            old(self).cap_spec() <= final(self).cap_spec() <= old(self).cap_spec() + old(self).cap_spec() / 2 + 218,
            mem_preserved(*old(self), *final(self)),
            final(self).brk_spec() <= old(self).brk_spec() + 48 * old(self).cap_spec() + size
                + align + 36000,
            forall|a: int|
                #![trigger final(self).covers(a)]
                r <= a < r + size ==> !final(self).covers(a),
            forall|a: int|
                #![trigger old(self).covers(a)]
                r <= a < r + size ==> old(self).covers(a) || a >= old(self).seg_spec(),
            forall|a: int|
                #![trigger final(self).covers(a)]
                #![trigger old(self).covers(a)]
                final(self).covers(a) ==> (old(self).covers(a) || old(self).seg_spec() <= a) && !(r
                    <= a < r + size),
            forall|a: int|
                #![trigger old(self).covers(a)]
                #![trigger final(self).covers(a)]
                old(self).covers(a) && !(r <= a < r + size) ==> final(self).covers(a) || final(self).in_dir(a),
            final(self).cap_spec() == old(self).cap_spec() ==> (forall|a: int|
                #![trigger final(self).covers(a)]
                #![trigger old(self).covers(a)]
                (final(self).covers(a) || (r <= a < r + size)) <==> (old(self).covers(a) || (old(self).seg_spec() <= a < final(self).seg_spec()))),
            forall|a: int|
                #![trigger final(self).in_dir(a)]
                #![trigger old(self).in_dir(a)]
                final(self).in_dir(a) ==> old(self).in_dir(a) || old(self).covers(a) || a >= old(self).seg_spec(),
            ptrs_rooted(*old(self), *final(self)),
            size >= 1 ==> final(self).valid_free_block(Block { ptr: r, size }),
            forall|b: Block|
                #![trigger old(self).valid_free_block(b)]
                size >= 1 && old(self).valid_free_block(b) ==> b.ptr + b.size <= r || r + size
                    <= b.ptr,
            forall|b: Block|
                #![trigger old(self).valid_free_block(b)]
                #![trigger final(self).valid_free_block(b)]
                old(self).valid_free_block(b) ==> final(self).valid_free_block(b),
            (exists|j: int|
                0 <= j < old(self).len_spec() && entry_fits(
                    #[trigger] old(self).blocks()[j],
                    size as int,
                    align as int,
                )) ==> (exists|j: int|
                0 <= j < old(self).len_spec() && entry_fits(
                    #[trigger] old(self).blocks()[j],
                    size as int,
                    align as int,
                ) && (forall|k: int|
                    j < k < old(self).len_spec() ==> !entry_fits(
                        #[trigger] old(self).blocks()[k],
                        size as int,
                        align as int,
                    )) && r == old(self).blocks()[j].ptr + spec_aligner(
                    old(self).blocks()[j].ptr as int,
                    align as int,
                )),
            (exists|j: int|
                0 <= j < old(self).len_spec() && entry_fits(
                    #[trigger] old(self).blocks()[j],
                    size as int,
                    align as int,
                )) && final(self).cap_spec() == old(self).cap_spec() ==> final(self).brk_spec()
                == old(self).brk_spec() && final(self).seg_spec() == old(self).seg_spec(),
            size >= 1 && (exists|j: int|
                0 <= j < old(self).len_spec() && entry_fits(
                    #[trigger] old(self).blocks()[j],
                    size as int,
                    align as int,
                )) && final(self).cap_spec() == old(self).cap_spec() ==> (exists|j: int|
                0 <= j < old(self).len_spec() && entry_fits(
                    #[trigger] old(self).blocks()[j],
                    size as int,
                    align as int,
                ) && (forall|k: int|
                    j < k < old(self).len_spec() ==> !entry_fits(
                        #[trigger] old(self).blocks()[k],
                        size as int,
                        align as int,
                    )) && j < final(self).len_spec() && final(self).blocks()[j] == (Block {
                    ptr: old(self).blocks()[j].ptr,
                    size: spec_aligner(old(self).blocks()[j].ptr as int, align as int) as usize,
                })),
            !(exists|j: int|
                0 <= j < old(self).len_spec() && entry_fits(
                    #[trigger] old(self).blocks()[j],
                    size as int,
                    align as int,
                )) && final(self).cap_spec() == old(self).cap_spec() ==> r == old(self).seg_spec()
                + spec_aligner(old(self).seg_spec(), align as int) && final(self).seg_spec()
                == old(self).seg_spec() + spec_aligner(old(self).seg_spec(), align as int)
                + spec_canonicalize_brk(size as int),
            final(self).len_spec() <= old(self).len_spec() + 4,
    {
        let ghost pre = *self;
        // scan right to left for a fitting free entry
        let mut n = self.entries.len();
        let mut fit: usize = 0;
        let mut fit_al: usize = 0;
        let mut found = false;
        while n > 0 && !found
            invariant
                *self == pre,
                pre.wf(),
                n <= pre.len_spec(),
                1 <= align,
                found ==> fit < pre.len_spec() && pre.blocks()[fit as int].size > 0 && fit_al
                    == spec_aligner(pre.blocks()[fit as int].ptr as int, align as int) && fit_al
                    <= pre.blocks()[fit as int].size && size <= pre.blocks()[fit as int].size
                    - fit_al && (pre.blocks()[fit as int].ptr + fit_al) % (align as int) == 0,
                found ==> entry_fits(pre.blocks()[fit as int], size as int, align as int) && (
                forall|k: int|
                    fit < k < pre.len_spec() ==> !entry_fits(
                        #[trigger] pre.blocks()[k],
                        size as int,
                        align as int,
                    )),
                !found ==> (forall|k: int|
                    n <= k < pre.len_spec() ==> !entry_fits(
                        #[trigger] pre.blocks()[k],
                        size as int,
                        align as int,
                    )),
            decreases n,
        {
            n = n - 1;
            let e = self.entries[n];
            if e.size != 0 {
                let al = aligner(e.ptr, align);
                if al <= e.size && size <= e.size - al {
                    fit = n;
                    fit_al = al;
                    found = true;
                }
            }
        }
        if found {
            let ind = fit;
            let al = fit_al;
            let e = self.entries[ind];
            let ghost es0 = pre.blocks();
            proof {
                assert(block_in_segment(es0[ind as int], pre.seg_spec()));
            }
            let res = e.ptr + al;
            if size == 0 {
                // nothing is taken: leave the directory untouched
                return res;
            }
            // carve: the entry keeps only the alignment pre-stub; with no
            // pre-stub it becomes an occupied placeholder, address preserved
            if al == 0 {
                self.entries.set(ind, Block { ptr: e.ptr, size: 0 });
            } else {
                self.entries.set(ind, Block { ptr: e.ptr, size: al });
            }
            let ghost mid = *self;
            let ghost removed_lo: int = res as int;
            let ghost removed_hi: int = e.end_spec();
            proof {
                let es1 = mid.blocks();
                let ii = ind as int;
                assert forall|i: int, j: int| 0 <= i < j < es1.len() implies pair_wf(
                    es1[i],
                    es1[j],
                ) by {
                    if i == ii || j == ii {
                        assert(pair_wf(es0[i], es0[j]));
                    } else {
                        assert(pair_wf(es0[i], es0[j]));
                    }
                }
                assert forall|i: int| 0 <= i < es1.len() implies block_in_segment(
                    es1[i],
                    mid.seg_spec(),
                ) by {
                    assert(block_in_segment(es0[i], pre.seg_spec()));
                }
                assert forall|i: int|
                    0 <= i < es1.len() && (#[trigger] es1[i]).spec_is_free() implies es1[i].end_spec()
                    <= mid.buf_spec() || mid.dir_end() <= es1[i].ptr by {
                    if i == ii {
                        assert(es0[ii].spec_is_free());
                        assert(es0[ii].end_spec() <= pre.buf_spec() || pre.dir_end()
                            <= es0[ii].ptr);
                    } else {
                        assert(es0[i].spec_is_free());
                    }
                }
                assert(mid.wf());
                assert forall|a: int|
                    #![trigger mid.covers(a)]
                    #![trigger pre.covers(a)]
                    mid.covers(a) <==> pre.covers(a) && !(removed_lo <= a < removed_hi) by {
                    if mid.covers(a) {
                        let i = choose|i: int|
                            0 <= i < es1.len() && (#[trigger] es1[i]).spec_contains(a);
                        if i != ii {
                            assert(es0[i].spec_contains(a));
                            assert(pair_wf(es0[if i < ii {
                                i
                            } else {
                                ii
                            }], es0[if i < ii {
                                ii
                            } else {
                                i
                            }]));
                        } else {
                            assert(es0[ii].spec_contains(a));
                        }
                    }
                    if pre.covers(a) && !(removed_lo <= a < removed_hi) {
                        let i = choose|i: int|
                            0 <= i < es0.len() && (#[trigger] es0[i]).spec_contains(a);
                        if i == ii {
                            assert(es1[ii].spec_contains(a));
                        } else {
                            assert(es1[i].spec_contains(a));
                        }
                    }
                }
            }
            if al + size < e.size {
                // record the tail beyond the allocation as free
                let tail = Block { ptr: res + size, size: e.size - al - size };
                proof {
                    let es1 = mid.blocks();
                    let ii = ind as int;
                    assert forall|j: int| 0 <= j < ind + 1 implies (#[trigger] es1[j]).ptr
                        < tail.ptr by {
                        if j < ii {
                            assert(pair_wf(es1[j], es1[ii]));
                        }
                    }
                    assert(pair_wf(es1[ii], tail));
                    if ind + 1 < mid.len_spec() {
                        assert(pair_wf(es0[ii], es0[ii + 1]));
                        assert(pair_wf(tail, es1[ii + 1]));
                    }
                    assert forall|j: int| ind + 1 <= j < mid.len_spec() implies tail.ptr < (
                    #[trigger] es1[j]).ptr by {
                        if ind + 1 < j {
                            assert(pair_wf(es1[ii + 1], es1[j]));
                        }
                    }
                    assert(block_in_segment(tail, mid.seg_spec()));
                    assert(es0[ii].end_spec() <= pre.buf_spec() || pre.dir_end() <= es0[ii].ptr);
                    assert(tail.end_spec() <= mid.buf_spec() || mid.dir_end() <= tail.ptr);
                }
                self.insert(ind + 1, tail);
                proof {
                    assert forall|a: int| tail.spec_contains(a) implies pre.covers(a) && !(res
                        <= a < res + size) by {
                        assert(es0[ind as int].spec_contains(a));
                    }
                }
            }
            proof {
                // relate the final state to the original one
                assert forall|a: int| res <= a < res + size implies pre.covers(a) by {
                    assert(es0[fit as int].spec_contains(a));
                }
                assert forall|a: int| res <= a < res + size implies !self.covers(a) by {
                    if self.covers(a) {
                        assert(mid.covers(a) || tail_region(al, res as int, size as int, e, a)
                            || a >= mid.seg_spec());
                        assert(a < mid.seg_spec());
                    }
                }
                assert forall|a: int| self.covers(a) implies (pre.covers(a) || pre.seg_spec()
                    <= a) && !(res <= a < res + size) by {
                    if mid.covers(a) {
                    } else if tail_region(al, res as int, size as int, e, a) {
                        assert(es0[fit as int].spec_contains(a));
                    }
                }
                assert forall|a: int|
                    pre.covers(a) && !(res <= a < res + size) implies self.covers(a) || self.in_dir(
                    a,
                ) by {
                    if !(removed_lo <= a < removed_hi) {
                        assert(mid.covers(a));
                    } else {
                        assert(tail_region(al, res as int, size as int, e, a));
                        assert(self.covers(a));
                    }
                }
                if self.cap_spec() == pre.cap_spec() {
                    assert(self.seg_spec() == pre.seg_spec());
                    assert forall|a: int|
                        (self.covers(a) || (res <= a < res + size)) implies (pre.covers(a) || (
                        pre.seg_spec() <= a < self.seg_spec())) by {}
                    assert forall|a: int|
                        (pre.covers(a) || (pre.seg_spec() <= a < self.seg_spec())) implies (self
                            .covers(a) || (res <= a < res + size)) by {
                        if pre.covers(a) && !(res <= a < res + size) {
                            assert(self.covers(a) || self.in_dir(a));
                            if self.in_dir(a) {
                                assert(pre.in_dir(a) || pre.covers(a) || a >= pre.seg_spec());
                                assert(pre.in_dir(a));
                                let i = choose|i: int|
                                    0 <= i < es0.len() && (#[trigger] es0[i]).spec_contains(a);
                                assert(es0[i].end_spec() <= pre.buf_spec() || pre.dir_end()
                                    <= es0[i].ptr);
                                assert(false);
                            }
                        }
                    }
                }
                assert forall|a: int| self.in_dir(a) implies pre.in_dir(a) || pre.covers(a) || a
                    >= pre.seg_spec() by {
                    assert(mid.buf_spec() == pre.buf_spec() && mid.cap_spec() == pre.cap_spec());
                    if mid.in_dir(a) {
                        assert(pre.in_dir(a));
                    } else if mid.covers(a) {
                        assert(pre.covers(a));
                    }
                }
                assert forall|i: int| 0 <= i < self.blocks().len() implies ptr_rooted(
                    es0,
                    pre.seg_spec(),
                    (#[trigger] self.blocks()[i]).ptr as int,
                ) by {
                    let p = self.blocks()[i].ptr as int;
                    assert(ptr_rooted(mid.blocks(), mid.seg_spec(), p) || p == res + size);
                    if p == res + size && al + size < e.size {
                        assert(es0[fit as int].spec_contains(p));
                    } else if covers_seq(mid.blocks(), p) {
                        assert(pre.covers(p) || !(removed_lo <= p < removed_hi));
                    } else if p >= mid.seg_spec() {
                    } else if ptr_among(mid.blocks(), p) {
                        let j = choose|j: int|
                            0 <= j < mid.blocks().len() && (#[trigger] mid.blocks()[j]).ptr == p;
                        if j == fit {
                            assert(es0[fit as int].ptr == p);
                        } else {
                            assert(es0[j].ptr == mid.blocks()[j].ptr);
                        }
                    }
                }
                // the returned region is itself a block `free` will accept
                assert forall|i: int| 0 <= i < self.blocks().len() implies !(res < (
                #[trigger] self.blocks()[i]).ptr < res + size) by {
                    let p = self.blocks()[i].ptr as int;
                    assert(ptr_rooted(mid.blocks(), mid.seg_spec(), p) || p == res + size);
                    if res < p < res + size {
                        if covers_seq(mid.blocks(), p) {
                            assert(mid.covers(p));
                            assert(!(removed_lo <= p < removed_hi));
                            assert(false);
                        } else if p >= mid.seg_spec() {
                            assert(block_in_segment(es0[fit as int], pre.seg_spec()));
                            assert(false);
                        } else if ptr_among(mid.blocks(), p) {
                            let j = choose|j: int|
                                0 <= j < mid.blocks().len() && (#[trigger] mid.blocks()[j]).ptr
                                    == p;
                            if j == fit {
                                assert(false);
                            } else {
                                assert(es0[j].ptr == p);
                                if j < fit {
                                    assert(pair_wf(es0[j], es0[fit as int]));
                                } else {
                                    assert(pair_wf(es0[fit as int], es0[j]));
                                }
                                assert(false);
                            }
                        }
                    }
                }
                assert forall|a: int| res <= a < res + size implies !self.in_dir(a) by {
                    if self.in_dir(a) {
                        assert(mid.in_dir(a) || mid.covers(a) || a >= mid.seg_spec());
                        if mid.in_dir(a) {
                            assert(pre.in_dir(a));
                            assert(es0[fit as int].spec_is_free());
                            assert(es0[fit as int].end_spec() <= pre.buf_spec() || pre.dir_end()
                                <= es0[fit as int].ptr);
                            assert(es0[fit as int].spec_contains(a));
                            assert(false);
                        } else if mid.covers(a) {
                            assert(!(removed_lo <= a < removed_hi));
                            assert(false);
                        } else {
                            assert(block_in_segment(es0[fit as int], pre.seg_spec()));
                            assert(false);
                        }
                    }
                }
                if size >= 1 {
                    assert(self.valid_free_block(Block { ptr: res, size }));
                }
                assert forall|b: Block| pre.valid_free_block(b) implies (size >= 1 ==> b.ptr
                    + b.size <= res || res + size <= b.ptr) && self.valid_free_block(b) by {
                    if size >= 1 && res < b.ptr + b.size && res + size > b.ptr {
                        let aov: int = if res as int >= b.ptr {
                            res as int
                        } else {
                            b.ptr as int
                        };
                        assert(res <= aov < res + size);
                        assert(b.spec_contains(aov));
                        assert(pre.covers(aov) || aov >= pre.seg_spec());
                        assert(false);
                    }
                    lemma_valid_block_preserved(pre, *self, b);
                }
            }
            res
        } else {
            let r = self.alloc_fresh(size, align);
            proof {
                if size >= 1 {
                    assert(self.valid_free_block(Block { ptr: r, size }));
                }
                assert forall|b: Block| pre.valid_free_block(b) implies (size >= 1 ==> b.ptr
                    + b.size <= r || r + size <= b.ptr) && self.valid_free_block(b) by {
                    if size >= 1 && r < b.ptr + b.size && r + size > b.ptr {
                        let aov: int = if r as int >= b.ptr {
                            r as int
                        } else {
                            b.ptr as int
                        };
                        assert(r <= aov < r + size);
                        assert(b.spec_contains(aov));
                        assert(pre.covers(aov) || aov >= pre.seg_spec());
                        assert(false);
                    }
                    lemma_valid_block_preserved(pre, *self, b);
                }
            }
            r
        }
    }

    /// A block may be handed back only if it is exactly a region the
    /// allocator gave out and still owns nothing of: it lies inside the
    /// segment, covers no free byte, splits no entry, and avoids the
    /// directory's own buffer.
    pub open spec fn valid_free_block(self, block: Block) -> bool {
        &&& block.size >= 1
        &&& HEAP_BASE <= block.ptr
        &&& block.end_spec() <= self.seg_spec()
        &&& forall|a: int| #![trigger self.covers(a)] block.spec_contains(a) ==> !self.covers(a)
        &&& forall|j: int|
            0 <= j < self.len_spec() ==> !(block.ptr < (#[trigger] self.blocks()[j]).ptr
                < block.end_spec())
        &&& forall|a: int| #![trigger self.in_dir(a)] block.spec_contains(a) ==> !self.in_dir(a)
    }

    /// Free the block whose sort position is `ind`: merge it with its free
    /// neighbors on both sides where they touch, reuse an occupied
    /// placeholder standing at its address, and insert it otherwise.
    #[verifier::rlimit(100)]
    fn free_ind(&mut self, ind: usize, block: Block)
        requires
            old(self).wf(),
            old(self).valid_free_block(block),
            ind <= old(self).len_spec(),
            forall|j: int| 0 <= j < ind ==> (#[trigger] old(self).blocks()[j]).ptr < block.ptr,
            forall|j: int|
                ind <= j < old(self).len_spec() ==> block.ptr <= (#[trigger] old(self).blocks()[j]).ptr,
            old(self).reserve_room(),
        ensures
            final(self).wf(),
            forall|a: int|
                #![trigger block.spec_contains(a)]
                #![trigger final(self).covers(a)]
                block.spec_contains(a) ==> final(self).covers(a),
            forall|a: int|
                #![trigger old(self).covers(a)]
                #![trigger final(self).covers(a)]
                old(self).covers(a) ==> final(self).covers(a) || final(self).in_dir(a),
            forall|a: int|
                #![trigger final(self).covers(a)]
                #![trigger old(self).covers(a)]
                final(self).covers(a) ==> old(self).covers(a) || block.spec_contains(a) || a >= old(self).seg_spec(),
            final(self).cap_spec() == old(self).cap_spec() ==> (forall|a: int|
                #![trigger final(self).covers(a)]
                #![trigger old(self).covers(a)]
                #![trigger block.spec_contains(a)]
                final(self).covers(a) <==> old(self).covers(a) || block.spec_contains(a)),
            final(self).cap_spec() == old(self).cap_spec() ==> final(self).seg_spec() == old(self).seg_spec(),
            old(self).cap_spec() <= final(self).cap_spec() <= old(self).cap_spec() + old(self).cap_spec() / 2 + 218,
            old(self).seg_spec() <= final(self).seg_spec(),
            mem_preserved(*old(self), *final(self)),
            final(self).brk_spec() <= old(self).brk_spec() + 48 * old(self).cap_spec() + 25000,
            forall|a: int|
                #![trigger final(self).in_dir(a)]
                #![trigger old(self).in_dir(a)]
                final(self).in_dir(a) ==> old(self).in_dir(a) || old(self).covers(a) || a >= old(self).seg_spec(),
            forall|i: int|
                0 <= i < final(self).blocks().len() ==> ptr_rooted(
                    old(self).blocks(),
                    old(self).seg_spec(),
                    (#[trigger] final(self).blocks()[i]).ptr as int,
                ) || final(self).blocks()[i].ptr == block.ptr,
            final(self).len_spec() <= old(self).len_spec() + 3,
    {
        let ghost pre = *self;
        let ghost es0 = pre.blocks();
        // a placeholder left at the block's address by an exact-fit
        // allocation is removed first: it keeps no information
        if ind < self.entries.len() {
            let e = self.entries[ind];
            if e.ptr == block.ptr {
                proof {
                    if e.size != 0 {
                        assert(es0[ind as int].spec_contains(block.ptr as int));
                        assert(pre.covers(block.ptr as int));
                        assert(block.spec_contains(block.ptr as int));
                    }
                }
                self.entries.remove(ind);
                proof {
                    let es1 = self.blocks();
                    assert forall|i: int, j: int| 0 <= i < j < es1.len() implies pair_wf(
                        es1[i],
                        es1[j],
                    ) by {
                        let i0: int = if i < ind { i } else { i + 1 };
                        let j0: int = if j < ind { j } else { j + 1 };
                        assert(pair_wf(es0[i0], es0[j0]));
                    }
                    assert forall|i: int| 0 <= i < es1.len() implies block_in_segment(
                        es1[i],
                        self.seg_spec(),
                    ) by {
                        let i0: int = if i < ind { i } else { i + 1 };
                        assert(block_in_segment(es0[i0], pre.seg_spec()));
                    }
                    assert forall|i: int|
                        0 <= i < es1.len() && (#[trigger] es1[i]).spec_is_free() implies es1[i].end_spec()
                        <= self.buf_spec() || self.dir_end() <= es1[i].ptr by {
                        let i0: int = if i < ind { i } else { i + 1 };
                        assert(es0[i0].spec_is_free());
                    }
                    assert forall|a: int|
                        #![trigger self.covers(a)]
                        #![trigger pre.covers(a)]
                        self.covers(a) <==> pre.covers(a) by {
                        if self.covers(a) {
                            let i = choose|i: int|
                                0 <= i < es1.len() && (#[trigger] es1[i]).spec_contains(a);
                            let i0: int = if i < ind { i } else { i + 1 };
                            assert(es0[i0].spec_contains(a));
                        }
                        if pre.covers(a) {
                            let i = choose|i: int|
                                0 <= i < es0.len() && (#[trigger] es0[i]).spec_contains(a);
                            if i < ind {
                                assert(es1[i].spec_contains(a));
                            } else {
                                assert(i > ind);
                                assert(es1[i - 1].spec_contains(a));
                            }
                        }
                    }
                    assert forall|j: int| 0 <= j < es1.len() implies ptr_among(
                        es0,
                        (#[trigger] es1[j]).ptr as int,
                    ) by {
                        let i0: int = if j < ind { j } else { j + 1 };
                        assert(es0[i0].ptr == es1[j].ptr);
                    }
                }
            }
        }
        let ghost base = *self;
        let ghost esb = base.blocks();
        proof {
            assert forall|j: int| 0 <= j < ind implies (#[trigger] esb[j]).ptr < block.ptr by {
                assert(es0[j].ptr < block.ptr);
            }
            assert forall|j: int| ind <= j < esb.len() implies block.end_spec() <= (
            #[trigger] esb[j]).ptr by {
                let j0: int = if base == pre { j } else { j + 1 };
                assert(block.ptr <= es0[j0].ptr);
                assert(es0[j0].ptr != block.ptr);
                assert(!(block.ptr < es0[j0].ptr < block.end_spec()));
            }
            assert forall|j: int|
                0 <= j < ind implies (#[trigger] esb[j]).end_spec() <= block.ptr by {
                if esb[j].spec_is_free() && esb[j].end_spec() > block.ptr {
                    assert(esb[j].spec_contains(block.ptr as int));
                    assert(pre.covers(block.ptr as int));
                    assert(block.spec_contains(block.ptr as int));
                }
            }
        }
        let lenb = self.entries.len();
        let merge_left = if ind > 0 {
            let p = self.entries[ind - 1];
            proof {
                assert(block_in_segment(esb[ind - 1], base.seg_spec()));
            }
            p.size != 0 && p.ptr + p.size == block.ptr
        } else {
            false
        };
        let merge_right = if ind < lenb {
            let nx = self.entries[ind];
            nx.size != 0 && nx.ptr == block.ptr + block.size
        } else {
            false
        };
        if merge_left && merge_right {
            // the block bridges two free entries: they become one
            let p = self.entries[ind - 1];
            let nx = self.entries[ind];
            proof {
                assert(block_in_segment(esb[ind as int], base.seg_spec()));
            }
            self.entries.set(
                ind - 1,
                Block { ptr: p.ptr, size: p.size + block.size + nx.size },
            );
            self.entries.remove(ind);
            proof {
                assert(block.end_spec() <= base.buf_spec() || base.dir_end() <= block.ptr) by {
                    lemma_block_avoids_directory(pre, block);
                }
                lemma_free_ind_merge(
                    esb,
                    self.blocks(),
                    ind as int,
                    block,
                    true,
                    true,
                    base.seg_spec(),
                    base.buf_spec(),
                    base.dir_end(),
                );
            }
        } else if merge_left {
            let p = self.entries[ind - 1];
            self.entries.set(ind - 1, Block { ptr: p.ptr, size: p.size + block.size });
            proof {
                assert(block.end_spec() <= base.buf_spec() || base.dir_end() <= block.ptr) by {
                    lemma_block_avoids_directory(pre, block);
                }
                lemma_free_ind_merge(
                    esb,
                    self.blocks(),
                    ind as int,
                    block,
                    true,
                    false,
                    base.seg_spec(),
                    base.buf_spec(),
                    base.dir_end(),
                );
            }
        } else if merge_right {
            let nx = self.entries[ind];
            proof {
                assert(block_in_segment(esb[ind as int], base.seg_spec()));
            }
            self.entries.set(ind, Block { ptr: block.ptr, size: block.size + nx.size });
            proof {
                assert(block.end_spec() <= base.buf_spec() || base.dir_end() <= block.ptr) by {
                    lemma_block_avoids_directory(pre, block);
                }
                lemma_free_ind_merge(
                    esb,
                    self.blocks(),
                    ind as int,
                    block,
                    false,
                    true,
                    base.seg_spec(),
                    base.buf_spec(),
                    base.dir_end(),
                );
            }
        } else {
            proof {
                if ind > 0 {
                    assert((esb[ind - 1].end_spec() == block.ptr) ==> esb[ind - 1].size == 0);
                }
                if ind < esb.len() && esb[ind as int].ptr == block.end_spec() {
                    assert(esb[ind as int].size == 0);
                }
                if base.cap_spec() > 0 {
                    lemma_block_avoids_directory(pre, block);
                } else {
                    assert(base.dir_end() <= block.ptr);
                }
            }
            self.insert(ind, block);
        }
        proof {
            // the directory region, capacity, segment and bytes of `base`
            // are those of the original state
            assert(base.cap_spec() == pre.cap_spec());
            assert forall|i: int| 0 <= i < self.blocks().len() implies ptr_rooted(
                pre.blocks(),
                pre.seg_spec(),
                (#[trigger] self.blocks()[i]).ptr as int,
            ) || self.blocks()[i].ptr == block.ptr by {
                let p = self.blocks()[i].ptr as int;
                if p != block.ptr {
                    assert(ptr_among(esb, p) || ptr_rooted(esb, base.seg_spec(), p));
                    if ptr_among(esb, p) {
                        assert(ptr_among(es0, p));
                    } else if covers_seq(esb, p) {
                        assert(pre.covers(p));
                    } else if p >= base.seg_spec() {
                    } else {
                        assert(ptr_among(es0, p));
                    }
                }
            }
            assert forall|a: int| pre.covers(a) implies self.covers(a) || self.in_dir(a) by {
                assert(base.covers(a));
            }
            assert forall|a: int| self.covers(a) implies pre.covers(a) || block.spec_contains(a)
                || a >= pre.seg_spec() by {
                if base.covers(a) {
                }
            }
            if self.cap_spec() == pre.cap_spec() {
                assert forall|a: int| self.covers(a) implies pre.covers(a)
                    || block.spec_contains(a) by {
                    if base.covers(a) {
                    }
                }
                assert forall|a: int|
                    pre.covers(a) || block.spec_contains(a) implies self.covers(a) by {
                    if pre.covers(a) {
                        assert(base.covers(a));
                    }
                }
            }
        }
    }

    /// Free a block: find its sort position and hand it to `free_ind`.
    fn free(&mut self, block: Block)
        requires
            old(self).wf(),
            old(self).valid_free_block(block),
            old(self).reserve_room(),
        ensures
            final(self).wf(),
            forall|a: int|
                #![trigger block.spec_contains(a)]
                #![trigger final(self).covers(a)]
                block.spec_contains(a) ==> final(self).covers(a),
            forall|a: int|
                #![trigger old(self).covers(a)]
                #![trigger final(self).covers(a)]
                old(self).covers(a) ==> final(self).covers(a) || final(self).in_dir(a),
            forall|a: int|
                #![trigger final(self).covers(a)]
                #![trigger old(self).covers(a)]
                final(self).covers(a) ==> old(self).covers(a) || block.spec_contains(a) || a >= old(self).seg_spec(),
            final(self).cap_spec() == old(self).cap_spec() ==> (forall|a: int|
                #![trigger final(self).covers(a)]
                #![trigger old(self).covers(a)]
                #![trigger block.spec_contains(a)]
                final(self).covers(a) <==> old(self).covers(a) || block.spec_contains(a)),
            final(self).cap_spec() == old(self).cap_spec() ==> final(self).seg_spec() == old(self).seg_spec(),
            old(self).cap_spec() <= final(self).cap_spec() <= old(self).cap_spec() + old(self).cap_spec() / 2 + 218,
            old(self).seg_spec() <= final(self).seg_spec(),
            mem_preserved(*old(self), *final(self)),
            final(self).brk_spec() <= old(self).brk_spec() + 48 * old(self).cap_spec() + 25000,
            forall|a: int|
                #![trigger final(self).in_dir(a)]
                #![trigger old(self).in_dir(a)]
                final(self).in_dir(a) ==> old(self).in_dir(a) || old(self).covers(a) || a >= old(self).seg_spec(),
            forall|i: int|
                0 <= i < final(self).blocks().len() ==> ptr_rooted(
                    old(self).blocks(),
                    old(self).seg_spec(),
                    (#[trigger] final(self).blocks()[i]).ptr as int,
                ) || final(self).blocks()[i].ptr == block.ptr,
            forall|b: Block|
                #![trigger old(self).valid_free_block(b)]
                #![trigger final(self).valid_free_block(b)]
                old(self).valid_free_block(b) && (b.ptr + b.size <= block.ptr || block.ptr
                    + block.size <= b.ptr) ==> final(self).valid_free_block(b),
            exists|j: int|
                0 <= j < final(self).blocks().len() && (#[trigger] final(self).blocks()[j]).spec_is_free()
                    && final(self).blocks()[j].ptr <= block.ptr && block.end_spec() <= final(self).blocks()[j].end_spec(),
            final(self).len_spec() <= old(self).len_spec() + 3,
    {
        let ghost pre = *self;
        let ind = self.find(&block);
        self.free_ind(ind, block);
        proof {
            assert forall|a: int| block.ptr <= a < block.end_spec() implies covers_seq(
                self.blocks(),
                a,
            ) by {
                assert(block.spec_contains(a));
                assert(self.covers(a));
            }
            crate::laws::lemma_coalesced_interval(
                self.blocks(),
                block.ptr as int,
                block.end_spec(),
            );
            let jx = choose|jx: int|
                0 <= jx < self.blocks().len() && (#[trigger] self.blocks()[jx]).ptr <= block.ptr
                    && block.end_spec() <= self.blocks()[jx].end_spec();
            assert(self.blocks()[jx].spec_is_free());
        }
        proof {
            assert forall|b: Block|
                pre.valid_free_block(b) && (b.ptr + b.size <= block.ptr || block.ptr + block.size
                    <= b.ptr) implies self.valid_free_block(b) by {
                lemma_valid_block_preserved_around(pre, *self, b, block);
            }
        }
    }

    /// Enough address space is left that one reallocation, with its possible
    /// fresh allocation, byte copy and free, cannot overflow the break.
    pub open spec fn realloc_room(self, new_size: int, align: int) -> bool {
        self.brk_spec() + new_size + align + 300 * self.cap_spec() + 200000 <= usize::MAX
    }

    /// Try to grow the live block `block` (whose sort position is `ind`) to
    /// `new_size` bytes without moving it: either the free entry that starts
    /// exactly at its end is shrunk from the left, or, when the block sits at
    /// the segment top, the segment is extended by a fresh break.  Success is
    /// owed whenever such a fitting neighbor exists, and whenever the block
    /// sits at the top.  On `Err` the state is left completely unmodified.
    ///
    /// The top extension breaks fresh space first and only then hands the
    /// excess to the ordinary free path: done the other way around, growing
    /// the directory to make room for the excess entry could move the
    /// segment away from the block.
    #[verifier::rlimit(100)]
    fn realloc_inplace(&mut self, ind: usize, block: &Block, new_size: usize) -> (r: Result<
        (),
        (),
    >)
        requires
            old(self).wf(),
            old(self).valid_free_block(*block),
            block.size < new_size,
            ind <= old(self).len_spec(),
            forall|j: int| 0 <= j < ind ==> (#[trigger] old(self).blocks()[j]).ptr < block.ptr,
            forall|j: int|
                ind <= j < old(self).len_spec() ==> block.ptr <= (#[trigger] old(self).blocks()[j]).ptr,
            old(self).alloc_room(new_size as int, 1),
        ensures
            final(self).wf(),
            old(self).seg_spec() <= final(self).seg_spec(),
            old(self).cap_spec() <= final(self).cap_spec() <= old(self).cap_spec() + old(self).cap_spec() / 2 + 218,
            mem_preserved(*old(self), *final(self)),
            r is Err ==> final(self).brk_spec() <= old(self).brk_spec() + 48 * old(self).cap_spec()
                + 25000,
            final(self).brk_spec() <= old(self).brk_spec() + 48 * old(self).cap_spec() + new_size
                + 36000,
            forall|a: int|
                #![trigger final(self).covers(a)]
                #![trigger old(self).covers(a)]
                final(self).covers(a) ==> old(self).covers(a) || a >= old(self).seg_spec(),
            r is Ok ==> block.ptr + new_size <= final(self).seg_spec(),
            r is Ok ==> (forall|a: int|
                #![trigger final(self).covers(a)]
                block.ptr <= a < block.ptr + new_size ==> !final(self).covers(a)),
            r is Ok ==> (forall|a: int|
                #![trigger old(self).covers(a)]
                #![trigger final(self).covers(a)]
                old(self).covers(a) ==> final(self).covers(a) || (block.end_spec() <= a
                    < block.ptr + new_size) || final(self).in_dir(a)),
            r is Ok ==> (forall|j: int|
                0 <= j < final(self).len_spec() ==> !(block.ptr < (#[trigger] final(self).blocks()[j]).ptr < block.ptr + new_size)),
            r is Ok ==> (forall|a: int|
                #![trigger final(self).in_dir(a)]
                block.ptr <= a < block.ptr + new_size ==> !final(self).in_dir(a)),
            r is Err ==> final(self).valid_free_block(*block),
            r is Err ==> (forall|a: int|
                #![trigger old(self).covers(a)]
                #![trigger final(self).covers(a)]
                old(self).covers(a) ==> final(self).covers(a) || final(self).in_dir(a)),
            (exists|jj: int|
                0 <= jj < old(self).len_spec() && (#[trigger] old(self).blocks()[jj]).spec_is_free()
                    && old(self).blocks()[jj].ptr == block.end_spec()
                    && old(self).blocks()[jj].size + block.size >= new_size) ==> r is Ok,
            block.end_spec() == old(self).seg_spec() ==> r is Ok,
            ptrs_rooted(*old(self), *final(self)),
            r is Err ==> *final(self) == *old(self),
            forall|a: int|
                #![trigger final(self).in_dir(a)]
                #![trigger old(self).in_dir(a)]
                final(self).in_dir(a) ==> old(self).in_dir(a) || old(self).covers(a) || a >= old(self).seg_spec(),
            final(self).len_spec() <= old(self).len_spec() + 4,
    {
        let ghost pre = *self;
        let ghost es0 = pre.blocks();
        let len = self.entries.len();
        // step over an occupied placeholder left at the block's address
        let j = if ind < len && self.entries[ind].ptr == block.ptr {
            ind + 1
        } else {
            ind
        };
        proof {
            if ind < len && es0[ind as int].ptr == block.ptr && es0[ind as int].size != 0 {
                assert(es0[ind as int].spec_contains(block.ptr as int));
                assert(pre.covers(block.ptr as int));
                assert(block.spec_contains(block.ptr as int));
            }
            assert forall|k: int| j <= k < es0.len() implies block.end_spec() <= (
            #[trigger] es0[k]).ptr by {
                assert(block.ptr <= es0[k].ptr);
                if k > ind {
                    assert(pair_wf(es0[ind as int], es0[k]));
                }
                assert(es0[k].ptr != block.ptr);
                assert(!(block.ptr < es0[k].ptr < block.end_spec()));
            }
            // the only possible free neighbor starting at the block's end
            // stands at index j
            assert forall|jj: int|
                0 <= jj < es0.len() && (#[trigger] es0[jj]).spec_is_free() && es0[jj].ptr
                    == block.end_spec() implies jj == j by {
                if jj < ind {
                    assert(es0[jj].ptr < block.ptr);
                } else if jj < j {
                    assert(es0[ind as int].ptr == block.ptr);
                } else if jj > j {
                    assert(block.end_spec() <= es0[j as int].ptr);
                    assert(pair_wf(es0[j as int], es0[jj]));
                }
            }
            assert(pre.cap_spec() > 0) by {
                if pre.cap_spec() == 0 {
                    assert(block.end_spec() <= EMPTY_HEAP as int);
                }
            }
        }
        let delta = new_size - block.size;
        if j < len {
            let e = self.entries[j];
            proof {
                assert(block_in_segment(es0[j as int], pre.seg_spec()));
            }
            if e.size != 0 && e.ptr == block.ptr + block.size {
                if e.size >= delta {
                    // the neighbor absorbs the growth from its left end
                    if e.size == delta {
                        self.entries.remove(j);
                        proof {
                            let es1 = self.blocks();
                            assert forall|x: int, y: int| 0 <= x < y < es1.len() implies pair_wf(
                                es1[x],
                                es1[y],
                            ) by {
                                let x0: int = if x < j { x } else { x + 1 };
                                let y0: int = if y < j { y } else { y + 1 };
                                assert(pair_wf(es0[x0], es0[y0]));
                            }
                            assert forall|x: int| 0 <= x < es1.len() implies block_in_segment(
                                es1[x],
                                self.seg_spec(),
                            ) by {
                                let x0: int = if x < j { x } else { x + 1 };
                                assert(block_in_segment(es0[x0], pre.seg_spec()));
                            }
                            assert forall|x: int|
                                0 <= x < es1.len() && (#[trigger] es1[x]).spec_is_free() implies es1[x].end_spec()
                                <= self.buf_spec() || self.dir_end() <= es1[x].ptr by {
                                let x0: int = if x < j { x } else { x + 1 };
                                assert(es0[x0].spec_is_free());
                            }
                            assert forall|a: int| self.covers(a) implies pre.covers(a) && !(
                            block.end_spec() <= a < block.ptr + new_size) by {
                                let x = choose|x: int|
                                    0 <= x < es1.len() && (#[trigger] es1[x]).spec_contains(a);
                                let x0: int = if x < j { x } else { x + 1 };
                                assert(es0[x0].spec_contains(a));
                                if x0 != j {
                                    if x0 < j {
                                        assert(pair_wf(es0[x0], es0[j as int]));
                                    } else {
                                        assert(pair_wf(es0[j as int], es0[x0]));
                                    }
                                }
                            }
                            assert forall|a: int|
                                pre.covers(a) && !(block.end_spec() <= a < block.ptr
                                    + new_size) implies self.covers(a) by {
                                let x = choose|x: int|
                                    0 <= x < es0.len() && (#[trigger] es0[x]).spec_contains(a);
                                if x < j {
                                    assert(es1[x].spec_contains(a));
                                } else if x == j {
                                    assert(false);
                                } else {
                                    assert(es1[x - 1].spec_contains(a));
                                }
                            }
                            assert forall|k: int| 0 <= k < es1.len() implies !(block.ptr < (
                            #[trigger] es1[k]).ptr < block.ptr + new_size) by {
                                let k0: int = if k < j { k } else { k + 1 };
                                assert(es1[k].ptr == es0[k0].ptr);
                                if k0 >= j {
                                    if k0 > j {
                                        assert(pair_wf(es0[j as int], es0[k0]));
                                    }
                                }
                            }
                        }
                    } else {
                        self.entries.set(j, Block { ptr: e.ptr + delta, size: e.size - delta });
                        proof {
                            let es1 = self.blocks();
                            assert forall|x: int, y: int| 0 <= x < y < es1.len() implies pair_wf(
                                es1[x],
                                es1[y],
                            ) by {
                                assert(pair_wf(es0[x], es0[y]));
                            }
                            assert forall|x: int| 0 <= x < es1.len() implies block_in_segment(
                                es1[x],
                                self.seg_spec(),
                            ) by {
                                assert(block_in_segment(es0[x], pre.seg_spec()));
                            }
                            assert forall|x: int|
                                0 <= x < es1.len() && (#[trigger] es1[x]).spec_is_free() implies es1[x].end_spec()
                                <= self.buf_spec() || self.dir_end() <= es1[x].ptr by {
                                if x != j {
                                    assert(es0[x].spec_is_free());
                                } else {
                                    assert(es0[j as int].spec_is_free());
                                    assert(es0[j as int].end_spec() <= pre.buf_spec()
                                        || pre.dir_end() <= es0[j as int].ptr);
                                    if pre.dir_end() <= es0[j as int].ptr {
                                    } else {
                                        assert(es1[x].end_spec() <= self.buf_spec());
                                    }
                                }
                            }
                            assert forall|a: int| self.covers(a) implies pre.covers(a) && !(
                            block.end_spec() <= a < block.ptr + new_size) by {
                                let x = choose|x: int|
                                    0 <= x < es1.len() && (#[trigger] es1[x]).spec_contains(a);
                                assert(es0[x].spec_contains(a));
                                if x != j {
                                    if x < j {
                                        assert(pair_wf(es0[x], es0[j as int]));
                                    } else {
                                        assert(pair_wf(es0[j as int], es0[x]));
                                    }
                                }
                            }
                            assert forall|a: int|
                                pre.covers(a) && !(block.end_spec() <= a < block.ptr
                                    + new_size) implies self.covers(a) by {
                                let x = choose|x: int|
                                    0 <= x < es0.len() && (#[trigger] es0[x]).spec_contains(a);
                                if x == j {
                                    assert(es1[j as int].spec_contains(a));
                                } else {
                                    assert(es1[x].spec_contains(a));
                                }
                            }
                            assert forall|k: int| 0 <= k < es1.len() implies !(block.ptr < (
                            #[trigger] es1[k]).ptr < block.ptr + new_size) by {
                                if k != j {
                                    assert(es1[k].ptr == es0[k].ptr);
                                    if k > j {
                                        assert(pair_wf(es0[j as int], es0[k]));
                                    }
                                }
                            }
                        }
                    }
                    proof {
                        assert forall|a: int|
                            block.ptr <= a < block.ptr + new_size implies !self.in_dir(a) by {
                            if a < block.end_spec() {
                                assert(!pre.in_dir(a));
                            } else {
                                assert(es0[j as int].spec_contains(a));
                                assert(es0[j as int].end_spec() <= pre.buf_spec() || pre.dir_end()
                                    <= es0[j as int].ptr);
                                assert(!pre.in_dir(a));
                            }
                        }
                        assert forall|a: int|
                            block.ptr <= a < block.ptr + new_size implies !self.covers(a) by {
                            if a < block.end_spec() {
                                assert(!pre.covers(a));
                            }
                        }
                    }
                    Ok(())
                } else {
                    // adjacent but too small
                    proof {
                        assert forall|jj: int|
                            0 <= jj < es0.len() && (#[trigger] es0[jj]).spec_is_free()
                                && es0[jj].ptr == block.end_spec() implies es0[jj].size
                            + block.size < new_size by {
                            assert(jj == j);
                        }
                        assert forall|i: int| 0 <= i < self.blocks().len() implies ptr_rooted(
                            es0,
                            pre.seg_spec(),
                            (#[trigger] self.blocks()[i]).ptr as int,
                        ) by {
                            assert(es0[i].ptr == self.blocks()[i].ptr);
                        }
                    }
                    Err(())
                }
            } else {
                // the next entry does not touch the block
                proof {
                    assert forall|jj: int|
                        0 <= jj < es0.len() && (#[trigger] es0[jj]).spec_is_free() && es0[jj].ptr
                            == block.end_spec() implies false by {
                        assert(jj == j);
                    }
                    assert forall|i: int| 0 <= i < self.blocks().len() implies ptr_rooted(
                        es0,
                        pre.seg_spec(),
                        (#[trigger] self.blocks()[i]).ptr as int,
                    ) by {
                        assert(es0[i].ptr == self.blocks()[i].ptr);
                    }
                }
                Err(())
            }
        } else if block.ptr + block.size == self.seg_end {
            // the block sits at the segment top: extend the segment by a
            // fresh break first, then hand the excess back through the
            // ordinary free path (which reserves directory space as needed);
            // this two-phase order keeps the extension contiguous even when
            // the directory itself has to grow
            let can = canonicalize_brk(delta);
            let raw = self.heap.inc_brk(can);
            self.seg_end = raw + can;
            let ghost mid = *self;
            proof {
                assert(raw == pre.seg_spec());
                assert forall|i: int| 0 <= i < mid.blocks().len() implies block_in_segment(
                    #[trigger] mid.blocks()[i],
                    mid.seg_spec(),
                ) && mid.blocks()[i].end_spec() <= raw by {
                    assert(block_in_segment(pre.blocks()[i], pre.seg_spec()));
                }
                assert(mid.wf());
            }
            let excess = Block { ptr: raw + delta, size: can - delta };
            proof {
                assert(mid.valid_free_block(excess)) by {
                    assert forall|a: int| excess.spec_contains(a) implies !mid.covers(a)
                        && !mid.in_dir(a) by {
                        if mid.covers(a) {
                            let x = choose|x: int|
                                0 <= x < mid.blocks().len() && (#[trigger] mid.blocks()[x]).spec_contains(
                                    a,
                                );
                        }
                        assert(mid.dir_end() <= pre.seg_spec());
                    }
                    assert forall|jj: int|
                        0 <= jj < mid.len_spec() implies !(excess.ptr < (
                    #[trigger] mid.blocks()[jj]).ptr < excess.end_spec()) by {
                        assert(block_in_segment(mid.blocks()[jj], mid.seg_spec()));
                        assert(mid.blocks()[jj].end_spec() <= raw);
                    }
                }
            }
            self.free(excess);
            proof {
                assert forall|a: int|
                    block.ptr <= a < block.ptr + new_size implies !self.covers(a) by {
                    if self.covers(a) {
                        assert(mid.covers(a) || excess.spec_contains(a) || a >= mid.seg_spec());
                        if mid.covers(a) {
                            assert(pre.covers(a) || a < raw);
                            if a < block.end_spec() {
                                assert(block.spec_contains(a));
                                assert(!pre.covers(a));
                                let x = choose|x: int|
                                    0 <= x < mid.blocks().len() && (#[trigger] mid.blocks()[x]).spec_contains(
                                        a,
                                    );
                                assert(false);
                            } else {
                                let x = choose|x: int|
                                    0 <= x < mid.blocks().len() && (#[trigger] mid.blocks()[x]).spec_contains(
                                        a,
                                    );
                                assert(mid.blocks()[x].end_spec() <= raw);
                                assert(false);
                            }
                        }
                    }
                }
                assert forall|a: int|
                    pre.covers(a) implies self.covers(a) || (block.end_spec() <= a < block.ptr
                        + new_size) || self.in_dir(a) by {
                    if !(self.covers(a) || self.in_dir(a)) {
                        assert(mid.covers(a));
                        assert(self.covers(a) || self.in_dir(a));
                    }
                }
                assert forall|k: int| 0 <= k < self.blocks().len() implies !(block.ptr < (
                #[trigger] self.blocks()[k]).ptr < block.ptr + new_size) by {
                    let q = self.blocks()[k].ptr as int;
                    if block.ptr < q < block.ptr + new_size {
                        assert(ptr_rooted(mid.blocks(), mid.seg_spec(), q) || self.blocks()[k].ptr
                            == excess.ptr);
                        if covers_seq(mid.blocks(), q) {
                            let x = choose|x: int|
                                0 <= x < mid.blocks().len() && (#[trigger] mid.blocks()[x]).spec_contains(
                                    q,
                                );
                            assert(mid.blocks()[x].end_spec() <= raw);
                            assert(pre.covers(q));
                            assert(block.spec_contains(q));
                            assert(false);
                        } else if q >= mid.seg_spec() {
                            assert(false);
                        } else if ptr_among(mid.blocks(), q) {
                            let x = choose|x: int|
                                0 <= x < mid.blocks().len() && (#[trigger] mid.blocks()[x]).ptr
                                    == q;
                            assert(block_in_segment(mid.blocks()[x], mid.seg_spec()));
                            assert(mid.blocks()[x].end_spec() <= raw);
                            assert(!(block.ptr < pre.blocks()[x].ptr < block.end_spec()));
                            assert(false);
                        } else {
                            assert(q == excess.ptr);
                            assert(false);
                        }
                    }
                }
                assert forall|a: int|
                    block.ptr <= a < block.ptr + new_size implies !self.in_dir(a) by {
                    if self.in_dir(a) {
                        assert(mid.in_dir(a) || mid.covers(a) || a >= mid.seg_spec());
                        if mid.in_dir(a) {
                            assert(mid.dir_end() <= pre.seg_spec());
                            assert(a < pre.seg_spec());
                            assert(block.spec_contains(a));
                            assert(!pre.in_dir(a));
                            assert(false);
                        } else if mid.covers(a) {
                            let x = choose|x: int|
                                0 <= x < mid.blocks().len() && (#[trigger] mid.blocks()[x]).spec_contains(
                                    a,
                                );
                            assert(mid.blocks()[x].end_spec() <= raw);
                            assert(pre.covers(a));
                            if a < block.end_spec() {
                                assert(block.spec_contains(a));
                            }
                            assert(false);
                        } else {
                            assert(false);
                        }
                    }
                }
                assert forall|i: int| 0 <= i < self.blocks().len() implies ptr_rooted(
                    pre.blocks(),
                    pre.seg_spec(),
                    (#[trigger] self.blocks()[i]).ptr as int,
                ) by {
                    let q = self.blocks()[i].ptr as int;
                    assert(ptr_rooted(mid.blocks(), mid.seg_spec(), q) || self.blocks()[i].ptr
                        == excess.ptr);
                    if self.blocks()[i].ptr == excess.ptr {
                        assert(q >= pre.seg_spec());
                    } else if covers_seq(mid.blocks(), q) {
                        let x = choose|x: int|
                            0 <= x < mid.blocks().len() && (#[trigger] mid.blocks()[x]).spec_contains(
                                q,
                            );
                        assert(pre.blocks()[x].spec_contains(q));
                        assert(pre.covers(q));
                    } else if q >= mid.seg_spec() {
                    } else if ptr_among(mid.blocks(), q) {
                        let x = choose|x: int|
                            0 <= x < mid.blocks().len() && (#[trigger] mid.blocks()[x]).ptr == q;
                        assert(pre.blocks()[x].ptr == q);
                    }
                }
            }
            Ok(())
        } else {
            proof {
                assert forall|jj: int|
                    0 <= jj < es0.len() && (#[trigger] es0[jj]).spec_is_free() && es0[jj].ptr
                        == block.end_spec() implies false by {
                    assert(jj == j);
                }
                assert forall|i: int| 0 <= i < self.blocks().len() implies ptr_rooted(
                    es0,
                    pre.seg_spec(),
                    (#[trigger] self.blocks()[i]).ptr as int,
                ) by {
                    assert(es0[i].ptr == self.blocks()[i].ptr);
                }
            }
            Err(())
        }
    }

    /// Reallocate a live block to `new_size` bytes.  A shrink frees the tail
    /// in place; a grow first tries to extend the block where it stands, and
    /// otherwise allocates a new region, copies the contents byte for byte,
    /// and frees the old block.  The returned pointer addresses `new_size`
    /// bytes holding the first `min(block.size, new_size)` bytes of the old
    /// contents.
    #[verifier::rlimit(100)]
    fn realloc(&mut self, block: Block, new_size: usize, align: usize) -> (r: usize)
        requires
            old(self).wf(),
            1 <= align,
            old(self).valid_free_block(block),
            old(self).realloc_room(new_size as int, align as int),
        ensures
            final(self).wf(),
            r == block.ptr || r as int % align as int == 0,
            new_size == block.size ==> r == block.ptr && *final(self) == *old(self),
            HEAP_BASE <= r,
            r + new_size <= final(self).seg_spec(),
            old(self).seg_spec() <= final(self).seg_spec(),
            old(self).brk_spec() <= final(self).brk_spec(),
            forall|a: int|
                #![trigger final(self).covers(a)]
                r <= a < r + new_size ==> !final(self).covers(a),
            forall|a: int|
                #![trigger old(self).byte_at(a)]
                block.ptr <= a < block.ptr + block.size && a - block.ptr < new_size ==> final(self).byte_at(a - block.ptr + r) == old(self).byte_at(a),
            forall|a: int|
                #![trigger final(self).byte_at(a)]
                HEAP_BASE <= a < old(self).brk_spec() && !(r <= a < r + new_size) ==> final(self).byte_at(a) == old(self).byte_at(a),
            new_size >= 1 ==> final(self).valid_free_block(Block { ptr: r, size: new_size }),
            old(self).cap_spec() <= final(self).cap_spec() <= 4 * old(self).cap_spec() + 1200,
            final(self).brk_spec() <= old(self).brk_spec() + new_size + align + 300 * old(self).cap_spec() + 160000,
            new_size <= block.size ==> r == block.ptr,
            new_size < block.size ==> (forall|a: int|
                #![trigger final(self).covers(a)]
                block.ptr + new_size <= a < block.ptr + block.size ==> final(self).covers(a)),
            new_size < block.size && final(self).cap_spec() == old(self).cap_spec() ==> final(self).seg_spec() == old(self).seg_spec() && (forall|a: int|
                #![trigger final(self).covers(a)]
                #![trigger old(self).covers(a)]
                final(self).covers(a) <==> old(self).covers(a) || (block.ptr + new_size <= a
                    < block.ptr + block.size)),
            new_size > block.size && (exists|jj: int|
                0 <= jj < old(self).len_spec() && (#[trigger] old(self).blocks()[jj]).spec_is_free()
                    && old(self).blocks()[jj].ptr == block.end_spec()
                    && old(self).blocks()[jj].size + block.size >= new_size) ==> r == block.ptr,
            new_size > block.size && block.end_spec() == old(self).seg_spec() ==> r
                == block.ptr,
            r != block.ptr ==> (forall|a: int|
                #![trigger block.spec_contains(a)]
                #![trigger final(self).covers(a)]
                block.spec_contains(a) ==> final(self).covers(a)),
            forall|b: Block|
                #![trigger old(self).valid_free_block(b)]
                #![trigger final(self).valid_free_block(b)]
                old(self).valid_free_block(b) && (b.ptr + b.size <= block.ptr || block.ptr
                    + block.size <= b.ptr) && (b.ptr + b.size <= r || r + new_size <= b.ptr)
                    ==> final(self).valid_free_block(b),
    {
        let ghost pre = *self;
        proof {
            if pre.cap_spec() == 0 {
                assert(block.end_spec() <= EMPTY_HEAP as int);
                assert(HEAP_BASE <= block.ptr);
            }
        }
        if new_size <= block.size {
            if new_size < block.size {
                // shrink: hand the tail back to the directory
                let tail = Block { ptr: block.ptr + new_size, size: block.size - new_size };
                proof {
                    assert forall|a: int| tail.spec_contains(a) implies !pre.covers(a) && !pre.in_dir(
                        a,
                    ) by {
                        assert(block.spec_contains(a));
                    }
                    assert forall|j: int|
                        0 <= j < pre.len_spec() implies !(tail.ptr < (#[trigger] pre.blocks()[j]).ptr
                        < tail.end_spec()) by {
                        assert(!(block.ptr < pre.blocks()[j].ptr < block.end_spec()));
                    }
                    assert(pre.valid_free_block(tail));
                }
                let ind = self.find(&tail);
                self.free_ind(ind, tail);
                proof {
                    assert forall|a: int| block.ptr <= a < block.ptr + new_size implies !self.covers(
                        a,
                    ) by {
                        if self.covers(a) {
                            assert(pre.covers(a) || tail.spec_contains(a) || a >= pre.seg_spec());
                            assert(block.spec_contains(a));
                        }
                    }
                    assert forall|a: int|
                        block.ptr + new_size <= a < block.ptr + block.size implies self.covers(
                        a,
                    ) by {
                        assert(tail.spec_contains(a));
                    }
                    if self.cap_spec() == pre.cap_spec() {
                        assert forall|a: int|
                            self.covers(a) <==> pre.covers(a) || (block.ptr + new_size <= a
                                < block.ptr + block.size) by {
                            assert(self.covers(a) <==> pre.covers(a) || tail.spec_contains(a));
                        }
                    }
                    assert forall|b: Block|
                        pre.valid_free_block(b) && (b.ptr + b.size <= block.ptr || block.ptr
                            + block.size <= b.ptr) implies self.valid_free_block(b) by {
                        lemma_valid_block_preserved_around(pre, *self, b, tail);
                    }
                    if new_size >= 1 {
                        let bb = Block { ptr: block.ptr, size: new_size };
                        assert(pre.valid_free_block(bb)) by {
                            assert forall|a: int| bb.spec_contains(a) implies !pre.covers(a)
                                && !pre.in_dir(a) by {
                                assert(block.spec_contains(a));
                            }
                            assert forall|j: int|
                                0 <= j < pre.len_spec() implies !(bb.ptr < (
                            #[trigger] pre.blocks()[j]).ptr < bb.end_spec()) by {
                                assert(!(block.ptr < pre.blocks()[j].ptr < block.end_spec()));
                            }
                        }
                        lemma_valid_block_preserved_around(pre, *self, bb, tail);
                    }
                }
            }
            block.ptr
        } else {
            let ind = self.find(&block);
            let attempt = self.realloc_inplace(ind, &block, new_size);
            let ghost mid = *self;
            if attempt.is_ok() {
                proof {
                    assert(self.valid_free_block(Block { ptr: block.ptr, size: new_size }));
                    assert forall|b: Block|
                        pre.valid_free_block(b) && (b.ptr + b.size <= block.ptr || block.ptr
                            + block.size <= b.ptr) implies self.valid_free_block(b) by {
                        lemma_valid_block_preserved(pre, *self, b);
                    }
                }
                block.ptr
            } else {
                // grow by copy: allocate, move the bytes, free the old block
                let np = self.allocate(new_size, align);
                let ghost mid2 = *self;
                proof {
                    // the new region avoids the old block
                    if np < block.end_spec() && np + new_size > block.ptr {
                        let aov: int = if np as int >= block.ptr {
                            np as int
                        } else {
                            block.ptr as int
                        };
                        assert(np <= aov < np + new_size);
                        assert(mid.covers(aov) || aov >= mid.seg_spec());
                        if mid.covers(aov) {
                            assert(pre.covers(aov) || aov >= pre.seg_spec());
                            assert(block.spec_contains(aov));
                        }
                        assert(false);
                    }
                    assert(block.end_spec() <= np || np + new_size <= block.ptr);
                    assert(block.end_spec() <= mid2.brk_spec()) by {
                        assert(block.end_spec() <= pre.seg_spec());
                        assert(pre.cap_spec() > 0);
                    }
                    assert(np + new_size <= mid2.brk_spec()) by {
                        assert(mid2.cap_spec() > 0);
                    }
                }
                let mut o: usize = 0;
                while o < block.size
                    invariant
                        o <= block.size,
                        mid2.wf(),
                        new_size > block.size,
                        self.blocks() == mid2.blocks(),
                        self.cap_spec() == mid2.cap_spec(),
                        self.seg_spec() == mid2.seg_spec(),
                        self.buf_spec() == mid2.buf_spec(),
                        self.brk_spec() == mid2.brk_spec(),
                        self.heap_spec().wf(),
                        HEAP_BASE <= block.ptr,
                        block.end_spec() <= mid2.brk_spec(),
                        HEAP_BASE <= np,
                        np + new_size <= mid2.brk_spec(),
                        block.end_spec() <= np || np + new_size <= block.ptr,
                        forall|a: int|
                            #![trigger self.byte_at(a)]
                            HEAP_BASE <= a < mid2.brk_spec() && !(np <= a < np + o) ==> self.byte_at(
                                a,
                            ) == mid2.byte_at(a),
                        forall|a: int|
                            #![trigger self.byte_at(a)]
                            np <= a < np + o ==> self.byte_at(a) == mid2.byte_at(
                                a - np + block.ptr,
                            ),
                    decreases block.size - o,
                {
                    let ghost it0 = *self;
                    let v = self.heap.read(block.ptr + o);
                    proof {
                        assert(!(np <= block.ptr + o < np + o));
                        assert(v == self.byte_at(block.ptr + o));
                        assert(self.byte_at(block.ptr + o) == mid2.byte_at(block.ptr + o));
                    }
                    self.heap.write(np + o, v);
                    proof {
                        assert forall|a: int|
                            #![trigger self.byte_at(a)]
                            HEAP_BASE <= a < mid2.brk_spec() && !(np <= a < np + (o + 1)) implies self
                            .byte_at(a) == mid2.byte_at(a) by {
                            assert(self.byte_at(a) == it0.byte_at(a));
                        }
                        assert forall|a: int|
                            #![trigger self.byte_at(a)]
                            np <= a < np + (o + 1) implies self.byte_at(a) == mid2.byte_at(
                            a - np + block.ptr,
                        ) by {
                            if a < np + o {
                                assert(self.byte_at(a) == it0.byte_at(a));
                            } else {
                                assert(a == np + o);
                            }
                        }
                    }
                    o = o + 1;
                }
                let ghost mid3 = *self;
                proof {
                    // the old block is still a valid target for `free`
                    assert(mid3.wf()) by {
                        assert(mid3.blocks() == mid2.blocks());
                        assert forall|i: int| 0 <= i < mid3.blocks().len() implies block_in_segment(
                            #[trigger] mid3.blocks()[i],
                            mid3.seg_spec(),
                        ) by {
                            assert(block_in_segment(mid2.blocks()[i], mid2.seg_spec()));
                        }
                        assert forall|i: int, j: int|
                            0 <= i < j < mid3.blocks().len() implies pair_wf(
                            mid3.blocks()[i],
                            mid3.blocks()[j],
                        ) by {
                            assert(pair_wf(mid2.blocks()[i], mid2.blocks()[j]));
                        }
                        assert forall|i: int|
                            0 <= i < mid3.blocks().len() && (#[trigger] mid3.blocks()[i]).spec_is_free()
                            implies mid3.blocks()[i].end_spec() <= mid3.buf_spec()
                                || mid3.dir_end() <= mid3.blocks()[i].ptr by {
                            assert(mid2.blocks()[i].spec_is_free());
                        }
                    }
                    assert forall|a: int| block.spec_contains(a) implies !mid3.covers(a) by {
                        if mid3.covers(a) {
                            assert(mid2.covers(a));
                            assert((mid.covers(a) || mid.seg_spec() <= a) && !(np <= a < np
                                + new_size));
                            if mid.covers(a) {
                                assert(pre.covers(a) || a >= pre.seg_spec());
                            }
                        }
                    }
                    assert forall|j: int|
                        0 <= j < mid3.len_spec() implies !(block.ptr < (
                    #[trigger] mid3.blocks()[j]).ptr < block.end_spec()) by {
                        let q = mid3.blocks()[j].ptr as int;
                        assert(ptr_rooted(mid.blocks(), mid.seg_spec(), q) || mid3.blocks()[j].ptr
                            == np + new_size || covers_seq(mid.blocks(), q) || q >= mid.seg_spec()
                            || ptr_among(mid.blocks(), q));
                        if block.ptr < q < block.end_spec() {
                            assert(ptr_rooted(mid.blocks(), mid.seg_spec(), q));
                            if covers_seq(mid.blocks(), q) {
                                assert(mid.covers(q));
                                assert(block.spec_contains(q));
                                assert(false);
                            } else if q >= mid.seg_spec() {
                                assert(q >= pre.seg_spec());
                                assert(block.end_spec() <= pre.seg_spec());
                                assert(false);
                            } else {
                                let y = choose|y: int|
                                    0 <= y < mid.blocks().len() && (#[trigger] mid.blocks()[y]).ptr
                                        == q;
                                assert(!(block.ptr < mid.blocks()[y].ptr < block.end_spec()));
                                assert(false);
                            }
                        }
                    }
                    assert forall|a: int| block.spec_contains(a) implies !mid3.in_dir(a) by {
                        if mid3.in_dir(a) {
                            assert(mid2.in_dir(a));
                            assert(mid.in_dir(a) || mid.covers(a) || a >= mid.seg_spec());
                            if mid.in_dir(a) {
                                assert(pre.in_dir(a) || pre.covers(a) || a >= pre.seg_spec());
                            }
                            if mid.covers(a) {
                                assert(pre.covers(a) || a >= pre.seg_spec());
                            }
                            assert(a < pre.seg_spec());
                        }
                    }
                    assert(mid3.valid_free_block(block));
                }
                self.free(block);
                proof {
                    assert forall|a: int|
                        #![trigger pre.byte_at(a)]
                        block.ptr <= a < block.ptr + block.size && a - block.ptr
                            < new_size implies self.byte_at(a - block.ptr + np) == pre.byte_at(
                        a,
                    ) by {
                        let d = a - block.ptr + np;
                        assert(np <= d < np + block.size);
                        assert(mid3.byte_at(d) == mid2.byte_at(d - np + block.ptr));
                        assert(mid2.byte_at(a) == pre.byte_at(a)) by {
                            assert(a < pre.brk_spec()) by {
                                assert(pre.cap_spec() > 0);
                            }
                        }
                        assert(self.byte_at(d) == mid3.byte_at(d)) by {
                            assert(d < mid3.brk_spec());
                        }
                    }
                    assert forall|a: int|
                        #![trigger self.byte_at(a)]
                        HEAP_BASE <= a < pre.brk_spec() && !(np <= a < np + new_size) implies self
                        .byte_at(a) == pre.byte_at(a) by {
                        assert(a < mid3.brk_spec());
                        assert(mid3.byte_at(a) == mid2.byte_at(a));
                        assert(a < mid2.brk_spec());
                    }
                    assert forall|a: int| np <= a < np + new_size implies !self.covers(a) by {
                        if self.covers(a) {
                            assert(mid3.covers(a) || block.spec_contains(a) || a >= mid3.seg_spec());
                            if mid3.covers(a) {
                                assert(mid2.covers(a));
                            }
                            if a >= mid3.seg_spec() {
                                assert(np + new_size <= mid2.seg_spec());
                            }
                        }
                    }
                    assert(np != block.ptr);
                    assert forall|b: Block|
                        pre.valid_free_block(b) && (b.ptr + b.size <= block.ptr || block.ptr
                            + block.size <= b.ptr) && (b.ptr + b.size <= np || np + new_size
                            <= b.ptr) implies self.valid_free_block(b) by {
                        assert(mid.valid_free_block(b)) by {
                            lemma_valid_block_preserved(pre, mid, b);
                        }
                        assert(mid2.valid_free_block(b));
                        assert(mid3.valid_free_block(b)) by {
                            assert(mid3.blocks() == mid2.blocks());
                            assert forall|a: int| b.spec_contains(a) implies !mid3.covers(a)
                                && !mid3.in_dir(a) by {
                                assert(!mid2.covers(a));
                                assert(!mid2.in_dir(a));
                            }
                        }
                    }
                    if new_size >= 1 {
                        let bb = Block { ptr: np, size: new_size };
                        assert(mid2.valid_free_block(bb));
                        assert(mid3.valid_free_block(bb)) by {
                            assert(mid3.blocks() == mid2.blocks());
                            assert forall|a: int| bb.spec_contains(a) implies !mid3.covers(a)
                                && !mid3.in_dir(a) by {
                                assert(!mid2.covers(a));
                                assert(!mid2.in_dir(a));
                            }
                        }
                        assert(self.valid_free_block(bb));
                    }
                }
                np
            }
        }
    }

    /// Store `val` at address `addr` of the managed segment.
    fn write_byte(&mut self, addr: usize, val: u8)
        requires
            old(self).wf(),
            HEAP_BASE <= addr < old(self).brk_spec(),
        ensures
            final(self).wf(),
            final(self).blocks() == old(self).blocks(),
            final(self).seg_spec() == old(self).seg_spec(),
            final(self).cap_spec() == old(self).cap_spec(),
            final(self).buf_spec() == old(self).buf_spec(),
            final(self).brk_spec() == old(self).brk_spec(),
            final(self).byte_at(addr as int) == val,
            forall|a: int|
                #![trigger final(self).byte_at(a)]
                HEAP_BASE <= a < old(self).brk_spec() && a != addr ==> final(self).byte_at(a)
                    == old(self).byte_at(a),
            forall|b: Block|
                #![trigger old(self).valid_free_block(b)]
                #![trigger final(self).valid_free_block(b)]
                old(self).valid_free_block(b) ==> final(self).valid_free_block(b),
    {
        self.heap.write(addr, val);
        proof {
            assert forall|b: Block| old(self).valid_free_block(b) implies self.valid_free_block(
                b,
            ) by {
                assert forall|a: int| b.spec_contains(a) implies !self.covers(a) && !self.in_dir(
                    a,
                ) by {
                    assert(!old(self).covers(a));
                    assert(!old(self).in_dir(a));
                    assert(self.blocks() == old(self).blocks());
                }
                assert forall|j: int| 0 <= j < self.blocks().len() implies !(b.ptr < (
                #[trigger] self.blocks()[j]).ptr < b.end_spec()) by {
                    assert(self.blocks()[j] == old(self).blocks()[j]);
                }
            }
        }
    }

    /// Read the byte at address `addr` of the managed segment.
    fn read_byte(&self, addr: usize) -> (r: u8)
        requires
            self.wf(),
            HEAP_BASE <= addr < self.brk_spec(),
        ensures
            r == self.byte_at(addr as int),
    {
        self.heap.read(addr)
    }

    /// Number of entries currently in the directory.
    fn len(&self) -> (r: usize)
        ensures
            r == self.blocks().len(),
    {
        self.entries.len()
    }

    /// Slot capacity of the directory's buffer.
    fn capacity(&self) -> (r: usize)
        ensures
            r == self.cap_spec(),
    {
        self.cap
    }

    /// Exclusive upper bound of the managed segment.
    fn segment_end(&self) -> (r: usize)
        ensures
            r == self.seg_spec(),
    {
        self.seg_end
    }

    /// The entry at index `i`.
    fn entry(&self, i: usize) -> (r: Block)
        requires
            i < self.blocks().len(),
        ensures
            r == self.blocks()[i as int],
    {
        self.entries[i]
    }
}

/// The memory bookkeeper: the public surface over the block vector.
///
/// Its guarantees, kept by every operation:
///
/// 1. The directory is always sorted by the blocks' addresses.
/// 2. No two blocks overlap.
/// 3. No two adjacent blocks are both free.
/// 4. Every block lies below the segment end, and the length never exceeds
///    the capacity.
pub struct Bookkeeper {
    /// The internal block vector.
    inner: BlockVec,
}

impl Bookkeeper {
    /// The internal directory, for specification purposes.
    pub closed spec fn directory(self) -> BlockVec {
        self.inner
    }

    /// Construct a new, empty bookkeeper.  No allocations or break requests
    /// are made.
    pub fn new() -> (r: Bookkeeper)
        ensures
            r.directory().wf(),
            r.directory().cap_spec() == 0,
            r.directory().blocks().len() == 0,
    {
        Bookkeeper { inner: BlockVec::new() }
    }

    /// Allocate a chunk of memory of `size` bytes, aligned to `align`.
    ///
    /// The returned address is a multiple of `align`, lies inside the
    /// managed segment, and its `size` bytes are covered by no free entry;
    /// when the directory buffer did not move, the free space plus the fresh
    /// segment bytes account exactly for the region handed out.
    pub fn allocate(&mut self, size: usize, align: usize) -> (r: usize)
        requires
            old(self).directory().wf(),
            1 <= align,
            old(self).directory().alloc_room(size as int, align as int),
        ensures
            final(self).directory().wf(),
            r as int % align as int == 0,
            HEAP_BASE <= r,
            r + size <= final(self).directory().seg_spec(),
            old(self).directory().seg_spec() <= final(self).directory().seg_spec(),
            forall|a: int|
                #![trigger final(self).directory().covers(a)]
                r <= a < r + size ==> !final(self).directory().covers(a),
            forall|a: int|
                #![trigger old(self).directory().covers(a)]
                r <= a < r + size ==> old(self).directory().covers(a) || a >= old(self).directory().seg_spec(),
            forall|a: int|
                #![trigger final(self).directory().covers(a)]
                #![trigger old(self).directory().covers(a)]
                final(self).directory().covers(a) ==> (old(self).directory().covers(a) || old(self).directory().seg_spec() <= a) && !(r <= a < r + size),
            forall|a: int|
                #![trigger old(self).directory().covers(a)]
                #![trigger final(self).directory().covers(a)]
                old(self).directory().covers(a) && !(r <= a < r + size) ==> final(self).directory().covers(a) || final(self).directory().in_dir(a),
            final(self).directory().cap_spec() == old(self).directory().cap_spec() ==> (forall|
                a: int,
            |
                #![trigger final(self).directory().covers(a)]
                #![trigger old(self).directory().covers(a)]
                (final(self).directory().covers(a) || (r <= a < r + size)) <==> (old(self).directory().covers(a) || (old(self).directory().seg_spec() <= a < final(self).directory().seg_spec()))),
            mem_preserved(old(self).directory(), final(self).directory()),
            old(self).directory().cap_spec() <= final(self).directory().cap_spec() <= old(self).directory().cap_spec() + old(self).directory().cap_spec() / 2 + 218,
            final(self).directory().brk_spec() <= old(self).directory().brk_spec() + 48 * old(self).directory().cap_spec() + size + align + 36000,
            size >= 1 ==> final(self).directory().valid_free_block(Block { ptr: r, size }),
            forall|b: Block|
                #![trigger old(self).directory().valid_free_block(b)]
                size >= 1 && old(self).directory().valid_free_block(b) ==> b.ptr + b.size <= r
                    || r + size <= b.ptr,
            forall|b: Block|
                #![trigger old(self).directory().valid_free_block(b)]
                #![trigger final(self).directory().valid_free_block(b)]
                old(self).directory().valid_free_block(b) ==> final(self).directory().valid_free_block(
                    b,
                ),
            forall|a: int|
                #![trigger final(self).directory().in_dir(a)]
                #![trigger old(self).directory().in_dir(a)]
                final(self).directory().in_dir(a) ==> old(self).directory().in_dir(a) || old(self).directory().covers(a) || a >= old(self).directory().seg_spec(),
            ptrs_rooted(old(self).directory(), final(self).directory()),
            final(self).directory().blocks().len() <= old(self).directory().blocks().len() + 4,
            (exists|j: int|
                0 <= j < old(self).directory().len_spec() && entry_fits(
                    #[trigger] old(self).directory().blocks()[j],
                    size as int,
                    align as int,
                )) ==> (exists|j: int|
                0 <= j < old(self).directory().len_spec() && entry_fits(
                    #[trigger] old(self).directory().blocks()[j],
                    size as int,
                    align as int,
                ) && (forall|k: int|
                    j < k < old(self).directory().len_spec() ==> !entry_fits(
                        #[trigger] old(self).directory().blocks()[k],
                        size as int,
                        align as int,
                    )) && r == old(self).directory().blocks()[j].ptr + spec_aligner(
                    old(self).directory().blocks()[j].ptr as int,
                    align as int,
                )),
            (exists|j: int|
                0 <= j < old(self).directory().len_spec() && entry_fits(
                    #[trigger] old(self).directory().blocks()[j],
                    size as int,
                    align as int,
                )) && final(self).directory().cap_spec() == old(self).directory().cap_spec()
                ==> final(self).directory().brk_spec() == old(self).directory().brk_spec()
                && final(self).directory().seg_spec() == old(self).directory().seg_spec(),
            size >= 1 && (exists|j: int|
                0 <= j < old(self).directory().len_spec() && entry_fits(
                    #[trigger] old(self).directory().blocks()[j],
                    size as int,
                    align as int,
                )) && final(self).directory().cap_spec() == old(self).directory().cap_spec()
                ==> (exists|j: int|
                0 <= j < old(self).directory().len_spec() && entry_fits(
                    #[trigger] old(self).directory().blocks()[j],
                    size as int,
                    align as int,
                ) && (forall|k: int|
                    j < k < old(self).directory().len_spec() ==> !entry_fits(
                        #[trigger] old(self).directory().blocks()[k],
                        size as int,
                        align as int,
                    )) && j < final(self).directory().len_spec() && final(self).directory().blocks()[j]
                    == (Block {
                    ptr: old(self).directory().blocks()[j].ptr,
                    size: spec_aligner(
                        old(self).directory().blocks()[j].ptr as int,
                        align as int,
                    ) as usize,
                })),
            !(exists|j: int|
                0 <= j < old(self).directory().len_spec() && entry_fits(
                    #[trigger] old(self).directory().blocks()[j],
                    size as int,
                    align as int,
                )) && final(self).directory().cap_spec() == old(self).directory().cap_spec()
                ==> r == old(self).directory().seg_spec() + spec_aligner(
                old(self).directory().seg_spec(),
                align as int,
            ) && final(self).directory().seg_spec() == old(self).directory().seg_spec()
                + spec_aligner(old(self).directory().seg_spec(), align as int)
                + spec_canonicalize_brk(size as int),
    {
        self.inner.allocate(size, align)
    }

    /// Reallocate a live block to `new_size` bytes, aligned to `align`.
    ///
    /// Growing the block to its own size is a no-op returning its address.
    /// Otherwise the returned region holds, byte for byte, the first
    /// `min(block.size, new_size)` bytes of the old contents, and every byte
    /// of the segment outside the returned region keeps its value.
    pub fn realloc(&mut self, block: Block, new_size: usize, align: usize) -> (r: usize)
        requires
            old(self).directory().wf(),
            1 <= align,
            old(self).directory().valid_free_block(block),
            old(self).directory().realloc_room(new_size as int, align as int),
        ensures
            final(self).directory().wf(),
            r == block.ptr || r as int % align as int == 0,
            new_size == block.size ==> r == block.ptr && *final(self) == *old(self),
            HEAP_BASE <= r,
            r + new_size <= final(self).directory().seg_spec(),
            old(self).directory().seg_spec() <= final(self).directory().seg_spec(),
            forall|a: int|
                #![trigger final(self).directory().covers(a)]
                r <= a < r + new_size ==> !final(self).directory().covers(a),
            forall|a: int|
                #![trigger old(self).directory().byte_at(a)]
                block.ptr <= a < block.ptr + block.size && a - block.ptr < new_size ==> final(self).directory().byte_at(a - block.ptr + r) == old(self).directory().byte_at(a),
            forall|a: int|
                #![trigger final(self).directory().byte_at(a)]
                HEAP_BASE <= a < old(self).directory().brk_spec() && !(r <= a < r
                    + new_size) ==> final(self).directory().byte_at(a) == old(self).directory().byte_at(a),
            new_size >= 1 ==> final(self).directory().valid_free_block(
                Block { ptr: r, size: new_size },
            ),
            old(self).directory().cap_spec() <= final(self).directory().cap_spec() <= 4 * old(self).directory().cap_spec() + 1200,
            final(self).directory().brk_spec() <= old(self).directory().brk_spec() + new_size
                + align + 300 * old(self).directory().cap_spec() + 160000,
            new_size <= block.size ==> r == block.ptr,
            new_size < block.size ==> (forall|a: int|
                #![trigger final(self).directory().covers(a)]
                block.ptr + new_size <= a < block.ptr + block.size ==> final(self).directory().covers(
                    a,
                )),
            new_size < block.size && final(self).directory().cap_spec() == old(self).directory().cap_spec()
                ==> final(self).directory().seg_spec() == old(self).directory().seg_spec() && (
            forall|a: int|
                #![trigger final(self).directory().covers(a)]
                #![trigger old(self).directory().covers(a)]
                final(self).directory().covers(a) <==> old(self).directory().covers(a) || (
                block.ptr + new_size <= a < block.ptr + block.size)),
            new_size > block.size && (exists|jj: int|
                0 <= jj < old(self).directory().len_spec() && (#[trigger] old(self).directory().blocks()[jj]).spec_is_free()
                    && old(self).directory().blocks()[jj].ptr == block.end_spec()
                    && old(self).directory().blocks()[jj].size + block.size >= new_size) ==> r
                == block.ptr,
            new_size > block.size && block.end_spec() == old(self).directory().seg_spec()
                ==> r == block.ptr,
            r != block.ptr ==> (forall|a: int|
                #![trigger block.spec_contains(a)]
                #![trigger final(self).directory().covers(a)]
                block.spec_contains(a) ==> final(self).directory().covers(a)),
            forall|b: Block|
                #![trigger old(self).directory().valid_free_block(b)]
                #![trigger final(self).directory().valid_free_block(b)]
                old(self).directory().valid_free_block(b) && (b.ptr + b.size <= block.ptr
                    || block.ptr + block.size <= b.ptr) && (b.ptr + b.size <= r || r + new_size
                    <= b.ptr) ==> final(self).directory().valid_free_block(b),
    {
        self.inner.realloc(block, new_size, align)
    }

    /// Free a memory block.  The block must exactly match a pointer and size
    /// pair previously returned and not freed since; afterwards its bytes are
    /// covered by free entries again, coalesced with any touching neighbors.
    pub fn free(&mut self, block: Block)
        requires
            old(self).directory().wf(),
            old(self).directory().valid_free_block(block),
            old(self).directory().reserve_room(),
        ensures
            final(self).directory().wf(),
            forall|a: int|
                #![trigger block.spec_contains(a)]
                #![trigger final(self).directory().covers(a)]
                block.spec_contains(a) ==> final(self).directory().covers(a),
            forall|a: int|
                #![trigger old(self).directory().covers(a)]
                #![trigger final(self).directory().covers(a)]
                old(self).directory().covers(a) ==> final(self).directory().covers(a) || final(self).directory().in_dir(a),
            forall|a: int|
                #![trigger final(self).directory().covers(a)]
                #![trigger old(self).directory().covers(a)]
                final(self).directory().covers(a) ==> old(self).directory().covers(a)
                    || block.spec_contains(a) || a >= old(self).directory().seg_spec(),
            final(self).directory().cap_spec() == old(self).directory().cap_spec() ==> (forall|
                a: int,
            |
                #![trigger final(self).directory().covers(a)]
                #![trigger old(self).directory().covers(a)]
                #![trigger block.spec_contains(a)]
                final(self).directory().covers(a) <==> old(self).directory().covers(a)
                    || block.spec_contains(a)),
            final(self).directory().cap_spec() == old(self).directory().cap_spec() ==> final(self).directory().seg_spec() == old(self).directory().seg_spec(),
            old(self).directory().seg_spec() <= final(self).directory().seg_spec(),
            mem_preserved(old(self).directory(), final(self).directory()),
            old(self).directory().cap_spec() <= final(self).directory().cap_spec() <= old(self).directory().cap_spec() + old(self).directory().cap_spec() / 2 + 218,
            final(self).directory().brk_spec() <= old(self).directory().brk_spec() + 48 * old(self).directory().cap_spec() + 25000,
            forall|b: Block|
                #![trigger old(self).directory().valid_free_block(b)]
                #![trigger final(self).directory().valid_free_block(b)]
                old(self).directory().valid_free_block(b) && (b.ptr + b.size <= block.ptr
                    || block.ptr + block.size <= b.ptr) ==> final(self).directory().valid_free_block(
                    b,
                ),
            forall|a: int|
                #![trigger final(self).directory().in_dir(a)]
                #![trigger old(self).directory().in_dir(a)]
                final(self).directory().in_dir(a) ==> old(self).directory().in_dir(a) || old(self).directory().covers(a) || a >= old(self).directory().seg_spec(),
            forall|i: int|
                0 <= i < final(self).directory().blocks().len() ==> ptr_rooted(
                    old(self).directory().blocks(),
                    old(self).directory().seg_spec(),
                    (#[trigger] final(self).directory().blocks()[i]).ptr as int,
                ) || final(self).directory().blocks()[i].ptr == block.ptr,
            final(self).directory().blocks().len() <= old(self).directory().blocks().len() + 3,
            exists|j: int|
                0 <= j < final(self).directory().blocks().len() && (#[trigger] final(self).directory().blocks()[j]).spec_is_free()
                    && final(self).directory().blocks()[j].ptr <= block.ptr && block.end_spec()
                    <= final(self).directory().blocks()[j].end_spec(),
    {
        self.inner.free(block)
    }

    /// Store `val` at address `addr` of the managed segment.
    pub fn write(&mut self, addr: usize, val: u8)
        requires
            old(self).directory().wf(),
            HEAP_BASE <= addr < old(self).directory().brk_spec(),
        ensures
            final(self).directory().wf(),
            final(self).directory().blocks() == old(self).directory().blocks(),
            final(self).directory().seg_spec() == old(self).directory().seg_spec(),
            final(self).directory().cap_spec() == old(self).directory().cap_spec(),
            final(self).directory().buf_spec() == old(self).directory().buf_spec(),
            final(self).directory().brk_spec() == old(self).directory().brk_spec(),
            final(self).directory().byte_at(addr as int) == val,
            forall|a: int|
                #![trigger final(self).directory().byte_at(a)]
                HEAP_BASE <= a < old(self).directory().brk_spec() && a != addr ==> final(self).directory().byte_at(a) == old(self).directory().byte_at(a),
            forall|b: Block|
                #![trigger old(self).directory().valid_free_block(b)]
                #![trigger final(self).directory().valid_free_block(b)]
                old(self).directory().valid_free_block(b) ==> final(self).directory().valid_free_block(
                    b,
                ),
    {
        self.inner.write_byte(addr, val)
    }

    /// Read the byte at address `addr` of the managed segment.
    pub fn read(&self, addr: usize) -> (r: u8)
        requires
            self.directory().wf(),
            HEAP_BASE <= addr < self.directory().brk_spec(),
        ensures
            r == self.directory().byte_at(addr as int),
    {
        self.inner.read_byte(addr)
    }

    /// Number of entries the directory currently holds.
    pub fn len(&self) -> (r: usize)
        ensures
            r == self.directory().blocks().len(),
    {
        self.inner.len()
    }

    /// Slot capacity of the directory's heap-resident buffer.
    pub fn capacity(&self) -> (r: usize)
        ensures
            r == self.directory().cap_spec(),
    {
        self.inner.capacity()
    }

    /// Exclusive upper bound of the managed segment.
    pub fn segment_end(&self) -> (r: usize)
        ensures
            r == self.directory().seg_spec(),
    {
        self.inner.segment_end()
    }

    /// The directory entry at index `i`.
    pub fn entry(&self, i: usize) -> (r: Block)
        requires
            i < self.directory().blocks().len(),
        ensures
            r == self.directory().blocks()[i as int],
    {
        self.inner.entry(i)
    }
}

} // verus!
//! Laws of the directory invariants, proved once and for all.

use vstd::prelude::*;

verus! {

use crate::block::Block;
use crate::bookkeeper::blocks_wf;
use crate::bookkeeper::covers_seq;
use crate::bookkeeper::pair_wf;
use crate::bookkeeper::BlockVec;

/// The pairwise directory invariant spelled out for one neighboring pair:
/// addresses strictly increase, the intervals are disjoint, and two entries
/// may touch only if one of them is an occupied placeholder.
pub proof fn lemma_neighbors(es: Seq<Block>, i: int)
    requires
        blocks_wf(es),
        0 <= i < es.len() - 1,
    ensures
        es[i].ptr < es[i + 1].ptr,
        es[i].end_spec() <= es[i + 1].ptr,
        es[i].end_spec() == es[i + 1].ptr ==> es[i].size == 0 || es[i + 1].size == 0,
{
    assert(pair_wf(es[i], es[i + 1]));
}

/// Conservation of free space across a matched allocate and free pair: when
/// the directory buffer stayed where it was, handing a region out and handing
/// it back restores the covered addresses exactly, up to the fresh segment
/// bytes gained from the one break request the allocation may have made.
pub proof fn lemma_alloc_free_restores(
    d0: BlockVec,
    d1: BlockVec,
    d2: BlockVec,
    r: int,
    size: int,
)
    requires
        d1.cap_spec() == d0.cap_spec(),
        forall|a: int|
            #![trigger d1.covers(a)]
            #![trigger d0.covers(a)]
            (d1.covers(a) || (r <= a < r + size)) <==> (d0.covers(a) || (d0.seg_spec() <= a
                < d1.seg_spec())),
        d2.cap_spec() == d1.cap_spec(),
        forall|a: int|
            #![trigger d2.covers(a)]
            #![trigger d1.covers(a)]
            d2.covers(a) <==> d1.covers(a) || (r <= a < r + size),
    ensures
        forall|a: int|
            #![trigger d2.covers(a)]
            #![trigger d0.covers(a)]
            d2.covers(a) <==> d0.covers(a) || (d0.seg_spec() <= a < d1.seg_spec()),
{
    assert forall|a: int|
        #![trigger d2.covers(a)]
        #![trigger d0.covers(a)]
        d2.covers(a) <==> d0.covers(a) || (d0.seg_spec() <= a < d1.seg_spec()) by {
        assert(d2.covers(a) <==> d1.covers(a) || (r <= a < r + size));
    }
}

/// In a well-formed directory no two free entries touch: every pair of free
/// entries leaves a strict gap between them.  This is why freeing two
/// adjacent blocks must leave one coalesced entry, never two.
pub proof fn lemma_free_entries_gap(es: Seq<Block>, i: int, j: int)
    requires
        blocks_wf(es),
        0 <= i < j < es.len(),
        es[i].spec_is_free(),
        es[j].spec_is_free(),
    ensures
        es[i].end_spec() < es[j].ptr,
{
    if j == i + 1 {
        assert(pair_wf(es[i], es[j]));
    } else {
        assert(pair_wf(es[i], es[i + 1]));
        assert(pair_wf(es[i + 1], es[j]));
    }
}

/// A contiguous range of addresses that is entirely covered by free entries
/// is covered by one single entry: successive frees of adjacent blocks end
/// up as exactly one coalesced free entry.
pub proof fn lemma_coalesced_interval(es: Seq<Block>, lo: int, hi: int)
    requires
        blocks_wf(es),
        lo < hi,
        forall|a: int| lo <= a < hi ==> covers_seq(es, a),
    ensures
        exists|i: int|
            0 <= i < es.len() && (#[trigger] es[i]).ptr <= lo && hi <= es[i].end_spec(),
{
    assert(covers_seq(es, lo));
    let i = choose|i: int| 0 <= i < es.len() && (#[trigger] es[i]).spec_contains(lo);
    if es[i].end_spec() < hi {
        let b = es[i].end_spec();
        assert(covers_seq(es, b));
        let j = choose|j: int| 0 <= j < es.len() && (#[trigger] es[j]).spec_contains(b);
        if j < i {
            assert(pair_wf(es[j], es[i]));
        } else if i < j {
            assert(pair_wf(es[i], es[j]));
        }
        assert(false);
    }
    assert(es[i].ptr <= lo && hi <= es[i].end_spec());
}

/// The single covering entry of the previous law is unique among the free
/// entries that reach into the range at all: any free entry containing a
/// covered address is that one entry.
pub proof fn lemma_coalesced_interval_unique(es: Seq<Block>, lo: int, hi: int, i: int, j: int)
    requires
        blocks_wf(es),
        lo < hi,
        0 <= i < es.len(),
        es[i].ptr <= lo,
        hi <= es[i].end_spec(),
        0 <= j < es.len(),
        exists|a: int| lo <= a < hi && (#[trigger] es[j]).spec_contains(a),
    ensures
        j == i,
{
    if j != i {
        assert(es[i].spec_is_free());
        assert(es[j].spec_is_free());
        if j < i {
            lemma_free_entries_gap(es, j, i);
        } else {
            lemma_free_entries_gap(es, i, j);
        }
        let a = choose|a: int| lo <= a < hi && (#[trigger] es[j]).spec_contains(a);
        assert(es[i].spec_contains(a));
    }
}

} // verus!

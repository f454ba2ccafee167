use ralloc::block::Block;
use ralloc::bookkeeper::aligner;
use ralloc::bookkeeper::canonicalize_brk;
use ralloc::bookkeeper::Bookkeeper;

/// Check the directory invariants through the public getters: sorted
/// entries, disjoint intervals, adjacency only across a placeholder, every
/// entry below the segment end, and length within capacity.
fn check_invariants(bk: &Bookkeeper) {
    let len = bk.len();
    assert!(len <= bk.capacity());
    let seg = bk.segment_end();
    let mut i = 0;
    while i < len {
        let e = bk.entry(i);
        assert!(e.ptr + e.size <= seg);
        if i + 1 < len {
            let n = bk.entry(i + 1);
            assert!(e.ptr <= n.ptr);
            assert!(e.ptr + e.size <= n.ptr);
            if e.ptr + e.size == n.ptr {
                assert!(e.size == 0 || n.size == 0);
            }
        }
        i += 1;
    }
}

/// Count the free entries that overlap `[lo, hi)` and check that one of them
/// covers the whole range.
fn free_entries_covering(bk: &Bookkeeper, lo: usize, hi: usize) -> usize {
    let mut found = 0;
    let mut covers_whole = false;
    let mut i = 0;
    while i < bk.len() {
        let e = bk.entry(i);
        if e.size > 0 && e.ptr < hi && lo < e.ptr + e.size {
            found += 1;
            if e.ptr <= lo && hi <= e.ptr + e.size {
                covers_whole = true;
            }
        }
        i += 1;
    }
    if found == 1 {
        assert!(covers_whole);
    }
    found
}

#[test]
fn test_alloc() {
    let mut bk = Bookkeeper::new();
    let mem = bk.allocate(1000, 4);

    let mut i = 0;
    while i < 1000 {
        bk.write(mem + i, 1u8);
        i += 1;
    }

    bk.free(Block { size: 1000, ptr: mem });
}

#[test]
fn test_alloc_free_invariants() {
    let mut bk = Bookkeeper::new();
    check_invariants(&bk);
    let mem = bk.allocate(1000, 4);
    assert!(mem % 4 == 0);
    check_invariants(&bk);
    let mut i = 0;
    while i < 1000 {
        bk.write(mem + i, 1u8);
        i += 1;
    }
    bk.free(Block { size: 1000, ptr: mem });
    check_invariants(&bk);
    // the freed bytes are again covered by exactly one coalesced entry
    assert_eq!(free_entries_covering(&bk, mem, mem + 1000), 1);
}

#[test]
fn test_reuse_freed_block() {
    let mut bk = Bookkeeper::new();
    let first = bk.allocate(16, 16);
    let second = bk.allocate(16, 16);
    assert!(first % 16 == 0 && second % 16 == 0);
    assert!(first != second);
    bk.free(Block { ptr: second, size: 16 });
    check_invariants(&bk);
    let again = bk.allocate(16, 16);
    assert_eq!(again, second);
    check_invariants(&bk);
}

#[test]
fn test_adjacent_frees_coalesce() {
    let mut bk = Bookkeeper::new();
    let p = bk.allocate(8, 1);
    let q = bk.allocate(8, 1);
    assert_eq!(q, p + 8);
    bk.free(Block { ptr: p, size: 8 });
    check_invariants(&bk);
    bk.free(Block { ptr: q, size: 8 });
    check_invariants(&bk);
    // one free entry covers [p, q + 8)
    assert_eq!(free_entries_covering(&bk, p, q + 8), 1);
}

#[test]
fn test_fresh_alloc_alignment() {
    let mut bk = Bookkeeper::new();
    let p = bk.allocate(1, 4096);
    assert!(p % 4096 == 0);
    check_invariants(&bk);
    // an alignment pre-stub smaller than the alignment ends at the pointer
    let mut stub_found = false;
    let mut i = 0;
    while i < bk.len() {
        let e = bk.entry(i);
        if e.size > 0 && e.size < 4096 && e.ptr + e.size == p {
            stub_found = true;
        }
        i += 1;
    }
    assert!(stub_found);
}

#[test]
fn test_realloc_same_size_is_noop() {
    let mut bk = Bookkeeper::new();
    let p = bk.allocate(64, 8);
    let len_before = bk.len();
    let seg_before = bk.segment_end();
    let r = bk.realloc(Block { ptr: p, size: 64 }, 64, 4);
    assert_eq!(r, p);
    assert_eq!(bk.len(), len_before);
    assert_eq!(bk.segment_end(), seg_before);
    check_invariants(&bk);
}

#[test]
fn test_realloc_grow_at_segment_top() {
    let mut bk = Bookkeeper::new();
    let p = bk.allocate(32, 1);
    let r = bk.realloc(Block { ptr: p, size: 32 }, 64, 1);
    assert_eq!(r, p);
    assert!(bk.segment_end() - p >= 64);
    check_invariants(&bk);
}

#[test]
fn test_realloc_copy_preserves_content() {
    let mut bk = Bookkeeper::new();
    let p = bk.allocate(10, 1);
    let mut i = 0;
    while i < 10 {
        bk.write(p + i, (i * 3) as u8);
        i += 1;
    }
    // far larger than the slack behind the block: the contents move
    let r = bk.realloc(Block { ptr: p, size: 10 }, 5000, 1);
    assert!(r != p);
    let mut j = 0;
    while j < 10 {
        assert_eq!(bk.read(r + j), (j * 3) as u8);
        j += 1;
    }
    check_invariants(&bk);
}

#[test]
fn test_realloc_shrink_frees_tail() {
    let mut bk = Bookkeeper::new();
    let p = bk.allocate(100, 1);
    let mut i = 0;
    while i < 100 {
        bk.write(p + i, (i + 1) as u8);
        i += 1;
    }
    let r = bk.realloc(Block { ptr: p, size: 100 }, 40, 1);
    assert_eq!(r, p);
    let mut j = 0;
    while j < 40 {
        assert_eq!(bk.read(p + j), (j + 1) as u8);
        j += 1;
    }
    check_invariants(&bk);
    // the tail is free space again
    assert!(free_entries_covering(&bk, p + 40, p + 100) >= 1);
}

#[test]
fn test_directory_growth() {
    let mut bk = Bookkeeper::new();
    let mut ptrs = Vec::new();
    let mut i = 0;
    while i < 50 {
        ptrs.push(bk.allocate(16, 1));
        i += 1;
    }
    check_invariants(&bk);
    // freeing every other block leaves many separate free entries, enough
    // to outgrow the initial directory capacity of 16 slots
    let mut j = 0;
    while j < 50 {
        bk.free(Block { ptr: ptrs[j], size: 16 });
        check_invariants(&bk);
        j += 2;
    }
    assert!(bk.len() > 16);
    assert!(bk.capacity() > 16);
    // the bookkeeper keeps working after the growth
    let p = bk.allocate(100, 8);
    assert!(p % 8 == 0);
    check_invariants(&bk);
}

#[test]
fn test_canonicalize_brk_values() {
    assert_eq!(canonicalize_brk(0), 200);
    assert_eq!(canonicalize_brk(100), 200);
    assert_eq!(canonicalize_brk(150), 300);
    assert_eq!(canonicalize_brk(1000), 2000);
    assert_eq!(canonicalize_brk(20000), 30000);
}

#[test]
fn test_aligner_values() {
    assert_eq!(aligner(8192, 8), 0);
    assert_eq!(aligner(8193, 8), 7);
    assert_eq!(aligner(8192, 4096), 0);
    assert_eq!(aligner(5, 1), 0);
    assert_eq!(aligner(10, 4), 2);
}

#[test]
fn test_write_read_roundtrip() {
    let mut bk = Bookkeeper::new();
    let p = bk.allocate(4, 1);
    bk.write(p, 0xAA);
    bk.write(p + 1, 0x55);
    bk.write(p + 2, 0x00);
    bk.write(p + 3, 0xFF);
    assert_eq!(bk.read(p), 0xAA);
    assert_eq!(bk.read(p + 1), 0x55);
    assert_eq!(bk.read(p + 2), 0x00);
    assert_eq!(bk.read(p + 3), 0xFF);
}

#[test]
fn test_block_operations() {
    let b = Block { ptr: 10, size: 5 };
    assert_eq!(b.end(), 15);
    assert!(b.left_to(15));
    assert!(!b.left_to(14));
    assert!(b.is_free());
    let mut c = b;
    c.set_occupied();
    assert_eq!(c.ptr, 10);
    assert_eq!(c.size, 0);
    assert!(!c.is_free());
}

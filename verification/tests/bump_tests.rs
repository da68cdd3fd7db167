use quallocator::align::align_up;
use quallocator::bump::{merge_adjacent_free_blocks, BumpAllocator, BumpMemoryBlockHeader};
use quallocator::bump::{qualloc, qudelloc};
use quallocator::heap::get_current_heap;

const HEADER: usize = 24;
const BASE: usize = 4096;
const LIMIT: usize = 1 << 30;

#[test]
fn heap_growth_accounting() {
    // A successful allocation on an empty arena moves the boundary up by
    // exactly one header plus the aligned request.
    let mut a = BumpAllocator::new(BASE, LIMIT);
    let before = get_current_heap(&a.heap);
    let p = a.qualloc(52).unwrap();
    let after = get_current_heap(&a.heap);
    assert_eq!(p, before + HEADER);
    assert_eq!(after, before + HEADER + align_up(52) as usize);
}

#[test]
fn reuse_after_free_is_first_fit() {
    let mut a = BumpAllocator::new(BASE, LIMIT);
    let aligned = align_up(52);
    let first = a.qualloc(aligned).unwrap();
    let second = a.qualloc(aligned).unwrap();
    a.qudelloc(first);
    let third = a.qualloc(aligned).unwrap();
    assert_eq!(third, first);
    assert_eq!(second, BASE + 2 * HEADER + aligned as usize);
}

#[test]
fn coalescing_on_demand() {
    // Two adjacent freed blocks are merged only when a too-large request
    // meets them; a block behind them keeps the second one off the tail.
    let mut a = BumpAllocator::new(BASE, LIMIT);
    let aligned = align_up(52);
    let first = a.qualloc(aligned).unwrap();
    let second = a.qualloc(aligned).unwrap();
    let _guard = a.qualloc(aligned).unwrap();
    a.qudelloc(first);
    a.qudelloc(second);
    assert_eq!(a.blocks.len(), 3);
    let merged = a.qualloc(aligned * 2).unwrap();
    assert_eq!(merged, BASE + HEADER);
    // The absorbed header was reclaimed into the merged payload.
    assert_eq!(a.blocks.len(), 2);
    assert_eq!(a.blocks[0].size, 2 * aligned as usize + HEADER);
}

#[test]
fn tail_shrink_on_free() {
    // Freeing the only block returns the boundary exactly to where it was
    // and leaves the engine uninitialized.
    let mut a = BumpAllocator::new(BASE, LIMIT);
    let before = get_current_heap(&a.heap);
    let p = a.qualloc(52).unwrap();
    a.qudelloc(p);
    assert_eq!(get_current_heap(&a.heap), before);
    assert_eq!(a.blocks.len(), 0);
}

#[test]
fn non_tail_free_does_not_shrink() {
    let mut a = BumpAllocator::new(BASE, LIMIT);
    let first = a.qualloc(52).unwrap();
    let _second = a.qualloc(52).unwrap();
    let boundary = get_current_heap(&a.heap);
    a.qudelloc(first);
    assert_eq!(get_current_heap(&a.heap), boundary);
    let reused = a.qualloc(40).unwrap();
    assert_eq!(reused, first);
}

#[test]
fn exhaustion_returns_no_memory() {
    // An arena whose operating system refuses growth serves nothing and is
    // left untouched.
    let mut a = BumpAllocator::new(0, 16);
    assert_eq!(a.qualloc(52), None);
    assert_eq!(get_current_heap(&a.heap), 0);
    assert_eq!(a.blocks.len(), 0);

    // A tighter limit refuses the second allocation but keeps the first.
    let mut b = BumpAllocator::new(0, 80);
    let p = b.qualloc(52).unwrap();
    assert_eq!(p, HEADER);
    assert_eq!(b.qualloc(8), None);
    assert_eq!(get_current_heap(&b.heap), 80);
}

#[test]
fn bump_deallocate_unknown_pointer_changes_nothing() {
    let mut a = BumpAllocator::new(BASE, LIMIT);
    let p = a.qualloc(52).unwrap();
    let boundary = get_current_heap(&a.heap);
    a.qudelloc(p + 1);
    a.qudelloc(7);
    assert_eq!(get_current_heap(&a.heap), boundary);
    assert_eq!(a.blocks.len(), 1);
    assert!(!a.blocks[0].is_free);
}

fn assert_live_disjoint(live: &[(usize, usize)]) {
    for (i, &(p, s)) in live.iter().enumerate() {
        for &(q, t) in live.iter().skip(i + 1) {
            assert_ne!(p, q, "live pointers must stay distinct");
            assert!(
                p + s <= q || q + t <= p,
                "live blocks must not overlap: {p}+{s} vs {q}+{t}"
            );
        }
    }
}

#[test]
fn round_trip_interleaved() {
    // Through an interleaved sequence of allocations and single
    // deallocations, every live pointer stays distinct and owns its full
    // requested span.
    let mut a = BumpAllocator::new(BASE, LIMIT);
    let mut live: Vec<(usize, usize)> = Vec::new();

    let sizes: [i32; 6] = [8, 52, 16, 120, 4, 64];
    for &s in sizes.iter() {
        let p = a.qualloc(s).unwrap();
        live.push((p, s as usize));
        assert_live_disjoint(&live);
    }
    // Free two in the middle, then allocate across the hole.
    let (p1, _) = live.remove(1);
    a.qudelloc(p1);
    assert_live_disjoint(&live);
    let (p2, _) = live.remove(1);
    a.qudelloc(p2);
    assert_live_disjoint(&live);
    let p = a.qualloc(90).unwrap();
    live.push((p, 90));
    assert_live_disjoint(&live);
    // Drain everything; the arena must end empty with its boundary home.
    while let Some((p, _)) = live.pop() {
        a.qudelloc(p);
        assert_live_disjoint(&live);
    }
    // Free the holes the mid-sequence deallocations left, tail first, so the
    // boundary can walk all the way back down.
    while !a.blocks.is_empty() {
        let mut addr = BASE;
        for b in a.blocks.iter().take(a.blocks.len() - 1) {
            addr += HEADER + b.size;
        }
        a.qudelloc(addr + HEADER);
    }
    assert_eq!(a.blocks.len(), 0);
    assert_eq!(get_current_heap(&a.heap), BASE);
}

#[test]
fn merge_absorbs_only_what_it_needs() {
    let mut a = BumpAllocator::new(BASE, LIMIT);
    let aligned = align_up(8) as usize;
    let p0 = a.qualloc(8).unwrap();
    let p1 = a.qualloc(8).unwrap();
    let p2 = a.qualloc(8).unwrap();
    let _guard = a.qualloc(8).unwrap();
    a.qudelloc(p0);
    a.qudelloc(p1);
    a.qudelloc(p2);
    // Three free blocks of 8 bytes each; merging for 20 bytes stops after
    // two of them (8 + 24 + 8 = 40 >= 20).
    let (merged, resume) = merge_adjacent_free_blocks(&mut a, 0, 20);
    assert!(merged);
    assert_eq!(resume, 1);
    assert_eq!(a.blocks.len(), 3);
    assert_eq!(a.blocks[0].size, 2 * aligned + HEADER);
    assert!(a.blocks[0].is_free);
    assert!(a.blocks[1].is_free);
    assert!(!a.blocks[2].is_free);
}

#[test]
fn simple_qualloc_never_coalesces() {
    // The convenience entry point reuses single blocks only: a request that
    // two merged neighbours could serve grows the arena instead.
    let mut a = BumpAllocator::new(BASE, LIMIT);
    let aligned = align_up(52);
    let first = qualloc(&mut a, aligned).unwrap();
    let second = qualloc(&mut a, aligned).unwrap();
    let _guard = qualloc(&mut a, aligned).unwrap();
    qudelloc(&mut a, first);
    qudelloc(&mut a, second);
    let boundary = get_current_heap(&a.heap);
    let grown = qualloc(&mut a, aligned * 2).unwrap();
    assert_eq!(grown, boundary + HEADER);
    // A single free block that fits is still reused, first-fit.
    let reused = qualloc(&mut a, 52).unwrap();
    assert_eq!(reused, first);
}

#[test]
fn header_reports_its_footprint() {
    assert_eq!(BumpMemoryBlockHeader::size(), HEADER);
    let h = BumpMemoryBlockHeader::new(56, false);
    assert_eq!(h.size, 56);
    assert!(!h.is_free);
}

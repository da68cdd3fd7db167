use quallocator::mmap::{
    allocate_region, place_section_inside_region, round_up_to_page_size, MmapAllocator,
    MmapMemoryBlockHeader, MmapMemoryRegion,
};

const REGION_HEADER: usize = 40;
const SECTION_HEADER: usize = 32;
const PAGE: usize = 4096;
const MAP_BASE: usize = 1 << 20;
const MAP_LIMIT: usize = MAP_BASE + (1 << 20);

#[test]
fn round_up_to_page_size_values() {
    assert_eq!(round_up_to_page_size(1540, 1024), 2048);
    assert_eq!(round_up_to_page_size(0, 4096), 0);
    assert_eq!(round_up_to_page_size(1, 4096), 4096);
    assert_eq!(round_up_to_page_size(4096, 4096), 4096);
    assert_eq!(round_up_to_page_size(4097, 4096), 8192);
}

#[test]
fn first_allocation_maps_one_region() {
    let mut m = MmapAllocator::new(PAGE, MAP_BASE, MAP_LIMIT);
    let p = m.allocate(100).unwrap();
    assert_eq!(p, MAP_BASE + REGION_HEADER + SECTION_HEADER);
    assert_eq!(m.regions.len(), 1);
    assert_eq!(m.regions[0].total_space, PAGE - REGION_HEADER);
    assert_eq!(
        m.regions[0].space_available,
        PAGE - REGION_HEADER - (100 + SECTION_HEADER)
    );
}

#[test]
fn sections_are_carved_in_order_and_reused_first_fit() {
    let mut m = MmapAllocator::new(PAGE, MAP_BASE, MAP_LIMIT);
    let first = m.allocate(100).unwrap();
    let second = m.allocate(200).unwrap();
    assert_eq!(
        second,
        MAP_BASE + REGION_HEADER + (SECTION_HEADER + 100) + SECTION_HEADER
    );
    m.deallocate(first);
    assert_eq!(m.regions.len(), 1);
    assert!(m.regions[0].sections[0].is_free);
    // A smaller request reuses the freed section as it stands.
    let reused = m.allocate(50).unwrap();
    assert_eq!(reused, first);
    assert_eq!(m.regions[0].sections[0].size, 100);
    let _ = second;
}

#[test]
fn freed_sections_never_coalesce() {
    let mut m = MmapAllocator::new(PAGE, MAP_BASE, MAP_LIMIT);
    let first = m.allocate(100).unwrap();
    let second = m.allocate(200).unwrap();
    let _guard = m.allocate(10).unwrap();
    m.deallocate(first);
    m.deallocate(second);
    // 250 bytes would fit in the two freed neighbours combined, but sections
    // are never merged: the request is carved after the last section.
    let p = m.allocate(250).unwrap();
    let used = (SECTION_HEADER + 100) + (SECTION_HEADER + 200) + (SECTION_HEADER + 10);
    assert_eq!(p, MAP_BASE + REGION_HEADER + used + SECTION_HEADER);
    assert_eq!(m.regions[0].sections.len(), 4);
}

#[test]
fn region_unmapped_when_all_sections_free() {
    let mut m = MmapAllocator::new(PAGE, MAP_BASE, MAP_LIMIT);
    let first = m.allocate(100).unwrap();
    let second = m.allocate(200).unwrap();
    m.deallocate(first);
    assert_eq!(m.regions.len(), 1);
    m.deallocate(second);
    assert_eq!(m.regions.len(), 0);
}

#[test]
fn second_region_mapped_when_first_is_full() {
    let mut m = MmapAllocator::new(PAGE, MAP_BASE, MAP_LIMIT);
    let big = PAGE - REGION_HEADER - SECTION_HEADER;
    let first = m.allocate(big).unwrap();
    assert_eq!(m.regions.len(), 1);
    assert_eq!(m.regions[0].space_available, 0);
    let second = m.allocate(big).unwrap();
    assert_eq!(m.regions.len(), 2);
    assert_eq!(second, MAP_BASE + PAGE + REGION_HEADER + SECTION_HEADER);
    assert_ne!(first, second);
}

#[test]
fn rollback_leaves_no_region_visible() {
    // A request sized so that the freshly mapped region cannot hold even the
    // section header is rolled back: the mapping is released and nothing is
    // linked into the list.
    let mut m = MmapAllocator::new(PAGE, MAP_BASE, MAP_LIMIT);
    assert_eq!(m.allocate(PAGE - REGION_HEADER), None);
    assert_eq!(m.regions.len(), 0);

    // The same holds when other regions exist but none has room.
    let p = m.allocate(100).unwrap();
    assert_eq!(m.allocate(PAGE - REGION_HEADER), None);
    assert_eq!(m.regions.len(), 1);
    m.deallocate(p);
}

#[test]
fn mapping_refused_at_limit() {
    let mut m = MmapAllocator::new(PAGE, MAP_BASE, MAP_BASE + PAGE);
    let p = m.allocate(100).unwrap();
    // The one page the operating system would grant is taken; a request that
    // no existing region can hold is refused outright.
    assert_eq!(m.allocate(PAGE), None);
    assert_eq!(m.regions.len(), 1);
    m.deallocate(p);
    assert_eq!(m.regions.len(), 0);
    // With every page beyond the limit, even a small request fails.
    assert_eq!(m.allocate(1), None);
}

#[test]
fn mmap_deallocate_unknown_pointer_changes_nothing() {
    let mut m = MmapAllocator::new(PAGE, MAP_BASE, MAP_LIMIT);
    let p = m.allocate(100).unwrap();
    m.deallocate(p + 1);
    m.deallocate(12345);
    assert_eq!(m.regions.len(), 1);
    assert!(!m.regions[0].sections[0].is_free);
}

#[test]
fn detached_region_placement() {
    let mut m = MmapAllocator::new(PAGE, MAP_BASE, MAP_LIMIT);
    let mut region = allocate_region(&mut m, 100).unwrap();
    assert_eq!(region.base, MAP_BASE);
    assert_eq!(region.total_space, PAGE - REGION_HEADER);
    // The region is detached: nothing is linked until placement succeeds.
    assert_eq!(m.regions.len(), 0);
    let addr = place_section_inside_region(&mut region, 100).unwrap();
    assert_eq!(addr, MAP_BASE + REGION_HEADER);
    assert_eq!(
        region.space_available,
        PAGE - REGION_HEADER - (100 + SECTION_HEADER)
    );
    // A request past the available counter is refused without change.
    assert_eq!(
        place_section_inside_region(&mut region, PAGE),
        None
    );
    assert_eq!(region.sections.len(), 1);
}

#[test]
fn region_and_section_headers_report_their_footprint() {
    assert_eq!(MmapMemoryRegion::size(), REGION_HEADER);
    assert_eq!(MmapMemoryBlockHeader::size(), SECTION_HEADER);
    let h = MmapMemoryBlockHeader::new(100, true);
    assert_eq!(h.size, 100);
    assert!(h.is_free);
    let r = MmapMemoryRegion::new(MAP_BASE, 4056, 4056);
    assert_eq!(r.base, MAP_BASE);
    assert_eq!(r.total_space, 4056);
    assert_eq!(r.space_available, 4056);
    assert_eq!(r.sections.len(), 0);
}

#[test]
fn pointers_across_regions_stay_distinct() {
    let mut m = MmapAllocator::new(PAGE, MAP_BASE, MAP_LIMIT);
    let big = PAGE - REGION_HEADER - SECTION_HEADER;
    let mut live: Vec<(usize, usize)> = Vec::new();
    for &s in [big, 100, 200, big, 50].iter() {
        let p = m.allocate(s).unwrap();
        live.push((p, s));
    }
    for (i, &(p, s)) in live.iter().enumerate() {
        for &(q, t) in live.iter().skip(i + 1) {
            assert_ne!(p, q);
            assert!(p + s <= q || q + t <= p);
        }
    }
}

#[test]
fn section_first_fit_skips_small_free_sections() {
    let mut m = MmapAllocator::new(PAGE, MAP_BASE, MAP_LIMIT);
    let small = m.allocate(100).unwrap();
    let large = m.allocate(200).unwrap();
    let _guard = m.allocate(10).unwrap();
    m.deallocate(small);
    m.deallocate(large);
    // 150 bytes pass over the 100-byte free section and reuse the 200-byte
    // one, which keeps its size.
    let p = m.allocate(150).unwrap();
    assert_eq!(p, large);
    assert_eq!(m.regions[0].sections[1].size, 200);
    assert!(m.regions[0].sections[0].is_free);
}

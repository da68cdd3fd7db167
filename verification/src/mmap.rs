//! Region allocation engine: independently mapped, page-sized regions, each
//! subdivided internally into sections.
//!
//! Every region is one page-aligned block obtained from the operating
//! system.  A region header at its base records the capacity left for
//! sections; the sections follow, each behind its own fixed-size header,
//! tiling a prefix of the region's space.  Placement inside a region is
//! first-fit over the free sections and never coalesces neighbours — freed
//! sections keep their size, a documented source of fragmentation.  The
//! operating system's mapping primitive is modelled by an address cursor
//! with a limit: each new region is carved at the cursor, the cursor never
//! moves back, and a request past the limit is refused.

use vstd::prelude::*;
use crate::align::spec_align_up;

verus! {

/// Bytes that one region header occupies at the base of its mapped block.
pub const MMAP_REGION_HEADER_SIZE: usize = 40;

/// Bytes that one section header occupies inside a region.
pub const MMAP_SECTION_HEADER_SIZE: usize = 32;

/// Metadata kept at the start of every section of a region.
pub struct MmapMemoryBlockHeader {
    /// Usable payload bytes of the section, not counting the header.
    pub size: usize,
    /// Whether the payload is currently available for reuse.
    pub is_free: bool,
}

impl MmapMemoryBlockHeader {
    /// A fresh header for a section of `size` payload bytes.
    pub fn new(size: usize, is_free: bool) -> (h: MmapMemoryBlockHeader)
        ensures
            h.size == size,
            h.is_free == is_free,
    {
        MmapMemoryBlockHeader { size, is_free }
    }

    /// Bytes the section header itself occupies in its region.
    pub fn size() -> (r: usize)
        ensures
            r == MMAP_SECTION_HEADER_SIZE,
    {
        MMAP_SECTION_HEADER_SIZE
    }
}

/// Region bytes occupied by the first `n` sections: each contributes its
/// header and its payload.
pub open spec fn sections_footprint(s: Seq<MmapMemoryBlockHeader>, n: int) -> int
    decreases n,
{
    if n <= 0 {
        0
    } else {
        sections_footprint(s, n - 1) + MMAP_SECTION_HEADER_SIZE + s[n - 1].size
    }
}

/// Region bytes charged against the available-space counter by the first
/// `n` sections: only sections in use count, header included.
pub open spec fn used_space(s: Seq<MmapMemoryBlockHeader>, n: int) -> int
    decreases n,
{
    if n <= 0 {
        0
    } else {
        used_space(s, n - 1) + if s[n - 1].is_free {
            0
        } else {
            MMAP_SECTION_HEADER_SIZE + s[n - 1].size as int
        }
    }
}

/// The sections footprint never shrinks as more sections are counted.
pub proof fn lemma_sections_footprint_monotonic(s: Seq<MmapMemoryBlockHeader>, i: int, j: int)
    requires
        i <= j,
    ensures
        sections_footprint(s, i) <= sections_footprint(s, j),
    decreases j - i,
{
    if i < j {
        lemma_sections_footprint_monotonic(s, i, j - 1);
    }
}

/// Two section lists whose payload sizes agree element-wise have equal
/// footprints over the agreeing range.
pub proof fn lemma_sections_footprint_offset(
    t: Seq<MmapMemoryBlockHeader>,
    s: Seq<MmapMemoryBlockHeader>,
    b: int,
)
    requires
        0 <= b,
        forall|d: int| 0 <= d < b ==> (#[trigger] t[d]).size == s[d].size,
    ensures
        sections_footprint(t, b) == sections_footprint(s, b),
    decreases b,
{
    if 0 < b {
        lemma_sections_footprint_offset(t, s, b - 1);
    }
}

/// What the in-use sections charge never goes negative and never exceeds the
/// footprint of all sections.
pub proof fn lemma_used_space_bounds(s: Seq<MmapMemoryBlockHeader>, n: int)
    ensures
        0 <= used_space(s, n) <= sections_footprint(s, n),
    decreases n,
{
    if n > 0 {
        lemma_used_space_bounds(s, n - 1);
    }
}

/// A free section's footprint fits inside the space not charged as used.
pub proof fn lemma_free_section_fits(s: Seq<MmapMemoryBlockHeader>, n: int, k: int)
    requires
        0 <= k < n,
        s[k].is_free,
    ensures
        MMAP_SECTION_HEADER_SIZE + s[k].size <= sections_footprint(s, n) - used_space(s, n),
    decreases n,
{
    lemma_used_space_bounds(s, k);
    if k == n - 1 {
        lemma_used_space_bounds(s, n - 1);
    } else {
        lemma_free_section_fits(s, n - 1, k);
    }
}

/// An in-use section's footprint is part of what is charged as used.
pub proof fn lemma_used_section_charged(s: Seq<MmapMemoryBlockHeader>, n: int, k: int)
    requires
        0 <= k < n,
        !s[k].is_free,
    ensures
        MMAP_SECTION_HEADER_SIZE + s[k].size <= used_space(s, n),
    decreases n,
{
    if k < n - 1 {
        lemma_used_section_charged(s, n - 1, k);
    } else {
        lemma_used_space_bounds(s, n - 1);
    }
}

/// Two section lists that agree element-wise charge the same used space.
pub proof fn lemma_used_space_agree(
    t: Seq<MmapMemoryBlockHeader>,
    s: Seq<MmapMemoryBlockHeader>,
    b: int,
)
    requires
        forall|d: int| 0 <= d < b ==> #[trigger] t[d] == s[d],
    ensures
        used_space(t, b) == used_space(s, b),
    decreases b,
{
    if 0 < b {
        lemma_used_space_agree(t, s, b - 1);
    }
}

/// Marking one section changes the used charge by exactly its footprint and
/// moves no other section.
pub proof fn lemma_used_space_update(
    s: Seq<MmapMemoryBlockHeader>,
    n: int,
    k: int,
    h: MmapMemoryBlockHeader,
)
    requires
        0 <= k < n <= s.len(),
        h.size == s[k].size,
    ensures
        used_space(s.update(k, h), n) == used_space(s, n) + if s[k].is_free == h.is_free {
            0
        } else if h.is_free {
            -(MMAP_SECTION_HEADER_SIZE + s[k].size as int)
        } else {
            MMAP_SECTION_HEADER_SIZE + s[k].size as int
        },
    decreases n,
{
    if k < n - 1 {
        lemma_used_space_update(s, n - 1, k, h);
    } else {
        lemma_used_space_agree(s.update(k, h), s, n - 1);
    }
}

/// One region: an independently mapped, page-aligned block holding a header
/// and a list of sections in address order.
///
/// The mapped block spans `total_space` bytes past the region header; the
/// sections tile a prefix of that span, and `space_available` is always the
/// capacity minus what the sections in use occupy.
pub struct MmapMemoryRegion {
    /// Address at which the operating system mapped the block.
    pub base: usize,
    /// Capacity for sections: the mapped size minus the region header.
    pub total_space: usize,
    /// Capacity not occupied by sections in use.
    pub space_available: usize,
    /// All sections of the region, in address order.
    pub sections: Vec<MmapMemoryBlockHeader>,
}

impl MmapMemoryRegion {
    /// The sections tile a prefix of the capacity, the available counter
    /// matches the sections in use, and the whole block fits in the address
    /// space.
    pub open spec fn wf(self) -> bool {
        &&& sections_footprint(self.sections@, self.sections@.len() as int) <= self.total_space
        &&& self.space_available == self.total_space - used_space(
            self.sections@,
            self.sections@.len() as int,
        )
        &&& self.base + MMAP_REGION_HEADER_SIZE + self.total_space <= usize::MAX
    }

    /// Address of the header of section `k`.
    pub open spec fn section_addr(self, k: int) -> int {
        self.base + MMAP_REGION_HEADER_SIZE + sections_footprint(self.sections@, k)
    }

    /// Address handed to the caller for section `k`: just past its header.
    pub open spec fn user_addr(self, k: int) -> int {
        self.section_addr(k) + MMAP_SECTION_HEADER_SIZE
    }

    /// The first section whose user address is `ptr`, scanning from section
    /// `k`; the section count when none matches.
    pub open spec fn find_section_from(self, k: int, ptr: int) -> int
        decreases self.sections@.len() - k,
    {
        if k < 0 || k >= self.sections@.len() {
            self.sections@.len() as int
        } else if self.user_addr(k) == ptr {
            k
        } else {
            self.find_section_from(k + 1, ptr)
        }
    }

    /// The section a deallocation of `ptr` acts on in this region, or the
    /// section count when no section of this region matches.
    pub open spec fn find_section(self, ptr: int) -> int {
        self.find_section_from(0, ptr)
    }

    /// A fresh region of `total_space` capacity mapped at `base`, holding no
    /// sections yet.
    pub fn new(base: usize, total_space: usize, space_available: usize) -> (r: MmapMemoryRegion)
        requires
            space_available == total_space,
            base + MMAP_REGION_HEADER_SIZE + total_space <= usize::MAX,
        ensures
            r.wf(),
            r.base == base,
            r.total_space == total_space,
            r.space_available == space_available,
            r.sections@ == Seq::<MmapMemoryBlockHeader>::empty(),
    {
        let r = MmapMemoryRegion { base, total_space, space_available, sections: Vec::new() };
        proof {
            assert(r.sections@ =~= Seq::<MmapMemoryBlockHeader>::empty());
        }
        r
    }

    /// Bytes the region header itself occupies at the base of the block.
    pub fn size() -> (r: usize)
        ensures
            r == MMAP_REGION_HEADER_SIZE,
    {
        MMAP_REGION_HEADER_SIZE
    }
}

/// The first free section at or after `k` whose payload holds `size` bytes,
/// or the length of the section list when none does.
pub open spec fn section_fit_from(s: Seq<MmapMemoryBlockHeader>, k: int, size: int) -> int
    decreases s.len() - k,
{
    if k < 0 || k >= s.len() {
        s.len() as int
    } else if s[k].is_free && s[k].size >= size {
        k
    } else {
        section_fit_from(s, k + 1, size)
    }
}

/// The section a first-fit placement of `size` bytes reuses, or the length
/// of the section list when a new section must be carved instead.
pub open spec fn section_fit(s: Seq<MmapMemoryBlockHeader>, size: int) -> int {
    section_fit_from(s, 0, size)
}

/// A scan that found no free section of `size` bytes before `c` and one at
/// `c` (or ran off the list) has found the first fit.
pub proof fn lemma_section_fit_from_is(s: Seq<MmapMemoryBlockHeader>, j: int, c: int, size: int)
    requires
        0 <= j <= c <= s.len(),
        forall|k: int| j <= k < c ==> !((#[trigger] s[k]).is_free && s[k].size >= size),
        c < s.len() ==> s[c].is_free && s[c].size >= size,
    ensures
        section_fit_from(s, j, size) == c,
    decreases c - j,
{
    if j < c {
        lemma_section_fit_from_is(s, j + 1, c, size);
    }
}

/// Place a section of `size` bytes inside `region`.
///
/// When the available counter cannot hold the request, nothing fits.
/// Otherwise the first free section whose payload holds the request is
/// reused as it stands — no splitting, no coalescing — and failing that a
/// new section is carved right after the last one if the capacity has room.
/// Returns the address of the section's header; the caller's pointer is one
/// section header further.
#[verifier::loop_isolation(false)]
pub fn place_section_inside_region(region: &mut MmapMemoryRegion, size: usize) -> (r: Option<
    usize,
>)
    requires
        old(region).wf(),
    ensures
        final(region).wf(),
        final(region).base == old(region).base,
        final(region).total_space == old(region).total_space,
        ({
            let s = old(region).sections@;
            let k = section_fit(s, size as int);
            if old(region).space_available < size {
                &&& r is None
                &&& *final(region) == *old(region)
            } else if k < s.len() {
                &&& r == Some(old(region).section_addr(k) as usize)
                &&& final(region).sections@ == s.update(
                    k,
                    MmapMemoryBlockHeader { size: s[k].size, is_free: false },
                )
                &&& final(region).space_available == old(region).space_available - (s[k].size
                    + MMAP_SECTION_HEADER_SIZE)
            } else if sections_footprint(s, s.len() as int) + MMAP_SECTION_HEADER_SIZE + size
                <= old(region).total_space {
                &&& r == Some(old(region).section_addr(s.len() as int) as usize)
                &&& final(region).sections@ == s.push(
                    MmapMemoryBlockHeader { size: size as usize, is_free: false },
                )
                &&& final(region).space_available == old(region).space_available - (size
                    + MMAP_SECTION_HEADER_SIZE)
            } else {
                &&& r is None
                &&& *final(region) == *old(region)
            }
        }),
{
    let ghost s = region.sections@;
    if region.space_available < size {
        return None;
    }
    let n: usize = region.sections.len();
    let mut cur: usize = 0;
    let mut addr: usize = region.base + MMAP_REGION_HEADER_SIZE;

    while cur < n
        invariant
            region.sections == old(region).sections,
            region.sections@ == s,
            region.base == old(region).base,
            region.total_space == old(region).total_space,
            region.space_available == old(region).space_available,
            cur <= n,
            addr as int == region.section_addr(cur as int),
            forall|k: int|
                0 <= k < cur as int ==> !((#[trigger] s[k]).is_free && s[k].size >= size),
        decreases n - cur,
    {
        proof {
            lemma_sections_footprint_monotonic(s, cur as int + 1, s.len() as int);
        }
        if region.sections[cur].is_free && region.sections[cur].size >= size {
            proof {
                lemma_section_fit_from_is(s, 0, cur as int, size as int);
                lemma_free_section_fits(s, s.len() as int, cur as int);
            }
            let section_size = region.sections[cur].size;
            region.sections[cur] = MmapMemoryBlockHeader::new(section_size, false);
            region.space_available = region.space_available - (section_size
                + MMAP_SECTION_HEADER_SIZE);
            proof {
                lemma_used_space_update(
                    s,
                    s.len() as int,
                    cur as int,
                    MmapMemoryBlockHeader { size: s[cur as int].size, is_free: false },
                );
                lemma_sections_footprint_offset(region.sections@, s, s.len() as int);
            }
            return Some(addr);
        }
        addr = addr + MMAP_SECTION_HEADER_SIZE + region.sections[cur].size;
        cur = cur + 1;
    }
    proof {
        lemma_section_fit_from_is(s, 0, s.len() as int, size as int);
        lemma_sections_footprint_monotonic(s, 0, s.len() as int);
    }
    if MMAP_SECTION_HEADER_SIZE <= region.total_space - (addr - region.base
        - MMAP_REGION_HEADER_SIZE) && size <= region.total_space - (addr - region.base
        - MMAP_REGION_HEADER_SIZE) - MMAP_SECTION_HEADER_SIZE {
        proof {
            lemma_used_space_bounds(s, s.len() as int);
        }
        region.sections.push(MmapMemoryBlockHeader::new(size, false));
        region.space_available = region.space_available - (size + MMAP_SECTION_HEADER_SIZE);
        proof {
            lemma_used_space_agree(region.sections@, s, s.len() as int);
            assert(used_space(region.sections@, region.sections@.len() as int) == used_space(
                s,
                s.len() as int,
            ) + MMAP_SECTION_HEADER_SIZE + size);
            lemma_sections_footprint_offset(region.sections@, s, s.len() as int);
        }
        Some(addr)
    } else {
        None
    }
}

/// Every section of the list is free.
pub open spec fn all_sections_free(s: Seq<MmapMemoryBlockHeader>) -> bool {
    forall|k: int| 0 <= k < s.len() ==> (#[trigger] s[k]).is_free
}

/// A scan for a user address that matched nowhere before `c` and matches at
/// `c` (or ran off the section list) has found the deallocation target.
pub proof fn lemma_find_section_from_is(r: MmapMemoryRegion, j: int, c: int, ptr: int)
    requires
        0 <= j <= c <= r.sections@.len(),
        forall|k: int| j <= k < c ==> #[trigger] r.user_addr(k) != ptr,
        c < r.sections@.len() ==> r.user_addr(c) == ptr,
    ensures
        r.find_section_from(j, ptr) == c,
    decreases c - j,
{
    if j < c {
        lemma_find_section_from_is(r, j + 1, c, ptr);
    }
}

/// Mark the in-use section `k` free again and give its footprint back to the
/// region's available counter.  The section keeps its size: freed sections
/// are never coalesced with their neighbours.
fn free_section(region: &mut MmapMemoryRegion, k: usize)
    requires
        old(region).wf(),
        k < old(region).sections@.len(),
        !old(region).sections@[k as int].is_free,
    ensures
        final(region).wf(),
        final(region).base == old(region).base,
        final(region).total_space == old(region).total_space,
        final(region).sections@ == old(region).sections@.update(
            k as int,
            MmapMemoryBlockHeader { size: old(region).sections@[k as int].size, is_free: true },
        ),
        final(region).space_available == old(region).space_available + (old(
            region,
        ).sections@[k as int].size + MMAP_SECTION_HEADER_SIZE),
{
    let ghost s = region.sections@;
    proof {
        lemma_used_section_charged(s, s.len() as int, k as int);
        lemma_used_space_bounds(s, s.len() as int);
    }
    let section_size = region.sections[k].size;
    region.sections[k] = MmapMemoryBlockHeader::new(section_size, true);
    region.space_available = region.space_available + (section_size + MMAP_SECTION_HEADER_SIZE);
    proof {
        lemma_used_space_update(
            s,
            s.len() as int,
            k as int,
            MmapMemoryBlockHeader { size: s[k as int].size, is_free: true },
        );
        lemma_sections_footprint_offset(region.sections@, s, s.len() as int);
    }
}

/// Whether every section of the region is free, so that the whole region can
/// be given back to the operating system.
fn region_all_free(region: &MmapMemoryRegion) -> (b: bool)
    ensures
        b == all_sections_free(region.sections@),
{
    let n: usize = region.sections.len();
    let mut k: usize = 0;
    while k < n
        invariant
            k <= n,
            n == region.sections@.len(),
            forall|q: int| 0 <= q < k as int ==> (#[trigger] region.sections@[q]).is_free,
        decreases n - k,
    {
        if !region.sections[k].is_free {
            return false;
        }
        k = k + 1;
    }
    true
}

/// First address past a region's mapped block.
pub open spec fn region_end(r: MmapMemoryRegion) -> int {
    r.base + MMAP_REGION_HEADER_SIZE + r.total_space
}

/// Region `r` can serve a `size`-byte placement: its available counter holds
/// the request, and either a free section fits or there is room to carve a
/// new section after the last one.
pub open spec fn region_can_place(r: MmapMemoryRegion, size: int) -> bool {
    &&& r.space_available >= size
    &&& (section_fit(r.sections@, size) < r.sections@.len() || sections_footprint(
        r.sections@,
        r.sections@.len() as int,
    ) + MMAP_SECTION_HEADER_SIZE + size <= r.total_space)
}

/// The first region at or after `i` that can serve a `size`-byte placement,
/// or the length of the region list when none can.
pub open spec fn first_region_from(rs: Seq<MmapMemoryRegion>, i: int, size: int) -> int
    decreases rs.len() - i,
{
    if i < 0 || i >= rs.len() {
        rs.len() as int
    } else if region_can_place(rs[i], size) {
        i
    } else {
        first_region_from(rs, i + 1, size)
    }
}

/// The region a first-fit search serves a `size`-byte request from, or the
/// length of the region list when a new region must be mapped.
pub open spec fn first_region(rs: Seq<MmapMemoryRegion>, size: int) -> int {
    first_region_from(rs, 0, size)
}

/// A scan that found no region able to place before `c` and one at `c` (or
/// ran off the list) has found the first such region.
pub proof fn lemma_first_region_from_is(rs: Seq<MmapMemoryRegion>, j: int, c: int, size: int)
    requires
        0 <= j <= c <= rs.len(),
        forall|k: int| j <= k < c ==> !region_can_place(#[trigger] rs[k], size),
        c < rs.len() ==> region_can_place(rs[c], size),
    ensures
        first_region_from(rs, j, size) == c,
    decreases c - j,
{
    if j < c {
        lemma_first_region_from_is(rs, j + 1, c, size);
    }
}

/// How a `size`-byte placement changed region `pre_r` into `post_r` and what
/// pointer it produced: the first fitting free section was reused as it
/// stands, or a new section was carved after the last one.
pub open spec fn placed_in_region(
    pre_r: MmapMemoryRegion,
    post_r: MmapMemoryRegion,
    size: int,
    r: Option<usize>,
) -> bool {
    let s = pre_r.sections@;
    let k = section_fit(s, size);
    &&& post_r.base == pre_r.base
    &&& post_r.total_space == pre_r.total_space
    &&& if k < s.len() {
        &&& r == Some(pre_r.user_addr(k) as usize)
        &&& s[k].size >= size
        &&& post_r.sections@ == s.update(
            k,
            MmapMemoryBlockHeader { size: s[k].size, is_free: false },
        )
        &&& post_r.space_available == pre_r.space_available - (s[k].size
            + MMAP_SECTION_HEADER_SIZE)
    } else {
        &&& r == Some(pre_r.user_addr(s.len() as int) as usize)
        &&& post_r.sections@ == s.push(
            MmapMemoryBlockHeader { size: size as usize, is_free: false },
        )
        &&& post_r.space_available == pre_r.space_available - (size + MMAP_SECTION_HEADER_SIZE)
    }
}

/// The first region holding a section at user address `ptr`, scanning from
/// region `i`; the region count when none does.
pub open spec fn find_region_from(rs: Seq<MmapMemoryRegion>, i: int, ptr: int) -> int
    decreases rs.len() - i,
{
    if i < 0 || i >= rs.len() {
        rs.len() as int
    } else if rs[i].find_section(ptr) < rs[i].sections@.len() {
        i
    } else {
        find_region_from(rs, i + 1, ptr)
    }
}

/// The region a deallocation of `ptr` acts on, or the region count when no
/// region holds a matching section.
pub open spec fn find_region(rs: Seq<MmapMemoryRegion>, ptr: int) -> int {
    find_region_from(rs, 0, ptr)
}

/// A scan that found no matching section in the regions before `c` and one
/// in region `c` (or ran off the region list) has found the deallocation
/// target.
pub proof fn lemma_find_region_from_is(rs: Seq<MmapMemoryRegion>, j: int, c: int, ptr: int)
    requires
        0 <= j <= c <= rs.len(),
        forall|k: int|
            j <= k < c ==> (#[trigger] rs[k]).find_section(ptr) == rs[k].sections@.len(),
        c < rs.len() ==> rs[c].find_section(ptr) < rs[c].sections@.len(),
    ensures
        find_region_from(rs, j, ptr) == c,
    decreases c - j,
{
    if j < c {
        lemma_find_region_from_is(rs, j + 1, c, ptr);
    }
}

/// The region allocation engine: a list of mapped regions in address order,
/// together with the model of the operating system's mapping primitive.
///
/// In a running process this state is the single list head behind the
/// engine's lock; here the exclusive access the lock grants is expressed by
/// `&mut` ownership of the handle.  The operating system is modelled by an
/// address cursor: each new region is mapped at `next_map_addr`, the cursor
/// only grows, addresses of unmapped regions are never handed out again, and
/// a request that would pass `map_limit` is refused.
pub struct MmapAllocator {
    /// All mapped regions, in address order.
    pub regions: Vec<MmapMemoryRegion>,
    /// The operating system's page granularity.
    pub page_size: usize,
    /// Model of the mapping primitive: where the next region would be mapped.
    pub next_map_addr: usize,
    /// Model of the mapping primitive: the first address it will not grant.
    pub map_limit: usize,
}

impl MmapAllocator {
    /// Every region is well formed, they sit disjoint in address order below
    /// the mapping cursor, and the cursor has not passed its limit.
    pub open spec fn wf(self) -> bool {
        &&& 1 <= self.page_size
        &&& self.next_map_addr <= self.map_limit
        &&& forall|i: int| 0 <= i < self.regions@.len() ==> (#[trigger] self.regions@[i]).wf()
        &&& forall|i: int|
            0 <= i < self.regions@.len() ==> region_end(#[trigger] self.regions@[i])
                <= self.next_map_addr
        &&& forall|i: int, j: int|
            0 <= i < j < self.regions@.len() ==> region_end(#[trigger] self.regions@[i])
                <= (#[trigger] self.regions@[j]).base
    }

    /// A fresh engine holding no regions, mapping from `map_base` upwards.
    pub fn new(page_size: usize, map_base: usize, map_limit: usize) -> (a: MmapAllocator)
        requires
            1 <= page_size,
            map_base <= map_limit,
        ensures
            a.wf(),
            a.page_size == page_size,
            a.next_map_addr == map_base,
            a.map_limit == map_limit,
            a.regions@.len() == 0,
    {
        MmapAllocator { regions: Vec::new(), page_size, next_map_addr: map_base, map_limit }
    }

    /// Allocate `size` bytes and return the user address.
    ///
    /// First-fit over the regions: the scan places the request in the first
    /// region whose available space and layout can serve it.  When none can,
    /// a fresh region rounded up to whole pages is mapped; if even the fresh
    /// region cannot hold the section behind its headers, it is unmapped
    /// again before anything becomes visible, and the request fails.  None
    /// is returned exactly when no region can serve the request and the
    /// operating system refuses a new one or the fresh region is too tight.
    #[verifier::loop_isolation(false)]
    pub fn allocate(&mut self, size: usize) -> (r: Option<usize>)
        requires
            old(self).wf(),
            size + MMAP_REGION_HEADER_SIZE + old(self).page_size - 1 <= usize::MAX,
        ensures
            final(self).wf(),
            final(self).page_size == old(self).page_size,
            final(self).map_limit == old(self).map_limit,
            ({
                let rs = old(self).regions@;
                let i = first_region(rs, size as int);
                let block = spec_align_up(
                    size + MMAP_REGION_HEADER_SIZE,
                    old(self).page_size as int,
                );
                if i < rs.len() {
                    &&& final(self).regions@.len() == rs.len()
                    &&& forall|j: int|
                        0 <= j < rs.len() && j != i ==> final(self).regions@[j] == rs[j]
                    &&& placed_in_region(rs[i], final(self).regions@[i], size as int, r)
                    &&& final(self).next_map_addr == old(self).next_map_addr
                } else if old(self).next_map_addr + block <= old(self).map_limit {
                    &&& final(self).next_map_addr == old(self).next_map_addr + block
                    &&& if MMAP_SECTION_HEADER_SIZE + size <= block - MMAP_REGION_HEADER_SIZE {
                        &&& r == Some(
                            (old(self).next_map_addr + MMAP_REGION_HEADER_SIZE
                                + MMAP_SECTION_HEADER_SIZE) as usize,
                        )
                        &&& final(self).regions@.len() == rs.len() + 1
                        &&& forall|j: int|
                            0 <= j < rs.len() ==> final(self).regions@[j] == rs[j]
                        &&& ({
                            let nr = final(self).regions@[rs.len() as int];
                            &&& nr.base == old(self).next_map_addr
                            &&& nr.total_space == block - MMAP_REGION_HEADER_SIZE
                            &&& nr.space_available == nr.total_space - (size
                                + MMAP_SECTION_HEADER_SIZE)
                            &&& nr.sections@ == seq![
                                MmapMemoryBlockHeader { size: size as usize, is_free: false },
                            ]
                        })
                    } else {
                        &&& r is None
                        &&& final(self).regions@ == old(self).regions@
                    }
                } else {
                    &&& r is None
                    &&& final(self).regions@ == old(self).regions@
                    &&& final(self).next_map_addr == old(self).next_map_addr
                }
            }),
    {
        let ghost rs = self.regions@;
        let n: usize = self.regions.len();
        let mut idx: usize = 0;

        while idx < n
            invariant
                self.wf(),
                self.regions@ == rs,
                self.next_map_addr == old(self).next_map_addr,
                self.page_size == old(self).page_size,
                self.map_limit == old(self).map_limit,
                idx <= n,
                forall|k: int| 0 <= k < idx as int ==> !region_can_place(#[trigger] rs[k], size as int),
            decreases n - idx,
        {
            if self.regions[idx].space_available >= size {
                let placed = place_section_inside_region(&mut self.regions[idx], size);
                match placed {
                    Some(section_addr) => {
                        proof {
                            assert(old(self).regions@[idx as int] == rs[idx as int]);
                            let pre_r = rs[idx as int];
                            assert(pre_r.wf());
                            let k = section_fit(pre_r.sections@, size as int);
                            lemma_section_fit_from_props(pre_r.sections@, 0, size as int);
                            assert(region_can_place(pre_r, size as int));
                            lemma_first_region_from_is(rs, 0, idx as int, size as int);
                            let s2 = pre_r.sections@;
                            lemma_sections_footprint_monotonic(s2, 0, k);
                            lemma_sections_footprint_monotonic(s2, k, s2.len() as int);
                            if k < s2.len() {
                                lemma_sections_footprint_monotonic(s2, k + 1, s2.len() as int);
                                assert(0 <= pre_r.section_addr(k) + MMAP_SECTION_HEADER_SIZE
                                    <= usize::MAX);
                            } else {
                                assert(0 <= pre_r.section_addr(s2.len() as int)
                                    + MMAP_SECTION_HEADER_SIZE <= usize::MAX);
                            }
                            assert(section_addr + MMAP_SECTION_HEADER_SIZE <= usize::MAX);
                            assert forall|i2: int, j2: int|
                                0 <= i2 < j2 < self.regions@.len() implies region_end(
                                #[trigger] self.regions@[i2],
                            ) <= (#[trigger] self.regions@[j2]).base by {
                                assert(region_end(self.regions@[i2]) == region_end(rs[i2]));
                                assert(self.regions@[j2].base == rs[j2].base);
                            }
                            assert forall|i2: int|
                                0 <= i2 < self.regions@.len() implies (
                            #[trigger] self.regions@[i2]).wf() by {
                                if i2 != idx as int {
                                    assert(self.regions@[i2] == rs[i2]);
                                }
                            }
                            assert forall|i2: int|
                                0 <= i2 < self.regions@.len() implies region_end(
                                #[trigger] self.regions@[i2],
                            ) <= self.next_map_addr by {
                                assert(region_end(self.regions@[i2]) == region_end(rs[i2]));
                            }
                        }
                        return Some(section_addr + MMAP_SECTION_HEADER_SIZE);
                    },
                    None => {
                        proof {
                            assert(self.regions@ =~= rs);
                            assert(!region_can_place(rs[idx as int], size as int));
                        }
                    },
                }
            }
            idx = idx + 1;
        }
        proof {
            lemma_first_region_from_is(rs, 0, rs.len() as int, size as int);
        }
        let new_region = allocate_region(self, size);
        match new_region {
            None => None,
            Some(mut region) => {
                let placed = place_section_inside_region(&mut region, size);
                match placed {
                    Some(section_addr) => {
                        let ghost reg_post = region;
                        self.regions.push(region);
                        proof {
                            assert(self.regions@ =~= rs.push(reg_post));
                            assert(reg_post.sections@ =~= seq![
                                MmapMemoryBlockHeader { size: size as usize, is_free: false },
                            ]);
                            assert forall|i2: int, j2: int|
                                0 <= i2 < j2 < self.regions@.len() implies region_end(
                                #[trigger] self.regions@[i2],
                            ) <= (#[trigger] self.regions@[j2]).base by {
                                if j2 < rs.len() {
                                    assert(self.regions@[i2] == rs[i2]);
                                    assert(self.regions@[j2] == rs[j2]);
                                }
                            }
                        }
                        Some(section_addr + MMAP_SECTION_HEADER_SIZE)
                    },
                    None => {
                        deallocate_region(region);
                        None
                    },
                }
            },
        }
    }
    /// Deallocate the section previously returned at user address `usr_data`.
    ///
    /// The matching section is marked free and keeps its size; when that leaves
    /// every section of its region free, the whole region is unmapped and
    /// disappears from the list.  An address no section matches, or one whose
    /// section is already free, changes nothing.
    #[verifier::loop_isolation(false)]
    pub fn deallocate(&mut self, usr_data: usize)
        requires
            old(self).wf(),
        ensures
            final(self).wf(),
            final(self).page_size == old(self).page_size,
            final(self).map_limit == old(self).map_limit,
            final(self).next_map_addr == old(self).next_map_addr,
            ({
                let rs = old(self).regions@;
                let i = find_region(rs, usr_data as int);
                if i == rs.len() {
                    final(self).regions@ == rs
                } else {
                    let reg = rs[i];
                    let k = reg.find_section(usr_data as int);
                    let freed = MmapMemoryBlockHeader { size: reg.sections@[k].size, is_free: true };
                    if reg.sections@[k].is_free {
                        final(self).regions@ == rs
                    } else if all_sections_free(reg.sections@.update(k, freed)) {
                        final(self).regions@ == rs.remove(i)
                    } else {
                        &&& final(self).regions@.len() == rs.len()
                        &&& forall|j: int| 0 <= j < rs.len() && j != i ==> final(self).regions@[j] == rs[j]
                        &&& final(self).regions@[i].base == reg.base
                        &&& final(self).regions@[i].total_space == reg.total_space
                        &&& final(self).regions@[i].sections@ == reg.sections@.update(k, freed)
                        &&& final(self).regions@[i].space_available == reg.space_available
                            + (reg.sections@[k].size + MMAP_SECTION_HEADER_SIZE)
                    }
                }
            }),
    {
        let ghost rs = self.regions@;
        let region_count: usize = self.regions.len();
        let mut i: usize = 0;

        while i < region_count
            invariant
                self.wf(),
                self.regions@ == rs,
                self.page_size == old(self).page_size,
                self.map_limit == old(self).map_limit,
                self.next_map_addr == old(self).next_map_addr,
                i <= region_count,
                region_count == rs.len(),
                forall|q: int|
                    0 <= q < i as int ==> (#[trigger] rs[q]).find_section(usr_data as int)
                        == rs[q].sections@.len(),
            decreases region_count - i,
        {
            let ghost reg = rs[i as int];
            proof {
                assert(old(self).regions@[i as int] == rs[i as int]);
                assert(reg.wf());
            }
            let section_count: usize = self.regions[i].sections.len();
            let mut k: usize = 0;
            let mut addr: usize = self.regions[i].base + MMAP_REGION_HEADER_SIZE;

            while k < section_count
                invariant
                    self.wf(),
                    self.regions@ == rs,
                    self.page_size == old(self).page_size,
                    self.map_limit == old(self).map_limit,
                    self.next_map_addr == old(self).next_map_addr,
                    i < rs.len(),
                    region_count == rs.len(),
                    reg == rs[i as int],
                    reg.wf(),
                    k <= section_count,
                    section_count == reg.sections@.len(),
                    addr as int == reg.section_addr(k as int),
                    forall|q: int|
                        0 <= q < i as int ==> (#[trigger] rs[q]).find_section(usr_data as int)
                            == rs[q].sections@.len(),
                    forall|q: int| 0 <= q < k as int ==> #[trigger] reg.user_addr(q) != usr_data,
                decreases section_count - k,
            {
                proof {
                    lemma_sections_footprint_monotonic(reg.sections@, k as int + 1, section_count as int);
                }
                if addr + MMAP_SECTION_HEADER_SIZE == usr_data {
                    proof {
                        lemma_find_section_from_is(reg, 0, k as int, usr_data as int);
                        lemma_find_region_from_is(rs, 0, i as int, usr_data as int);
                    }
                    if self.regions[i].sections[k].is_free {
                        return;
                    }
                    free_section(&mut self.regions[i], k);
                    proof {
                        assert forall|i2: int|
                            0 <= i2 < self.regions@.len() implies (#[trigger] self.regions@[i2]).wf()
                                && region_end(self.regions@[i2]) <= self.next_map_addr by {
                            if i2 != i as int {
                                assert(self.regions@[i2] == rs[i2]);
                            }
                        }
                        assert forall|i2: int, j2: int|
                            0 <= i2 < j2 < self.regions@.len() implies region_end(
                            #[trigger] self.regions@[i2],
                        ) <= (#[trigger] self.regions@[j2]).base by {
                            assert(region_end(self.regions@[i2]) == region_end(rs[i2]));
                            assert(self.regions@[j2].base == rs[j2].base);
                        }
                    }
                    let all_free = region_all_free(&self.regions[i]);
                    if all_free {
                        let ghost before_removal = self.regions@;
                        let removed = self.regions.remove(i);
                        deallocate_region(removed);
                        proof {
                            assert(self.regions@ =~= rs.remove(i as int));
                            assert forall|i2: int|
                                0 <= i2 < self.regions@.len() implies (#[trigger] self.regions@[i2]).wf()
                                    && region_end(self.regions@[i2]) <= self.next_map_addr by {
                                if i2 < i as int {
                                    assert(self.regions@[i2] == rs[i2]);
                                } else {
                                    assert(self.regions@[i2] == rs[i2 + 1]);
                                }
                            }
                            assert forall|i2: int, j2: int|
                                0 <= i2 < j2 < self.regions@.len() implies region_end(
                                #[trigger] self.regions@[i2],
                            ) <= (#[trigger] self.regions@[j2]).base by {
                                let oi = if i2 < i as int { i2 } else { i2 + 1 };
                                let oj = if j2 < i as int { j2 } else { j2 + 1 };
                                assert(self.regions@[i2] == rs[oi]);
                                assert(self.regions@[j2] == rs[oj]);
                            }
                        }
                    }
                    return;
                }
                addr = addr + MMAP_SECTION_HEADER_SIZE + self.regions[i].sections[k].size;
                k = k + 1;
            }
            proof {
                lemma_find_section_from_is(reg, 0, section_count as int, usr_data as int);
            }
            i = i + 1;
        }
        proof {
            lemma_find_region_from_is(rs, 0, rs.len() as int, usr_data as int);
        }
    }
}

/// Distinct sections of a well-formed region occupy disjoint byte ranges:
/// the payload of the earlier section ends before the header of the later
/// begins, so user pointers within a region are always distinct and usable
/// for their full size.
pub proof fn lemma_sections_disjoint(r: MmapMemoryRegion, i: int, j: int)
    requires
        r.wf(),
        0 <= i < j < r.sections@.len(),
    ensures
        r.user_addr(i) + r.sections@[i].size <= r.section_addr(j),
        r.user_addr(i) < r.user_addr(j),
{
    lemma_sections_footprint_monotonic(r.sections@, i + 1, j);
}

/// Sections of different regions of a well-formed engine occupy disjoint
/// byte ranges: the regions sit disjoint in address order, so user pointers
/// from different regions are always distinct.
pub proof fn lemma_regions_disjoint(a: MmapAllocator, i: int, j: int, k: int, l: int)
    requires
        a.wf(),
        0 <= i < j < a.regions@.len(),
        0 <= k < a.regions@[i].sections@.len(),
        0 <= l < a.regions@[j].sections@.len(),
    ensures
        a.regions@[i].user_addr(k) + a.regions@[i].sections@[k].size <= a.regions@[j].user_addr(
            l,
        ),
        a.regions@[i].user_addr(k) < a.regions@[j].user_addr(l),
{
    let ri = a.regions@[i];
    let rj = a.regions@[j];
    lemma_sections_footprint_monotonic(ri.sections@, k + 1, ri.sections@.len() as int);
    lemma_sections_footprint_monotonic(rj.sections@, 0, l);
}

/// A placement scan stays within the section list and lands on a free fit
/// when it finds one.
pub proof fn lemma_section_fit_from_props(s: Seq<MmapMemoryBlockHeader>, k: int, size: int)
    requires
        0 <= k <= s.len(),
    ensures
        k <= section_fit_from(s, k, size) <= s.len(),
        section_fit_from(s, k, size) < s.len() ==> s[section_fit_from(s, k, size)].is_free
            && s[section_fit_from(s, k, size)].size >= size,
    decreases s.len() - k,
{
    if k < s.len() && !(s[k].is_free && s[k].size >= size) {
        lemma_section_fit_from_props(s, k + 1, size);
    }
}

/// Map a fresh region able to hold `size` bytes behind its region header,
/// rounded up to whole pages, or report that the operating system refused.
///
/// The region is returned detached: the caller decides whether to link it
/// into the list or to give it back on a failed placement.
pub fn allocate_region(a: &mut MmapAllocator, size: usize) -> (r: Option<MmapMemoryRegion>)
    requires
        old(a).wf(),
        size + MMAP_REGION_HEADER_SIZE + old(a).page_size - 1 <= usize::MAX,
    ensures
        final(a).wf(),
        final(a).regions == old(a).regions,
        final(a).page_size == old(a).page_size,
        final(a).map_limit == old(a).map_limit,
        ({
            let block = spec_align_up(
                size + MMAP_REGION_HEADER_SIZE,
                old(a).page_size as int,
            );
            if old(a).next_map_addr + block <= old(a).map_limit {
                &&& r is Some
                &&& (r matches Some(reg) ==> {
                    &&& reg.wf()
                    &&& reg.base == old(a).next_map_addr
                    &&& reg.total_space == block - MMAP_REGION_HEADER_SIZE
                    &&& reg.space_available == reg.total_space
                    &&& reg.sections@ == Seq::<MmapMemoryBlockHeader>::empty()
                })
                &&& final(a).next_map_addr == old(a).next_map_addr + block
            } else {
                &&& r is None
                &&& *final(a) == *old(a)
            }
        }),
{
    proof {
        crate::align::lemma_align_up_bounds(
            size + MMAP_REGION_HEADER_SIZE,
            a.page_size as int,
        );
    }
    let block = round_up_to_page_size(size + MMAP_REGION_HEADER_SIZE, a.page_size);
    if block <= a.map_limit - a.next_map_addr {
        let base = a.next_map_addr;
        let region = MmapMemoryRegion::new(
            base,
            block - MMAP_REGION_HEADER_SIZE,
            block - MMAP_REGION_HEADER_SIZE,
        );
        a.next_map_addr = a.next_map_addr + block;
        Some(region)
    } else {
        None
    }
}

/// Give a region's pages back to the operating system.
///
/// In the model the address range is simply retired: the cursor never moves
/// back, so addresses of unmapped regions are never handed out again.
pub fn deallocate_region(region: MmapMemoryRegion) {
    let _ = region;
}

/// Round `size` up to the next multiple of the operating system's page
/// granularity, so that whole pages are requested for each region.
pub fn round_up_to_page_size(size: usize, page_size: usize) -> (r: usize)
    requires
        1 <= page_size,
        size + page_size - 1 <= usize::MAX,
    ensures
        r == spec_align_up(size as int, page_size as int),
{
    let rem: usize = size % page_size;
    if rem == 0 {
        size
    } else {
        size + (page_size - rem)
    }
}

} // verus!


//! Bump allocation engine: one contiguous arena grown and shrunk at its top
//! by the program-break boundary, tiled without gaps by blocks that each
//! carry a fixed-size header.
//!
//! The arena is modelled by the list of block headers in address order
//! together with a [`Heap`] boundary: the address of every block is the
//! arena base plus the footprint (header plus payload) of the blocks before
//! it, and the boundary always sits exactly at the end of the last block.
//! Allocation is first-fit with lazy coalescing: adjacent free blocks are
//! merged only when the search meets a free block too small for the request.
//! Only a freed block at the tail of the arena gives memory back to the
//! operating system, because the break can only release the topmost bytes.

use vstd::prelude::*;
use crate::align::{align_up, spec_align_up};
use crate::heap::Heap;

verus! {

/// Bytes that one block header occupies in the managed arena.
pub const BUMP_HEADER_SIZE: usize = 24;

/// Metadata kept at the start of every chunk of the bump arena.
///
/// In the arena the header is followed by `size` payload bytes; the links of
/// the block list are the order of the headers themselves.
pub struct BumpMemoryBlockHeader {
    /// Usable payload bytes of the block, not counting the header.
    pub size: usize,
    /// Whether the payload is currently available for reuse.
    pub is_free: bool,
}

impl BumpMemoryBlockHeader {
    /// A fresh header for a block of `size` payload bytes.
    pub fn new(size: usize, is_free: bool) -> (h: BumpMemoryBlockHeader)
        ensures
            h.size == size,
            h.is_free == is_free,
    {
        BumpMemoryBlockHeader { size, is_free }
    }

    /// Bytes the header itself occupies in the arena.
    pub fn size() -> (r: usize)
        ensures
            r == BUMP_HEADER_SIZE,
    {
        BUMP_HEADER_SIZE
    }
}

/// Arena bytes occupied by the first `n` blocks: each contributes its header
/// and its payload.
pub open spec fn footprint(s: Seq<BumpMemoryBlockHeader>, n: int) -> int
    decreases n,
{
    if n <= 0 {
        0
    } else {
        footprint(s, n - 1) + BUMP_HEADER_SIZE + s[n - 1].size
    }
}

/// The footprint never shrinks as more blocks are counted.
pub proof fn lemma_footprint_monotonic(s: Seq<BumpMemoryBlockHeader>, i: int, j: int)
    requires
        i <= j,
    ensures
        footprint(s, i) <= footprint(s, j),
    decreases j - i,
{
    if i < j {
        lemma_footprint_monotonic(s, i, j - 1);
    }
}

/// Two block lists whose payload sizes agree element-wise (up to an index
/// shift) have equal footprints over the agreeing range.
pub proof fn lemma_footprint_offset(
    t: Seq<BumpMemoryBlockHeader>,
    s: Seq<BumpMemoryBlockHeader>,
    a: int,
    b: int,
    off: int,
)
    requires
        0 <= a <= b,
        0 <= a + off,
        footprint(t, a) == footprint(s, a + off),
        forall|d: int| a <= d < b ==> (#[trigger] t[d]).size == s[d + off].size,
    ensures
        footprint(t, b) == footprint(s, b + off),
    decreases b - a,
{
    if a < b {
        lemma_footprint_offset(t, s, a, b - 1, off);
        assert(t[b - 1].size == s[b - 1 + off].size);
    }
}

/// Blocks `i` through `j` are all free.
pub open spec fn run_free(s: Seq<BumpMemoryBlockHeader>, i: int, j: int) -> bool {
    forall|k: int| i <= k <= j ==> (#[trigger] s[k]).is_free
}

/// Usable payload of the single block that blocks `i` through `j` would form
/// if merged: their sizes plus the headers of the absorbed blocks.
pub open spec fn run_size(s: Seq<BumpMemoryBlockHeader>, i: int, j: int) -> int {
    footprint(s, j + 1) - footprint(s, i) - BUMP_HEADER_SIZE
}

/// A request of `size` bytes can be served at block `i` by merging `i` with
/// some range of free blocks after it.
pub open spec fn fit_from(s: Seq<BumpMemoryBlockHeader>, i: int, size: int) -> bool {
    exists|j: int|
        i <= j < s.len() && #[trigger] run_free(s, i, j) && run_size(s, i, j) >= size
}

/// The first index at or after `i` where a `size`-byte request fits, or the
/// length of the list when none does.
pub open spec fn first_fit_from(s: Seq<BumpMemoryBlockHeader>, i: int, size: int) -> int
    decreases s.len() - i,
{
    if i < 0 || i >= s.len() {
        s.len() as int
    } else if fit_from(s, i, size) {
        i
    } else {
        first_fit_from(s, i + 1, size)
    }
}

/// The index where first-fit search serves a `size`-byte request, or the
/// length of the list when the request needs fresh memory.
pub open spec fn first_fit(s: Seq<BumpMemoryBlockHeader>, size: int) -> int {
    first_fit_from(s, 0, size)
}

/// The last block a merge starting at block `i` absorbs: scanning from `j`,
/// the run is extended until it reaches `size` bytes, leaves the list, or
/// meets a block in use.
pub open spec fn merge_end_from(s: Seq<BumpMemoryBlockHeader>, i: int, j: int, size: int) -> int
    decreases s.len() - j,
{
    if j < 0 || j + 1 >= s.len() || run_size(s, i, j) >= size || !s[j + 1].is_free {
        j
    } else {
        merge_end_from(s, i, j + 1, size)
    }
}

/// The last block a merge starting at block `i` absorbs for a `size`-byte
/// request.
pub open spec fn merge_end(s: Seq<BumpMemoryBlockHeader>, i: int, size: int) -> int {
    merge_end_from(s, i, i, size)
}

/// The block list after blocks `i` through `m` are merged into one block of
/// their combined payload.
pub open spec fn merged_blocks(
    s: Seq<BumpMemoryBlockHeader>,
    i: int,
    m: int,
    is_free: bool,
) -> Seq<BumpMemoryBlockHeader> {
    s.subrange(0, i) + seq![
        BumpMemoryBlockHeader { size: run_size(s, i, m) as usize, is_free },
    ] + s.subrange(m + 1, s.len() as int)
}

/// A first-fit scan that found no fit before `c` and a fit at `c` (or ran
/// off the list) has found the first fit.
pub proof fn lemma_first_fit_from_is(s: Seq<BumpMemoryBlockHeader>, j: int, c: int, size: int)
    requires
        0 <= j <= c <= s.len(),
        forall|k: int| j <= k < c ==> !fit_from(s, k, size),
        c < s.len() ==> fit_from(s, c, size),
    ensures
        first_fit_from(s, j, size) == c,
    decreases c - j,
{
    if j < c {
        lemma_first_fit_from_is(s, j + 1, c, size);
    }
}

/// A scan for a user address that matched nowhere before `c` and matches at
/// `c` (or ran off the list) has found the deallocation target.
pub proof fn lemma_find_block_from_is(a: BumpAllocator, j: int, c: int, ptr: int)
    requires
        0 <= j <= c <= a.blocks@.len(),
        forall|k: int| j <= k < c ==> #[trigger] a.user_addr(k) != ptr,
        c < a.blocks@.len() ==> a.user_addr(c) == ptr,
    ensures
        a.find_block_from(j, ptr) == c,
    decreases c - j,
{
    if j < c {
        lemma_find_block_from_is(a, j + 1, c, ptr);
    }
}

/// A first-fit scan stays within the list and lands on a fit when it finds
/// one.
pub proof fn lemma_first_fit_from_props(s: Seq<BumpMemoryBlockHeader>, i: int, size: int)
    requires
        0 <= i <= s.len(),
    ensures
        i <= first_fit_from(s, i, size) <= s.len(),
        first_fit_from(s, i, size) < s.len() ==> fit_from(s, first_fit_from(s, i, size), size),
    decreases s.len() - i,
{
    if i < s.len() && !fit_from(s, i, size) {
        lemma_first_fit_from_props(s, i + 1, size);
    }
}

/// The merge scan stays within the free run and stops only once the request
/// is reached or the run ends.
pub proof fn lemma_merge_end_props(s: Seq<BumpMemoryBlockHeader>, i: int, j: int, size: int)
    requires
        0 <= i <= j < s.len(),
        run_free(s, i, j),
    ensures
        ({
            let m = merge_end_from(s, i, j, size);
            &&& j <= m < s.len()
            &&& run_free(s, i, m)
            &&& run_size(s, i, m) >= size || m + 1 == s.len() || !s[m + 1].is_free
        }),
    decreases s.len() - j,
{
    if !(j + 1 >= s.len() || run_size(s, i, j) >= size || !s[j + 1].is_free) {
        assert(run_free(s, i, j + 1));
        lemma_merge_end_props(s, i, j + 1, size);
    }
}

/// Where a request fits, merging from that block reaches the requested size.
pub proof fn lemma_fit_merge_reaches(s: Seq<BumpMemoryBlockHeader>, i: int, size: int)
    requires
        0 <= i < s.len(),
        fit_from(s, i, size),
    ensures
        s[i].is_free,
        run_size(s, i, merge_end(s, i, size)) >= size,
{
    let j0 = choose|j: int|
        i <= j < s.len() && #[trigger] run_free(s, i, j) && run_size(s, i, j) >= size;
    assert(s[i].is_free);
    assert(run_free(s, i, i));
    lemma_merge_end_props(s, i, i, size);
    let m = merge_end(s, i, size);
    if run_size(s, i, m) < size {
        if j0 <= m {
            lemma_footprint_monotonic(s, j0 + 1, m + 1);
        } else {
            assert(s[m + 1].is_free);
        }
    }
}

/// No request of `size` bytes fits anywhere inside a maximal free run whose
/// combined payload is still short of `size`.
pub proof fn lemma_no_fit_within_run(s: Seq<BumpMemoryBlockHeader>, start: int, m: int, size: int)
    requires
        0 <= start <= m < s.len(),
        run_free(s, start, m),
        run_size(s, start, m) < size,
        m + 1 == s.len() || !s[m + 1].is_free,
    ensures
        forall|k: int| start <= k <= m ==> !fit_from(s, k, size),
{
    assert forall|k: int| start <= k <= m implies !fit_from(s, k, size) by {
        if fit_from(s, k, size) {
            let j = choose|j: int|
                k <= j < s.len() && #[trigger] run_free(s, k, j) && run_size(s, k, j) >= size;
            if j > m {
                assert(s[m + 1].is_free);
            } else {
                lemma_footprint_monotonic(s, j + 1, m + 1);
                lemma_footprint_monotonic(s, start, k);
            }
        }
    }
}

/// Merging blocks `i` through `m` keeps the footprint of every prefix that
/// ends at or before `i`, and shifts later prefixes by the absorbed blocks.
pub proof fn lemma_merge_footprints(s: Seq<BumpMemoryBlockHeader>, i: int, m: int, is_free: bool)
    requires
        0 <= i <= m < s.len(),
        run_size(s, i, m) <= usize::MAX,
    ensures
        merged_blocks(s, i, m, is_free).len() == s.len() - (m - i),
        forall|k: int|
            0 <= k <= i ==> footprint(#[trigger] merged_blocks(s, i, m, is_free), k)
                == footprint(s, k),
        forall|k: int|
            i + 1 <= k <= s.len() - (m - i) ==> footprint(
                #[trigger] merged_blocks(s, i, m, is_free),
                k,
            ) == footprint(s, k + (m - i)),
{
    let t = merged_blocks(s, i, m, is_free);
    lemma_footprint_monotonic(s, i + 1, m + 1);
    assert(run_size(s, i, m) >= s[i].size >= 0);
    assert forall|k: int| 0 <= k <= i implies footprint(t, k) == footprint(s, k) by {
        lemma_footprint_offset(t, s, 0, k, 0);
    }
    assert(footprint(t, i + 1) == footprint(t, i) + BUMP_HEADER_SIZE + t[i].size);
    assert(footprint(t, i + 1) == footprint(s, m + 1));
    assert forall|k: int| i + 1 <= k <= s.len() - (m - i) implies footprint(t, k) == footprint(
        s,
        k + (m - i),
    ) by {
        lemma_footprint_offset(t, s, i + 1, k, m - i);
    }
}

/// The bump allocation engine: a growable arena of header-tiled blocks.
///
/// In a running process this state is the single list head behind the
/// engine's lock; here the exclusive access the lock grants is expressed by
/// `&mut` ownership of the handle.
pub struct BumpAllocator {
    /// The program-break boundary that backs the arena.
    pub heap: Heap,
    /// All blocks of the arena, in address order.
    pub blocks: Vec<BumpMemoryBlockHeader>,
}

impl BumpAllocator {
    /// The blocks exactly tile the arena from its base to the boundary.
    pub open spec fn wf(self) -> bool {
        &&& self.heap.wf()
        &&& self.heap.brk == self.heap.base + footprint(
            self.blocks@,
            self.blocks@.len() as int,
        )
    }

    /// Address of the header of block `i`.
    pub open spec fn block_addr(self, i: int) -> int {
        self.heap.base + footprint(self.blocks@, i)
    }

    /// Address handed to the caller for block `i`: just past its header.
    pub open spec fn user_addr(self, i: int) -> int {
        self.block_addr(i) + BUMP_HEADER_SIZE
    }

    /// The first block whose user address is `ptr`, scanning from block
    /// `i`; the list length when no block matches.
    pub open spec fn find_block_from(self, i: int, ptr: int) -> int
        decreases self.blocks@.len() - i,
    {
        if i < 0 || i >= self.blocks@.len() {
            self.blocks@.len() as int
        } else if self.user_addr(i) == ptr {
            i
        } else {
            self.find_block_from(i + 1, ptr)
        }
    }

    /// The block a deallocation of `ptr` acts on: the first block whose user
    /// address is `ptr`, or the list length when no block matches.
    pub open spec fn find_block(self, ptr: int) -> int {
        self.find_block_from(0, ptr)
    }

    /// A fresh engine over an empty arena.
    pub fn new(base: usize, limit: usize) -> (a: BumpAllocator)
        requires
            base <= limit,
        ensures
            a.wf(),
            a.heap.base == base,
            a.heap.brk == base,
            a.heap.limit == limit,
            a.blocks@.len() == 0,
    {
        BumpAllocator { heap: Heap::new(base, limit), blocks: Vec::new() }
    }

    /// Allocate `size` bytes from the arena and return the user address.
    ///
    /// First-fit with lazy coalescing: the scan reuses the first free block
    /// (merged, if needed, with the free blocks adjacent to it) whose payload
    /// holds the request; only when no fit exists is the arena grown by one
    /// aligned block at the top.  None is returned exactly when the request
    /// needs growth and the operating system refuses it, and then nothing
    /// changes.  Blocks in use keep their address and size throughout.
    pub fn qualloc(&mut self, size: i32) -> (r: Option<usize>)
        requires
            old(self).wf(),
            0 <= size,
            size + 7 <= i32::MAX,
        ensures
            final(self).wf(),
            final(self).heap.base == old(self).heap.base,
            final(self).heap.limit == old(self).heap.limit,
            ({
                let s = old(self).blocks@;
                let i = first_fit(s, size as int);
                let grown = BUMP_HEADER_SIZE + spec_align_up(size as int, 8);
                if i < s.len() {
                    &&& r == Some(old(self).user_addr(i) as usize)
                    &&& final(self).blocks@ == merged_blocks(
                        s,
                        i,
                        merge_end(s, i, size as int),
                        false,
                    )
                    &&& final(self).heap == old(self).heap
                } else if old(self).heap.brk + grown <= old(self).heap.limit {
                    &&& r == Some((old(self).heap.brk + BUMP_HEADER_SIZE) as usize)
                    &&& final(self).blocks@ == s.push(
                        BumpMemoryBlockHeader {
                            size: spec_align_up(size as int, 8) as usize,
                            is_free: false,
                        },
                    )
                    &&& final(self).heap.brk == old(self).heap.brk + grown
                } else {
                    &&& r is None
                    &&& *final(self) == *old(self)
                }
            }),
            ({
                let s = old(self).blocks@;
                let i = first_fit(s, size as int);
                let served = if i < s.len() {
                    i
                } else {
                    s.len() as int
                };
                r is Some ==> {
                    &&& served < final(self).blocks@.len()
                    &&& !final(self).blocks@[served].is_free
                    &&& final(self).blocks@[served].size >= size
                    &&& r == Some(final(self).user_addr(served) as usize)
                }
            }),
            preserves_live_blocks(*old(self), *final(self)),
            fresh_pointer(*old(self), r),
    {
        let sz: usize = size as usize;
        let (idx, addr) = self.find_first_fit(sz);
        if idx < self.blocks.len() {
            let p = self.alloc_at_fit(idx, addr, sz);
            Some(p)
        } else {
            match allocate_block(self, size) {
                Some(block_addr) => {
                    proof {
                        crate::align::lemma_align_up_bounds(size as int, 8);
                        lemma_footprint_monotonic(self.blocks@, 0, self.blocks@.len() as int);
                        lemma_grow_preserves_live(
                            *old(self),
                            *self,
                            BumpMemoryBlockHeader {
                                size: spec_align_up(size as int, 8) as usize,
                                is_free: false,
                            },
                        );
                    }
                    Some(block_addr + BUMP_HEADER_SIZE)
                },
                None => {
                    proof {
                        lemma_no_alloc_preserves(*old(self));
                    }
                    None
                },
            }
        }
    }

    /// Serve a request of `sz` bytes at the first-fit block `idx`, whose
    /// header lives at `addr`: merge the free run there as far as needed,
    /// mark the merged block in use and return its user address.
    fn alloc_at_fit(&mut self, idx: usize, addr: usize, sz: usize) -> (r: usize)
        requires
            old(self).wf(),
            idx < old(self).blocks@.len(),
            idx as int == first_fit(old(self).blocks@, sz as int),
            addr as int == old(self).block_addr(idx as int),
        ensures
            final(self).wf(),
            final(self).heap == old(self).heap,
            final(self).blocks@ == merged_blocks(
                old(self).blocks@,
                idx as int,
                merge_end(old(self).blocks@, idx as int, sz as int),
                false,
            ),
            r as int == old(self).user_addr(idx as int),
            r as int == final(self).user_addr(idx as int),
            idx < final(self).blocks@.len(),
            !final(self).blocks@[idx as int].is_free,
            final(self).blocks@[idx as int].size >= sz,
            preserves_live_blocks(*old(self), *final(self)),
            fresh_pointer(*old(self), Some(r)),
    {
        let ghost s = self.blocks@;
        let ghost i = idx as int;
        proof {
            lemma_first_fit_from_props(s, 0, sz as int);
            lemma_fit_merge_reaches(s, i, sz as int);
        }
        let ghost m = merge_end(s, i, sz as int);
        let (merged, _last_scanned) = merge_adjacent_free_blocks(self, idx, sz);
        proof {
            lemma_footprint_monotonic(s, m + 1, s.len() as int);
            lemma_footprint_monotonic(s, 0, i);
        }
        let merged_size = self.blocks[idx].size;
        self.blocks[idx] = BumpMemoryBlockHeader::new(merged_size, false);
        proof {
            assert(self.blocks@ =~= merged_blocks(s, i, m, false));
            lemma_merge_footprints(s, i, m, false);
            lemma_alloc_preserves_live(*old(self), *self, i, m);
            lemma_footprint_monotonic(s, i + 1, s.len() as int);
        }
        addr + BUMP_HEADER_SIZE
    }

    /// Walk the arena for the first block where `sz` bytes fit, merging
    /// nothing: the scan reads each free run once and skips past runs that
    /// are too small even combined.  Returns the found index and its header
    /// address; when nothing fits, the list length and the boundary address.
    #[verifier::loop_isolation(false)]
    fn find_first_fit(&self, sz: usize) -> (r: (usize, usize))
        requires
            self.wf(),
        ensures
            r.0 as int == first_fit(self.blocks@, sz as int),
            r.1 as int == self.block_addr(r.0 as int),
            r.0 <= self.blocks@.len(),
    {
        let ghost s = self.blocks@;
        let n: usize = self.blocks.len();
        let mut cur: usize = 0;
        let mut addr: usize = self.heap.base;

        while cur < n
            invariant
                cur <= n,
                addr as int == self.block_addr(cur as int),
                forall|k: int| 0 <= k < cur as int ==> !fit_from(s, k, sz as int),
            decreases n - cur,
        {
            if self.blocks[cur].is_free {
                let mut acc: usize = self.blocks[cur].size;
                let mut j: usize = cur;
                while acc < sz && j + 1 < n && self.blocks[j + 1].is_free
                    invariant
                        cur <= j < n,
                        run_free(s, cur as int, j as int),
                        acc == run_size(s, cur as int, j as int),
                    decreases n - j,
                {
                    proof {
                        lemma_footprint_monotonic(s, j as int + 2, s.len() as int);
                        lemma_footprint_monotonic(s, 0, cur as int);
                    }
                    acc = acc + BUMP_HEADER_SIZE + self.blocks[j + 1].size;
                    j = j + 1;
                }
                if acc >= sz {
                    proof {
                        assert(fit_from(s, cur as int, sz as int));
                        lemma_first_fit_from_is(s, 0, cur as int, sz as int);
                    }
                    return (cur, addr);
                }
                proof {
                    lemma_no_fit_within_run(s, cur as int, j as int, sz as int);
                }
                let target: usize = j;
                while cur <= target
                    invariant
                        cur <= target + 1,
                        target < n,
                        addr as int == self.block_addr(cur as int),
                        forall|k: int| 0 <= k < cur as int ==> !fit_from(s, k, sz as int),
                        forall|k: int|
                            cur as int <= k <= target as int ==> !fit_from(s, k, sz as int),
                    decreases target + 1 - cur,
                {
                    proof {
                        lemma_footprint_monotonic(s, cur as int + 1, s.len() as int);
                    }
                    addr = addr + BUMP_HEADER_SIZE + self.blocks[cur].size;
                    cur = cur + 1;
                }
            } else {
                proof {
                    lemma_footprint_monotonic(s, cur as int + 1, s.len() as int);
                    assert forall|jj: int|
                        !(cur as int <= jj < s.len() && #[trigger] run_free(s, cur as int, jj)
                            && run_size(s, cur as int, jj) >= sz) by {
                        if cur as int <= jj < s.len() && run_free(s, cur as int, jj) {
                            assert(s[cur as int].is_free);
                        }
                    }
                }
                addr = addr + BUMP_HEADER_SIZE + self.blocks[cur].size;
                cur = cur + 1;
            }
        }
        proof {
            lemma_first_fit_from_is(s, 0, s.len() as int, sz as int);
        }
        (n, addr)
    }

    /// Deallocate the block previously returned at user address `usr_data`.
    ///
    /// The matching block is marked free.  When it is the tail of the arena
    /// it is removed instead and its header and payload bytes are returned
    /// to the operating system; when the arena held only that block, the
    /// engine is back at its empty state.  An address no block matches
    /// changes nothing.  Blocks in use at other addresses keep their address
    /// and size.
    #[verifier::loop_isolation(false)]
    pub fn qudelloc(&mut self, usr_data: usize)
        requires
            old(self).wf(),
        ensures
            final(self).wf(),
            final(self).heap.base == old(self).heap.base,
            final(self).heap.limit == old(self).heap.limit,
            ({
                let s = old(self).blocks@;
                let i = old(self).find_block(usr_data as int);
                if i == s.len() {
                    *final(self) == *old(self)
                } else if i == s.len() - 1 {
                    &&& final(self).blocks@ == s.subrange(0, i)
                    &&& final(self).heap.brk == old(self).heap.brk - BUMP_HEADER_SIZE - s[i].size
                } else {
                    &&& final(self).blocks@ == s.update(
                        i,
                        BumpMemoryBlockHeader { size: s[i].size, is_free: true },
                    )
                    &&& final(self).heap.brk == old(self).heap.brk
                }
            }),
            preserves_live_blocks_except(*old(self), *final(self), usr_data as int),
    {
        let ghost s = self.blocks@;
        let n: usize = self.blocks.len();
        let mut cur: usize = 0;
        let mut addr: usize = self.heap.base;

        while cur < n
            invariant
                self.blocks == old(self).blocks,
                self.blocks@ == s,
                self.heap == old(self).heap,
                cur <= n,
                addr as int == self.block_addr(cur as int),
                forall|k: int|
                    0 <= k < cur as int ==> #[trigger] old(self).user_addr(k) != usr_data,
            decreases n - cur,
        {
            proof {
                lemma_footprint_monotonic(s, cur as int + 1, s.len() as int);
            }
            if addr + BUMP_HEADER_SIZE == usr_data {
                proof {
                    lemma_find_block_from_is(*old(self), 0, cur as int, usr_data as int);
                }
                if cur + 1 == n {
                    proof {
                        lemma_footprint_monotonic(s, 0, s.len() - 1);
                    }
                    let block_size = self.blocks[cur].size;
                    let _tail = self.blocks.pop();
                    deallocate_block(&mut self.heap, block_size);
                    proof {
                        assert(self.blocks@ =~= s.subrange(0, s.len() - 1));
                        lemma_dealloc_tail_preserves(*old(self), *self);
                    }
                } else {
                    let block_size = self.blocks[cur].size;
                    self.blocks[cur] = BumpMemoryBlockHeader::new(block_size, true);
                    proof {
                        lemma_free_in_place_preserves(*old(self), *self, cur as int);
                    }
                }
                return;
            }
            addr = addr + BUMP_HEADER_SIZE + self.blocks[cur].size;
            cur = cur + 1;
        }
        proof {
            lemma_find_block_from_is(*old(self), 0, s.len() as int, usr_data as int);
            lemma_no_dealloc_preserves(*self, usr_data as int);
        }
    }
}

/// The first block at or after `i` that is free and alone holds `size`
/// bytes, or the length of the list when none does: the fit notion of the
/// convenience entry points, which never coalesce.
pub open spec fn first_simple_fit_from(s: Seq<BumpMemoryBlockHeader>, i: int, size: int) -> int
    decreases s.len() - i,
{
    if i < 0 || i >= s.len() {
        s.len() as int
    } else if s[i].is_free && s[i].size >= size {
        i
    } else {
        first_simple_fit_from(s, i + 1, size)
    }
}

/// The block a coalescing-free first-fit search serves a `size`-byte request
/// from, or the length of the list when the request needs fresh memory.
pub open spec fn first_simple_fit(s: Seq<BumpMemoryBlockHeader>, size: int) -> int {
    first_simple_fit_from(s, 0, size)
}

/// A scan that found no single free block of `size` bytes before `c` and one
/// at `c` (or ran off the list) has found the first such block.
pub proof fn lemma_first_simple_fit_from_is(
    s: Seq<BumpMemoryBlockHeader>,
    j: int,
    c: int,
    size: int,
)
    requires
        0 <= j <= c <= s.len(),
        forall|k: int| j <= k < c ==> !((#[trigger] s[k]).is_free && s[k].size >= size),
        c < s.len() ==> s[c].is_free && s[c].size >= size,
    ensures
        first_simple_fit_from(s, j, size) == c,
    decreases c - j,
{
    if j < c {
        lemma_first_simple_fit_from_is(s, j + 1, c, size);
    }
}

/// Block `k` of `pre` survives into `post`: some block of `post` is in use
/// at the same user address with the same payload size.
pub open spec fn block_preserved(pre: BumpAllocator, post: BumpAllocator, k: int) -> bool {
    exists|k2: int|
        0 <= k2 < post.blocks@.len() && !(#[trigger] post.blocks@[k2]).is_free
            && post.user_addr(k2) == pre.user_addr(k) && post.blocks@[k2].size
            == pre.blocks@[k].size
}

/// Every block of `pre` that is in use survives into `post` at the same
/// user address with the same payload size.
#[verifier::opaque]
pub open spec fn preserves_live_blocks(pre: BumpAllocator, post: BumpAllocator) -> bool {
    forall|k: int|
        0 <= k < pre.blocks@.len() && !(#[trigger] pre.blocks@[k]).is_free
            ==> block_preserved(pre, post, k)
}

/// A pointer handed out by an allocation differs from the user address of
/// every block of `pre` that was already in use.
#[verifier::opaque]
pub open spec fn fresh_pointer(pre: BumpAllocator, r: Option<usize>) -> bool {
    forall|k: int|
        0 <= k < pre.blocks@.len() && !(#[trigger] pre.blocks@[k]).is_free
            ==> r != Some(pre.user_addr(k) as usize)
}

/// An operation that changes nothing preserves every block in use, and a
/// refused allocation hands out no pointer at all.
pub proof fn lemma_no_alloc_preserves(a: BumpAllocator)
    ensures
        preserves_live_blocks(a, a),
        fresh_pointer(a, None),
{
    reveal(preserves_live_blocks);
    reveal(fresh_pointer);
    assert forall|k: int|
        0 <= k < a.blocks@.len() && !(#[trigger] a.blocks@[k]).is_free implies block_preserved(
        a,
        a,
        k,
    ) by {
        assert(0 <= k < a.blocks@.len() && !a.blocks@[k].is_free && a.user_addr(k) == a.user_addr(
            k,
        ) && a.blocks@[k].size == a.blocks@[k].size);
    }
}

/// Distinct blocks of a well-formed arena occupy disjoint byte ranges: the
/// payload of the earlier block ends before the header of the later begins,
/// so live user pointers are always distinct and usable for their full size.
pub proof fn lemma_blocks_disjoint(a: BumpAllocator, i: int, j: int)
    requires
        a.wf(),
        0 <= i < j < a.blocks@.len(),
    ensures
        a.user_addr(i) + a.blocks@[i].size <= a.block_addr(j),
        a.user_addr(i) < a.user_addr(j),
{
    lemma_footprint_monotonic(a.blocks@, i + 1, j);
}

/// Serving a request by merging the free run `i..=m` and taking the merged
/// block leaves every block that was in use untouched: same address, same
/// size, still in use, and all of them distinct from the served pointer.
pub proof fn lemma_alloc_preserves_live(pre: BumpAllocator, post: BumpAllocator, i: int, m: int)
    requires
        pre.wf(),
        0 <= i <= m < pre.blocks@.len(),
        run_free(pre.blocks@, i, m),
        run_size(pre.blocks@, i, m) <= usize::MAX,
        post.heap == pre.heap,
        post.blocks@ == merged_blocks(pre.blocks@, i, m, false),
    ensures
        preserves_live_blocks(pre, post),
        fresh_pointer(pre, Some(pre.user_addr(i) as usize)),
{
    reveal(preserves_live_blocks);
    reveal(fresh_pointer);
    let s = pre.blocks@;
    lemma_merge_footprints(s, i, m, false);
    lemma_footprint_monotonic(s, i + 1, s.len() as int);
    assert forall|k: int|
        0 <= k < s.len() && !(#[trigger] s[k]).is_free implies block_preserved(pre, post, k)
            && Some(pre.user_addr(i) as usize) != Some(pre.user_addr(k) as usize) by {
        assert(!(i <= k <= m));
        lemma_footprint_monotonic(s, k + 1, s.len() as int);
        lemma_footprint_monotonic(s, 0, k);
        lemma_footprint_monotonic(s, 0, i);
        if k < i {
            assert(post.blocks@[k] == s[k]);
            assert(footprint(post.blocks@, k) == footprint(s, k));
            assert(block_preserved(pre, post, k));
            lemma_blocks_disjoint(pre, k, i);
        } else {
            let k2 = k - (m - i);
            assert(post.blocks@[k2] == s[k]);
            assert(footprint(post.blocks@, k2) == footprint(s, k));
            assert(block_preserved(pre, post, k));
            lemma_blocks_disjoint(pre, i, k);
        }
    }
}

/// Every block of `pre` in use at a user address other than `ptr` survives
/// into `post` at the same address with the same payload size.
#[verifier::opaque]
pub open spec fn preserves_live_blocks_except(
    pre: BumpAllocator,
    post: BumpAllocator,
    ptr: int,
) -> bool {
    forall|k: int|
        0 <= k < pre.blocks@.len() && !(#[trigger] pre.blocks@[k]).is_free && pre.user_addr(k)
            != ptr ==> block_preserved(pre, post, k)
}

/// An operation that changes nothing preserves every block in use, whatever
/// pointer it was asked about.
pub proof fn lemma_no_dealloc_preserves(a: BumpAllocator, ptr: int)
    ensures
        preserves_live_blocks_except(a, a, ptr),
{
    reveal(preserves_live_blocks_except);
    assert forall|k: int|
        0 <= k < a.blocks@.len() && !(#[trigger] a.blocks@[k]).is_free && a.user_addr(k)
            != ptr implies block_preserved(a, a, k) by {
        assert(0 <= k < a.blocks@.len() && !a.blocks@[k].is_free && a.user_addr(k) == a.user_addr(
            k,
        ) && a.blocks@[k].size == a.blocks@[k].size);
    }
}

/// Marking one block free in place moves no block: the arena keeps its
/// shape, and every other block in use keeps its address and size.
pub proof fn lemma_free_in_place_preserves(pre: BumpAllocator, post: BumpAllocator, i: int)
    requires
        pre.wf(),
        0 <= i < pre.blocks@.len(),
        post.heap == pre.heap,
        post.blocks@ == pre.blocks@.update(
            i,
            BumpMemoryBlockHeader { size: pre.blocks@[i].size, is_free: true },
        ),
    ensures
        post.wf(),
        preserves_live_blocks_except(pre, post, pre.user_addr(i)),
{
    reveal(preserves_live_blocks_except);
    let s = pre.blocks@;
    let t = post.blocks@;
    assert forall|k: int| 0 <= k <= s.len() implies footprint(t, k) == footprint(s, k) by {
        lemma_footprint_offset(t, s, 0, k, 0);
    }
    assert forall|k: int|
        0 <= k < s.len() && !(#[trigger] s[k]).is_free && pre.user_addr(k) != pre.user_addr(
            i,
        ) implies block_preserved(pre, post, k) by {
        assert(k != i);
        assert(t[k] == s[k]);
        assert(block_preserved(pre, post, k));
    }
}

/// Removing the tail block and lowering the boundary by its footprint keeps
/// the arena well formed, and every other block in use keeps its address and
/// size.
pub proof fn lemma_dealloc_tail_preserves(pre: BumpAllocator, post: BumpAllocator)
    requires
        pre.wf(),
        pre.blocks@.len() >= 1,
        post.heap.wf(),
        post.heap.base == pre.heap.base,
        post.heap.brk == pre.heap.brk - BUMP_HEADER_SIZE - pre.blocks@.last().size,
        post.blocks@ == pre.blocks@.subrange(0, pre.blocks@.len() - 1),
    ensures
        post.wf(),
        preserves_live_blocks_except(pre, post, pre.user_addr(pre.blocks@.len() - 1)),
{
    reveal(preserves_live_blocks_except);
    let s = pre.blocks@;
    let t = post.blocks@;
    let last = s.len() - 1;
    assert forall|k: int| 0 <= k <= last implies footprint(t, k) == footprint(s, k) by {
        lemma_footprint_offset(t, s, 0, k, 0);
    }
    assert forall|k: int|
        0 <= k < s.len() && !(#[trigger] s[k]).is_free && pre.user_addr(k) != pre.user_addr(
            last,
        ) implies block_preserved(pre, post, k) by {
        if k < last {
            assert(t[k] == s[k]);
            assert(block_preserved(pre, post, k));
        } else {
            assert(pre.user_addr(k) == pre.user_addr(last));
        }
    }
}

/// Growing the arena by one appended block leaves every block that was in
/// use untouched, and the new block sits above all of them.
pub proof fn lemma_grow_preserves_live(
    pre: BumpAllocator,
    post: BumpAllocator,
    b: BumpMemoryBlockHeader,
)
    requires
        pre.wf(),
        pre.heap.brk + BUMP_HEADER_SIZE <= usize::MAX,
        post.heap.base == pre.heap.base,
        post.blocks@ == pre.blocks@.push(b),
    ensures
        preserves_live_blocks(pre, post),
        fresh_pointer(pre, Some((pre.heap.brk + BUMP_HEADER_SIZE) as usize)),
{
    reveal(preserves_live_blocks);
    reveal(fresh_pointer);
    let s = pre.blocks@;
    assert forall|k: int|
        0 <= k < s.len() && !(#[trigger] s[k]).is_free implies block_preserved(pre, post, k)
            && Some((pre.heap.brk + BUMP_HEADER_SIZE) as usize) != Some(
            pre.user_addr(k) as usize,
        ) by {
        assert(post.blocks@[k] == s[k]);
        assert(footprint(post.blocks@, k) == footprint(s, k)) by {
            lemma_footprint_offset(post.blocks@, s, 0, k, 0);
        }
        assert(block_preserved(pre, post, k));
        lemma_footprint_monotonic(s, k + 1, s.len() as int);
        lemma_footprint_monotonic(s, 0, k);
    }
}

/// Merge the free block at `initial_block` with the free blocks right after
/// it until the merged payload reaches `stop_size` bytes or the run of free
/// blocks ends.
///
/// In the contiguous arena every following block is physically adjacent, so
/// the run of free blocks after `initial_block` is exactly what may be
/// absorbed.  On success the absorbed headers are reclaimed into the merged
/// payload and the first returned value is true; on failure nothing changes.
/// The second returned value is the last block the scan examined, from which
/// an allocation search can resume without rescanning.
pub fn merge_adjacent_free_blocks(
    a: &mut BumpAllocator,
    initial_block: usize,
    stop_size: usize,
) -> (r: (bool, usize))
    requires
        old(a).wf(),
        initial_block < old(a).blocks@.len(),
        old(a).blocks@[initial_block as int].is_free,
    ensures
        final(a).wf(),
        final(a).heap == old(a).heap,
        ({
            let s = old(a).blocks@;
            let m = merge_end(s, initial_block as int, stop_size as int);
            &&& r.1 as int == m
            &&& initial_block <= m < s.len()
            &&& run_free(s, initial_block as int, m)
            &&& r.0 == (run_size(s, initial_block as int, m) >= stop_size)
            &&& if r.0 {
                final(a).blocks@ == merged_blocks(s, initial_block as int, m, true)
            } else {
                &&& final(a).blocks@ == s
                &&& (m + 1 == s.len() || !s[m + 1].is_free)
                &&& forall|k: int|
                    initial_block <= k <= m ==> !fit_from(s, k, stop_size as int)
            }
        }),
{
    let ghost s = a.blocks@;
    let ghost i = initial_block as int;
    let ghost h0 = a.heap;
    let n: usize = a.blocks.len();
    let mut acc: usize = a.blocks[initial_block].size;
    let mut j: usize = initial_block;

    while acc < stop_size && j + 1 < n && a.blocks[j + 1].is_free
        invariant
            a.wf(),
            a.blocks@ == s,
            a.heap == h0,
            n == s.len(),
            initial_block < s.len(),
            i == initial_block as int,
            initial_block <= j < s.len(),
            run_free(s, i, j as int),
            acc == run_size(s, i, j as int),
            forall|d: int| i <= d < j as int ==> run_size(s, i, d) < stop_size,
            merge_end(s, i, stop_size as int) == merge_end_from(
                s,
                i,
                j as int,
                stop_size as int,
            ),
        decreases s.len() - j,
    {
        proof {
            lemma_footprint_monotonic(s, j as int + 2, s.len() as int);
            lemma_footprint_monotonic(s, 0, i);
        }
        acc = acc + BUMP_HEADER_SIZE + a.blocks[j + 1].size;
        j = j + 1;
    }
    let ghost m = merge_end(s, i, stop_size as int);
    proof {
        assert(m == j as int);
    }

    if acc >= stop_size {
        let ghost merged_header = BumpMemoryBlockHeader { size: acc, is_free: true };
        a.blocks[initial_block] = BumpMemoryBlockHeader::new(acc, true);
        proof {
            assert(a.blocks@ =~= s.subrange(0, i) + seq![merged_header] + s.subrange(
                i + 1,
                s.len() as int,
            ));
        }
        let count: usize = j - initial_block;
        let mut removed: usize = 0;
        while removed < count
            invariant
                i == initial_block as int,
                0 <= i <= m < s.len(),
                s.len() <= usize::MAX,
                count == m - i,
                removed <= count,
                a.heap == h0,
                a.blocks@ == s.subrange(0, i) + seq![merged_header] + s.subrange(
                    i + 1 + removed as int,
                    s.len() as int,
                ),
            decreases count - removed,
        {
            a.blocks.remove(initial_block + 1);
            removed = removed + 1;
            proof {
                assert(a.blocks@ =~= s.subrange(0, i) + seq![merged_header] + s.subrange(
                    i + 1 + removed as int,
                    s.len() as int,
                ));
            }
        }
        proof {
            assert(a.blocks@ =~= merged_blocks(s, i, m, true));
            lemma_footprint_monotonic(s, 0, i);
            lemma_footprint_monotonic(s, m + 1, s.len() as int);
            lemma_merge_footprints(s, i, m, true);
            assert(footprint(a.blocks@, a.blocks@.len() as int) == footprint(
                s,
                s.len() as int,
            ));
        }
        (true, j)
    } else {
        proof {
            lemma_no_fit_within_run(s, i, m, stop_size as int);
        }
        (false, j)
    }
}

/// Grow the arena by one block sized for an aligned `size`-byte payload and
/// append its header, or report that the operating system refused.
///
/// Returns the address of the new header, which is the previous boundary.
pub fn allocate_block(a: &mut BumpAllocator, size: i32) -> (r: Option<usize>)
    requires
        old(a).wf(),
        0 <= size,
        size + 7 <= i32::MAX,
    ensures
        final(a).wf(),
        final(a).heap.base == old(a).heap.base,
        final(a).heap.limit == old(a).heap.limit,
        ({
            let grown = BUMP_HEADER_SIZE + spec_align_up(size as int, 8);
            if old(a).heap.brk + grown <= old(a).heap.limit {
                &&& r == Some(old(a).heap.brk)
                &&& final(a).heap.brk == old(a).heap.brk + grown
                &&& final(a).blocks@ == old(a).blocks@.push(
                    BumpMemoryBlockHeader {
                        size: spec_align_up(size as int, 8) as usize,
                        is_free: false,
                    },
                )
            } else {
                &&& r is None
                &&& *final(a) == *old(a)
            }
        }),
{
    let aligned: i32 = align_up(size);
    let aligned_usize: usize = aligned as usize;
    let old_brk = a.heap.grow(BUMP_HEADER_SIZE + aligned_usize);
    match old_brk {
        Some(addr) => {
            a.blocks.push(BumpMemoryBlockHeader::new(aligned_usize, false));
            proof {
                let s = old(a).blocks@;
                let n = s.len() as int;
                lemma_footprint_offset(a.blocks@, s, 0, n, 0);
            }
            Some(addr)
        },
        None => None,
    }
}

/// Allocate `size` bytes from the arena without coalescing.
///
/// Convenience form of the engine: the scan reuses the first single free
/// block whose payload holds the request and never merges neighbours, so a
/// request that only a merged run could serve grows the arena instead.
#[verifier::loop_isolation(false)]
pub fn qualloc(a: &mut BumpAllocator, size: i32) -> (r: Option<usize>)
    requires
        old(a).wf(),
        0 <= size,
        size + 7 <= i32::MAX,
    ensures
        final(a).wf(),
        final(a).heap.base == old(a).heap.base,
        final(a).heap.limit == old(a).heap.limit,
        ({
            let s = old(a).blocks@;
            let i = first_simple_fit(s, size as int);
            let grown = BUMP_HEADER_SIZE + spec_align_up(size as int, 8);
            if i < s.len() {
                &&& r == Some(old(a).user_addr(i) as usize)
                &&& final(a).blocks@ == s.update(
                    i,
                    BumpMemoryBlockHeader { size: s[i].size, is_free: false },
                )
                &&& final(a).heap == old(a).heap
            } else if old(a).heap.brk + grown <= old(a).heap.limit {
                &&& r == Some((old(a).heap.brk + BUMP_HEADER_SIZE) as usize)
                &&& final(a).blocks@ == s.push(
                    BumpMemoryBlockHeader {
                        size: spec_align_up(size as int, 8) as usize,
                        is_free: false,
                    },
                )
                &&& final(a).heap.brk == old(a).heap.brk + grown
            } else {
                &&& r is None
                &&& *final(a) == *old(a)
            }
        }),
        ({
            let s = old(a).blocks@;
            let i = first_simple_fit(s, size as int);
            let served = if i < s.len() {
                i
            } else {
                s.len() as int
            };
            r is Some ==> {
                &&& served < final(a).blocks@.len()
                &&& !final(a).blocks@[served].is_free
                &&& final(a).blocks@[served].size >= size
                &&& r == Some(final(a).user_addr(served) as usize)
            }
        }),
        preserves_live_blocks(*old(a), *final(a)),
        fresh_pointer(*old(a), r),
{
    let ghost s = a.blocks@;
    let sz: usize = size as usize;
    let n: usize = a.blocks.len();
    let mut cur: usize = 0;
    let mut addr: usize = a.heap.base;

    while cur < n
        invariant
            a.blocks == old(a).blocks,
            a.blocks@ == s,
            a.heap == old(a).heap,
            cur <= n,
            addr as int == a.block_addr(cur as int),
            forall|k: int|
                0 <= k < cur as int ==> !((#[trigger] s[k]).is_free && s[k].size >= sz),
        decreases n - cur,
    {
        proof {
            lemma_footprint_monotonic(s, cur as int + 1, s.len() as int);
        }
        if a.blocks[cur].is_free && a.blocks[cur].size >= sz {
            let block_size = a.blocks[cur].size;
            a.blocks[cur] = BumpMemoryBlockHeader::new(block_size, false);
            proof {
                lemma_first_simple_fit_from_is(s, 0, cur as int, sz as int);
                assert(run_free(s, cur as int, cur as int));
                assert(a.blocks@ =~= merged_blocks(s, cur as int, cur as int, false));
                lemma_merge_footprints(s, cur as int, cur as int, false);
                lemma_alloc_preserves_live(*old(a), *a, cur as int, cur as int);
                assert(a.blocks@ =~= s.update(
                    cur as int,
                    BumpMemoryBlockHeader { size: s[cur as int].size, is_free: false },
                ));
            }
            return Some(addr + BUMP_HEADER_SIZE);
        }
        addr = addr + BUMP_HEADER_SIZE + a.blocks[cur].size;
        cur = cur + 1;
    }
    proof {
        lemma_first_simple_fit_from_is(s, 0, s.len() as int, sz as int);
    }
    match allocate_block(a, size) {
        Some(block_addr) => {
            proof {
                crate::align::lemma_align_up_bounds(size as int, 8);
                lemma_footprint_monotonic(a.blocks@, 0, a.blocks@.len() as int);
                lemma_grow_preserves_live(
                    *old(a),
                    *a,
                    BumpMemoryBlockHeader {
                        size: spec_align_up(size as int, 8) as usize,
                        is_free: false,
                    },
                );
            }
            Some(block_addr + BUMP_HEADER_SIZE)
        },
        None => {
            proof {
                lemma_no_alloc_preserves(*old(a));
            }
            None
        },
    }
}

/// Deallocate the block previously returned at user address `usr_data`.
///
/// Convenience form of [`BumpAllocator::qudelloc`], with the same behaviour:
/// the matching block is marked free, a freed tail is returned to the
/// operating system, and an address no block matches changes nothing.
pub fn qudelloc(a: &mut BumpAllocator, usr_data: usize)
    requires
        old(a).wf(),
    ensures
        final(a).wf(),
        final(a).heap.base == old(a).heap.base,
        final(a).heap.limit == old(a).heap.limit,
        ({
            let s = old(a).blocks@;
            let i = old(a).find_block(usr_data as int);
            if i == s.len() {
                *final(a) == *old(a)
            } else if i == s.len() - 1 {
                &&& final(a).blocks@ == s.subrange(0, i)
                &&& final(a).heap.brk == old(a).heap.brk - BUMP_HEADER_SIZE - s[i].size
            } else {
                &&& final(a).blocks@ == s.update(
                    i,
                    BumpMemoryBlockHeader { size: s[i].size, is_free: true },
                )
                &&& final(a).heap.brk == old(a).heap.brk
            }
        }),
        preserves_live_blocks_except(*old(a), *final(a), usr_data as int),
{
    a.qudelloc(usr_data);
}

/// Shrink the arena after its tail block of `size` payload bytes has been
/// removed, returning the block's header and payload bytes to the system.
pub fn deallocate_block(heap: &mut Heap, size: usize)
    requires
        old(heap).wf(),
        BUMP_HEADER_SIZE + size <= old(heap).brk - old(heap).base,
    ensures
        final(heap).wf(),
        final(heap).base == old(heap).base,
        final(heap).limit == old(heap).limit,
        final(heap).brk == old(heap).brk - BUMP_HEADER_SIZE - size,
{
    heap.shrink(BUMP_HEADER_SIZE + size);
}

} // verus!


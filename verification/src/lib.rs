//! A pair of user-space dynamic memory allocators, verified over an
//! integer-offset model of the managed memory.
//!
//! One engine ("bump") grows a single contiguous arena by moving a
//! program-break boundary; the other ("mmap") requests independently mapped,
//! page-sized regions and subdivides each region internally.  Both expose an
//! allocate/deallocate pair and keep their bookkeeping in headers that, in a
//! real process, live embedded in the managed memory itself.  Here every
//! header is a plain record and every pointer is an integer address, so the
//! list invariants that raw code must maintain by hand are stated and proved.
//!
//! The operating-system primitives (moving the break, mapping and unmapping
//! pages) are modelled by [`heap::Heap`] and by the address cursor of
//! [`mmap::MmapAllocator`]: each has an explicit capacity past which it
//! refuses, which is how "out of memory" becomes a reachable, testable
//! outcome.  The callers that perform the real system calls live outside the
//! verified library and drive these models alongside the real boundary.

pub mod align;
pub mod bump;
pub mod heap;
pub mod mmap;

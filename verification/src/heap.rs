//! Growth/shrink primitive for the bump engine: a model of the process heap
//! boundary (the program break).
//!
//! A real bump allocator moves the break with a system call that may refuse
//! when the machine is out of memory.  The model keeps the boundary as an
//! integer address together with the highest address the operating system is
//! willing to grant; a growth request past that limit is refused, which is
//! exactly the "no memory" outcome callers must handle.  Shrinking never goes
//! below the base the heap started from.

use vstd::prelude::*;

verus! {

/// The heap boundary of one process, between a fixed base and a fixed limit.
pub struct Heap {
    /// Address of the bottom of the managed heap; never changes.
    pub base: usize,
    /// Current boundary: the first address past the managed heap.
    pub brk: usize,
    /// Highest boundary the operating system will grant; never changes.
    pub limit: usize,
}

impl Heap {
    /// The boundary always lies between the base and the limit.
    pub open spec fn wf(self) -> bool {
        self.base <= self.brk <= self.limit
    }

    /// A fresh heap whose boundary sits at its base.
    pub fn new(base: usize, limit: usize) -> (h: Heap)
        requires
            base <= limit,
        ensures
            h.wf(),
            h.base == base,
            h.brk == base,
            h.limit == limit,
    {
        Heap { base, brk: base, limit }
    }

    /// Move the boundary up by `delta` bytes and return the previous
    /// boundary, or refuse without any change when the limit is exceeded.
    pub fn grow(&mut self, delta: usize) -> (r: Option<usize>)
        requires
            old(self).wf(),
        ensures
            final(self).wf(),
            final(self).base == old(self).base,
            final(self).limit == old(self).limit,
            old(self).brk + delta <= old(self).limit ==> {
                &&& r == Some(old(self).brk)
                &&& final(self).brk == old(self).brk + delta
            },
            old(self).brk + delta > old(self).limit ==> {
                &&& r is None
                &&& final(self).brk == old(self).brk
            },
    {
        if delta <= self.limit - self.brk {
            let old_brk = self.brk;
            self.brk = self.brk + delta;
            Some(old_brk)
        } else {
            None
        }
    }

    /// Move the boundary down by `delta` bytes, releasing the topmost memory.
    pub fn shrink(&mut self, delta: usize)
        requires
            old(self).wf(),
            delta <= old(self).brk - old(self).base,
        ensures
            final(self).wf(),
            final(self).base == old(self).base,
            final(self).limit == old(self).limit,
            final(self).brk == old(self).brk - delta,
    {
        self.brk = self.brk - delta;
    }
}

/// The current heap boundary: the address a growth request would return.
pub fn get_current_heap(heap: &Heap) -> (r: usize)
    ensures
        r == heap.brk,
{
    heap.brk
}

} // verus!

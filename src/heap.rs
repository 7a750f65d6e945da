//! The heap boundary moved by `brk`.
use vstd::prelude::*;
use crate::consts::MAX_HEAP_SIZE;

verus! {

/// A heap whose top moves within `[bottom, bottom + MAX_HEAP_SIZE]`.
pub struct HeapTracker {
    pub bottom: usize,
    pub top: usize,
}

impl HeapTracker {
    /// The top stays within its arena, and every address of the arena can be
    /// reported as a non-negative `isize`.
    pub open spec fn wf(&self) -> bool {
        &&& self.bottom + MAX_HEAP_SIZE <= isize::MAX
        &&& self.bottom <= self.top <= self.bottom + MAX_HEAP_SIZE
    }

    /// An empty heap starting at `bottom`.
    pub fn new(bottom: usize) -> (h: Self)
        requires
            bottom + MAX_HEAP_SIZE <= isize::MAX,
        ensures
            h.wf(),
            h.bottom == bottom,
            h.top == bottom,
    {
        HeapTracker { bottom, top: bottom }
    }

    /// Moves the top to `brk` when `brk` is non-zero and inside the arena;
    /// otherwise leaves it. Returns the top after the call.
    pub fn brk(&mut self, brk: usize) -> (r: isize)
        requires
            old(self).wf(),
        ensures
            final(self).wf(),
            final(self).bottom == old(self).bottom,
            brk != 0 && old(self).bottom <= brk <= old(self).bottom + MAX_HEAP_SIZE
                ==> final(self).top == brk,
            !(brk != 0 && old(self).bottom <= brk <= old(self).bottom
                + MAX_HEAP_SIZE) ==> final(self).top == old(self).top,
            r == final(self).top,
    {
        if brk != 0 && brk >= self.bottom && brk - self.bottom <= MAX_HEAP_SIZE {
            self.top = brk;
        }
        self.top as isize
    }
}

} // verus!

//! A bump allocator: a monotonic cursor over the heap range.
//!
//! Allocation aligns the cursor, hands out the range behind it, and moves
//! the cursor forward; it never looks back. Deallocation only counts:
//! individual frees do not return their bytes, but once every outstanding
//! allocation has been freed the cursor resets to the start of the heap.
//! That bulk reset is the only reclamation this strategy has, so workloads
//! that always keep at least one allocation live exhaust the heap
//! monotonically.
//!
//! The ghost field [`BumpAllocator::live`] records the ranges currently
//! handed out; [`BumpAllocator::wf`] pins them between the heap start and
//! the cursor and keeps them pairwise disjoint.

use vstd::prelude::*;

verus! {

use vstd::arithmetic::power2::is_pow2;
use crate::allocator::{
    align_up, align_up_spec, lemma_align_up, lemma_align_up_overflow, lemma_pow2_mask,
    ranges_disjoint,
};

pub struct BumpAllocator {
    /// First address of the heap range.
    pub heap_start: usize,
    /// One past the last address of the heap range.
    pub heap_end: usize,
    /// The cursor: all of `[heap_start, next)` has been handed out at some
    /// point since the last reset; all of `[next, heap_end)` is untouched.
    pub next: usize,
    /// Number of allocations handed out and not yet freed.
    pub allocations: usize,
    /// The ranges currently handed out.
    pub live: Ghost<Set<(int, int)>>,
}

impl BumpAllocator {
    /// A freshly created, not yet initialized allocator.
    pub open spec fn pristine(self) -> bool {
        &&& self.heap_start == 0
        &&& self.heap_end == 0
        &&& self.next == 0
        &&& self.allocations == 0
        &&& self.live@ == Set::<(int, int)>::empty()
    }

    /// Well-formedness: the cursor stays inside the heap range, the live
    /// ranges sit between the heap start and the cursor, they never
    /// overlap, and the allocation count matches them. Once nothing is
    /// outstanding, the cursor is back at the heap start.
    pub open spec fn wf(self) -> bool {
        &&& self.heap_start <= self.next <= self.heap_end
        &&& self.live@.finite()
        &&& self.live@.len() == self.allocations
        &&& (self.allocations == 0 ==> self.next == self.heap_start)
        &&& (forall|e: (int, int)| #[trigger] self.live@.contains(e)
                ==> self.heap_start <= e.0 && e.0 + e.1 <= self.next && e.1 >= 1)
        &&& (forall|e1: (int, int), e2: (int, int)|
                self.live@.contains(e1) && self.live@.contains(e2) && e1 != e2
                ==> ranges_disjoint(e1, e2))
    }

    /// Create an empty allocator. It serves nothing until [`Self::init`]
    /// gives it a heap range.
    pub fn new() -> (r: Self)
        ensures
            r.wf(),
            r.pristine(),
    {
        BumpAllocator {
            heap_start: 0,
            heap_end: 0,
            next: 0,
            allocations: 0,
            live: Ghost(Set::empty()),
        }
    }

    /// Bind the allocator to the heap range `[heap_start, heap_start +
    /// heap_size)`. The caller guarantees exclusive ownership of that
    /// range; the allocator must be freshly created, and this must be
    /// called exactly once.
    pub fn init(&mut self, heap_start: usize, heap_size: usize)
        requires
            old(self).pristine(),
            heap_start + heap_size <= usize::MAX,
        ensures
            final(self).wf(),
            final(self).heap_start == heap_start,
            final(self).heap_end == heap_start + heap_size,
            final(self).next == heap_start,
            final(self).allocations == 0,
            final(self).live@ == old(self).live@,
    {
        self.heap_start = heap_start;
        self.heap_end = heap_start + heap_size;
        self.next = heap_start;
    }

    /// Everything `allocate` does, as a relation between the state before
    /// the call, the state after it, and the result.
    pub open spec fn alloc_spec(pre: Self, post: Self, size: int, align: int, r: Option<usize>)
        -> bool {
        let start = align_up_spec(pre.next as int, align);
        if start + size <= pre.heap_end {
            &&& (r matches Some(p) && p == start)
            &&& post.next == start + size
            &&& post.allocations == pre.allocations + 1
            &&& post.live@ == pre.live@.insert((start, size))
            &&& post.heap_start == pre.heap_start
            &&& post.heap_end == pre.heap_end
        } else {
            &&& r is None
            &&& post == pre
        }
    }

    /// Allocate `size` bytes aligned to `align`: round the cursor up to
    /// `align` and hand out the range there, or report exhaustion
    /// (`None`) exactly when the aligned range would pass the end of the
    /// heap.
    pub fn allocate(&mut self, size: usize, align: usize) -> (r: Option<usize>)
        requires
            old(self).wf(),
            is_pow2(align as int),
            size >= 1,
            old(self).allocations < usize::MAX,
        ensures
            final(self).wf(),
            Self::alloc_spec(*old(self), *final(self), size as int, align as int, r),
            r matches Some(p) ==> {
                &&& p as int % align as int == 0
                &&& old(self).heap_start <= p
                &&& p + size <= old(self).heap_end
            },
    {
        proof {
            lemma_pow2_mask(align);
            lemma_align_up(self.next as int, align as int);
        }
        let alloc_start = match self.next.checked_add(align - 1) {
            Some(_) => align_up(self.next, align),
            None => {
                proof {
                    lemma_align_up_overflow(self.next, align);
                }
                return None;
            },
        };
        match alloc_start.checked_add(size) {
            Some(alloc_end) => {
                if alloc_end <= self.heap_end {
                    self.next = alloc_end;
                    self.allocations = self.allocations + 1;
                    self.live = Ghost(
                        self.live@.insert((alloc_start as int, size as int)),
                    );
                    Some(alloc_start)
                } else {
                    None
                }
            },
            None => None,
        }
    }

    /// Everything `deallocate` does, as a relation between the states and
    /// the arguments.
    pub open spec fn dealloc_spec(pre: Self, post: Self, ptr: int, size: int) -> bool {
        &&& post.allocations == pre.allocations - 1
        &&& post.live@ == pre.live@.remove((ptr, size))
        &&& post.heap_start == pre.heap_start
        &&& post.heap_end == pre.heap_end
        &&& (post.allocations == 0 ==> post.next == pre.heap_start)
        &&& (post.allocations != 0 ==> post.next == pre.next)
    }

    /// Return the range `[ptr, ptr + size)` previously produced by
    /// [`Self::allocate`] with the same size and alignment. The bytes are
    /// not reused; only when this was the last outstanding allocation does
    /// the cursor reset to the heap start.
    pub fn deallocate(&mut self, ptr: usize, size: usize, _align: usize)
        requires
            old(self).wf(),
            old(self).live@.contains((ptr as int, size as int)),
        ensures
            final(self).wf(),
            Self::dealloc_spec(*old(self), *final(self), ptr as int, size as int),
    {
        proof {
            broadcast use vstd::set_lib::group_set_properties;
        }
        self.live = Ghost(self.live@.remove((ptr as int, size as int)));
        self.allocations = self.allocations - 1;
        if self.allocations == 0 {
            self.next = self.heap_start;
        }
    }

    /// No-overlap law: in a well-formed allocator any two distinct live
    /// allocations occupy disjoint address ranges.
    pub proof fn lemma_live_allocations_disjoint(s: Self, a: (int, int), b: (int, int))
        requires
            s.wf(),
            s.live@.contains(a),
            s.live@.contains(b),
            a != b,
        ensures
            ranges_disjoint(a, b),
    {
    }

    /// Containment law: every range handed out by a well-formed
    /// allocator lies inside the heap range it was initialized with --
    /// in fact below the cursor.
    pub proof fn lemma_live_in_heap(s: Self, a: (int, int))
        requires
            s.wf(),
            s.live@.contains(a),
        ensures
            s.heap_start <= a.0,
            a.0 + a.1 <= s.next <= s.heap_end,
    {
    }

    /// Bulk-reset law: whenever no allocation is outstanding -- in
    /// particular after any N allocations have been followed by the same
    /// N deallocations, in any order -- the cursor stands exactly at the
    /// heap start again.
    pub proof fn lemma_reset_on_empty(s: Self)
        requires
            s.wf(),
            s.allocations == 0,
        ensures
            s.next == s.heap_start,
    {
    }

    /// Exhaustion law: a request only succeeds while the untouched part
    /// of the heap still holds it, and every success consumes at least
    /// its size from that part. The cursor never moves back before a
    /// full reset, so once cumulative aligned demand has passed the
    /// heap's length, further allocation is refused.
    pub proof fn lemma_exhaustion(pre: Self, post: Self, size: int, align: int,
        r: Option<usize>)
        requires
            pre.wf(),
            align >= 1,
            Self::alloc_spec(pre, post, size, align, r),
            r is Some,
        ensures
            size <= pre.heap_end - pre.next,
            post.next - pre.next >= size,
            post.next <= post.heap_end,
    {
        lemma_align_up(pre.next as int, align);
    }

    /// Round-trip law: starting with nothing outstanding, allocating a
    /// range, freeing it, and allocating with the same size and alignment
    /// again returns the same address.
    pub proof fn lemma_round_trip(
        s0: Self, s1: Self, s2: Self, s3: Self,
        size: int, align: int, p: usize, r2: Option<usize>,
    )
        requires
            s0.wf(),
            s0.allocations == 0,
            align >= 1,
            Self::alloc_spec(s0, s1, size, align, Some(p)),
            Self::dealloc_spec(s1, s2, p as int, size),
            Self::alloc_spec(s2, s3, size, align, r2),
        ensures
            r2 == Some(p),
    {
    }
}

} // verus!

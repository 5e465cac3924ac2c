//! A first-fit allocator over a linked list of free regions.
//!
//! The allocator keeps every currently free span of the heap in a list,
//! front first. An allocation walks the list front to back and takes the
//! first region whose aligned prefix can hold the request; any leftover
//! tail is put back at the front of the list. A deallocation pushes the
//! returned span to the front. Regions are never merged: the list is not
//! ordered by address, so adjacency is not detected, and fragmentation
//! accumulates over the allocator's lifetime. That is a documented design
//! trade-off of this strategy, not a defect.
//!
//! On the machine this allocator's record keeping lives *inside* the
//! free memory itself: a free region begins with a `(size, next)` record,
//! which forces every region to be at least [`NODE_SIZE`] bytes and
//! aligned to [`NODE_ALIGN`]. Here the list is modelled as a vector of
//! `(address, size)` records; the size and alignment constraints of the
//! intrusive representation are kept as invariants, so every behaviour --
//! including the "leftover too small to host a record" rejection -- stays
//! faithful to that layout.

use vstd::prelude::*;

verus! {

use vstd::arithmetic::power2::is_pow2;
use vstd::arithmetic::div_mod::{lemma_add_mod_noop, lemma_mod_self_0};
use vstd::layout::valid_layout;
use vstd::math::max;
use crate::allocator::{
    align_up, align_up_spec, lemma_align_up, lemma_align_up_aligned, lemma_align_up_overflow,
    lemma_address_space_pow2, lemma_mod_transitive, lemma_multiples_apart,
    lemma_pow2_divides, lemma_pow2_mask, ranges_disjoint,
};

/// Size in bytes of the bookkeeping record written at the start of every
/// free region on the target machine: a size word plus a next pointer.
pub const NODE_SIZE: usize = 16;

/// Alignment of the bookkeeping record: one machine word.
pub const NODE_ALIGN: usize = 8;

/// A free region of the heap: the span `[addr, addr + size)`.
#[derive(Clone, Copy, PartialEq, Eq, Structural, Debug)]
pub struct Region {
    pub addr: usize,
    pub size: usize,
}

impl Region {
    pub fn new(addr: usize, size: usize) -> (r: Region)
        ensures
            r.addr == addr,
            r.size == size,
    {
        Region { addr, size }
    }

    /// The range covered by this region.
    pub open spec fn rng(self) -> (int, int) {
        (self.addr as int, self.size as int)
    }

    pub open spec fn start(self) -> int {
        self.addr as int
    }

    pub open spec fn end(self) -> int {
        self.addr + self.size
    }

    /// A region must be able to host the bookkeeping record: properly
    /// aligned, at least a record long, and inside the address space.
    /// Address zero is kept free so that it can serve as a failure
    /// sentinel at the interface above this crate.
    pub open spec fn wf(self) -> bool {
        &&& self.addr as int % NODE_ALIGN as int == 0
        &&& self.addr >= 1
        &&& self.size >= NODE_SIZE
        &&& self.addr + self.size <= usize::MAX
    }

    /// First address of the region.
    pub fn start_addr(&self) -> (r: usize)
        ensures
            r == self.addr,
    {
        self.addr
    }

    /// One past the last address of the region.
    pub fn end_addr(&self) -> (r: usize)
        requires
            self.addr + self.size <= usize::MAX,
        ensures
            r == self.end(),
    {
        self.addr + self.size
    }
}

/// The alignment actually used for a request: at least the record's.
pub open spec fn padded_align(align: int) -> int {
    max(align, NODE_ALIGN as int)
}

/// The size actually carved out for a request: rounded up so that the
/// freed span can later host a bookkeeping record again.
pub open spec fn padded_size(size: int, align: int) -> int {
    max(align_up_spec(size, padded_align(align)), NODE_SIZE as int)
}

/// Facts about the padded layout that the allocator relies on.
pub proof fn lemma_padding(size: int, align: int)
    requires
        is_pow2(align),
        size >= 1,
    ensures
        padded_align(align) >= NODE_ALIGN,
        is_pow2(padded_align(align)),
        padded_align(align) % align == 0,
        padded_align(align) % NODE_ALIGN as int == 0,
        padded_size(size, align) >= NODE_SIZE,
        padded_size(size, align) >= size,
        padded_size(size, align) % padded_align(align) == 0,
        padded_size(size, align) % NODE_ALIGN as int == 0,
{
    reveal_with_fuel(is_pow2, 5);
    assert(is_pow2(8));
    let pa = padded_align(align);
    lemma_align_up(size, pa);
    if align >= 8 {
        lemma_mod_self_0(align);
    } else {
        lemma_pow2_divides(align, 8);
    }
    lemma_pow2_divides(8, pa);
    let rounded = align_up_spec(size, pa);
    lemma_multiples_apart(0, rounded, pa);
    if rounded >= NODE_SIZE as int {
        assert(padded_size(size, align) == rounded);
    } else {
        assert(pa <= rounded < 16);
        assert(pa == 8);
        assert(padded_size(size, align) == 16);
    }
    lemma_mod_transitive(padded_size(size, align), NODE_ALIGN as int, pa);
}

/// For any valid request layout the padded request still fits the address
/// space, so the arithmetic below cannot overflow.
pub proof fn lemma_padding_fits(size: usize, align: usize)
    requires
        valid_layout(size, align),
        size >= 1,
    ensures
        size + padded_align(align as int) - 1 <= usize::MAX,
        padded_size(size as int, align as int) <= usize::MAX,
{
    let pa = padded_align(align as int);
    lemma_pow2_mask(align);
    lemma_address_space_pow2();
    lemma_pow2_divides(align as int, usize::MAX as int + 1);
    if align as int * 2 > usize::MAX as int + 1 {
        lemma_mod_self_0(align as int);
        lemma_multiples_apart(align as int, usize::MAX as int + 1, align as int);
        assert(false);
    }
    assert(isize::MAX as int == (usize::MAX as int - 1) / 2);
    assert(isize::MAX as int % align as int >= 0);
    lemma_align_up(size as int, pa);
}

/// The list of free regions, with the ghost record of what is allocated.
pub struct LinkedListAllocator {
    /// The free list, front first: index 0 is the most recently added
    /// region and the first one a search considers.
    pub regions: Vec<Region>,
    /// The padded ranges currently handed out and not yet returned.
    pub live: Ghost<Set<(int, int)>>,
    /// The heap range this allocator was initialized with, as
    /// `(start, end)`.
    pub heap: Ghost<(int, int)>,
}

/// Whether an allocation of `size` bytes aligned to `align` can be served
/// from `region`: the aligned span must fit, and the leftover tail must
/// either vanish or still be large enough to host a bookkeeping record.
pub open spec fn region_suitable(region: Region, size: int, align: int) -> bool {
    let start = align_up_spec(region.start(), align);
    let excess = region.end() - (start + size);
    &&& start + size <= region.end()
    &&& (excess == 0 || excess >= NODE_SIZE)
}

/// The index of the first region at or after `i` that can serve the
/// request, scanning front to back.
pub open spec fn first_fit_from(regions: Seq<Region>, size: int, align: int, i: int) -> Option<int>
    recommends
        0 <= i <= regions.len(),
    decreases regions.len() - i,
        when 0 <= i <= regions.len()
{
    if i >= regions.len() {
        None
    } else if region_suitable(regions[i], size, align) {
        Some(i)
    } else {
        first_fit_from(regions, size, align, i + 1)
    }
}

/// The index of the first region in the list that can serve the request.
pub open spec fn first_fit(regions: Seq<Region>, size: int, align: int) -> Option<int> {
    first_fit_from(regions, size, align, 0)
}

proof fn lemma_first_fit_from_characterization(regions: Seq<Region>, size: int, align: int,
    i: int)
    requires
        0 <= i <= regions.len(),
    ensures
        match first_fit_from(regions, size, align, i) {
            Some(k) => {
                &&& i <= k < regions.len()
                &&& region_suitable(regions[k], size, align)
                &&& forall|j: int| i <= j < k ==> !region_suitable(regions[j], size, align)
            },
            None => forall|j: int| i <= j < regions.len()
                ==> !region_suitable(regions[j], size, align),
        },
    decreases regions.len() - i,
{
    if i < regions.len() && !region_suitable(regions[i], size, align) {
        lemma_first_fit_from_characterization(regions, size, align, i + 1);
    }
}

/// First-fit law: the scan takes the frontmost suitable region and
/// nothing before it would have served; it reports failure exactly when
/// no region in the list can serve the request.
pub proof fn lemma_first_fit_characterization(regions: Seq<Region>, size: int, align: int)
    ensures
        match first_fit(regions, size, align) {
            Some(k) => {
                &&& 0 <= k < regions.len()
                &&& region_suitable(regions[k], size, align)
                &&& forall|j: int| 0 <= j < k ==> !region_suitable(regions[j], size, align)
            },
            None => forall|j: int| 0 <= j < regions.len()
                ==> !region_suitable(regions[j], size, align),
        },
{
    lemma_first_fit_from_characterization(regions, size, align, 0);
}

impl LinkedListAllocator {
    /// A freshly created, not yet initialized allocator.
    pub open spec fn pristine(self) -> bool {
        &&& self.regions@.len() == 0
        &&& self.live@ == Set::<(int, int)>::empty()
    }

    pub open spec fn heap_start(self) -> int {
        self.heap@.0
    }

    pub open spec fn heap_end(self) -> int {
        self.heap@.1
    }

    /// The range `x` lies inside the heap range this allocator owns.
    pub open spec fn in_heap(self, x: (int, int)) -> bool {
        self.heap@.0 <= x.0 && x.0 + x.1 <= self.heap@.1
    }

    /// Well-formedness: every free region can host its record and lies in
    /// the heap; free regions and live allocations are pairwise disjoint;
    /// live allocations carry the padded layout they were carved with.
    pub open spec fn wf(self) -> bool {
        &&& 0 <= self.heap@.0
        &&& self.heap@.1 <= usize::MAX
        &&& (forall|i: int| 0 <= i < self.regions@.len()
                ==> (#[trigger] self.regions@[i]).wf())
        &&& (forall|i: int| 0 <= i < self.regions@.len()
                ==> self.in_heap((#[trigger] self.regions@[i]).rng()))
        &&& (forall|i: int, j: int|
                #![trigger self.regions@[i], self.regions@[j]]
                0 <= i < self.regions@.len() && 0 <= j < self.regions@.len() && i != j
                ==> ranges_disjoint(self.regions@[i].rng(), self.regions@[j].rng()))
        &&& self.live@.finite()
        &&& (forall|e: (int, int)| #[trigger] self.live@.contains(e) ==> {
                &&& e.0 % NODE_ALIGN as int == 0
                &&& e.0 >= 1
                &&& e.1 >= NODE_SIZE
                &&& self.in_heap(e)
            })
        &&& (forall|e1: (int, int), e2: (int, int)|
                self.live@.contains(e1) && self.live@.contains(e2) && e1 != e2
                ==> ranges_disjoint(e1, e2))
        &&& (forall|i: int, e: (int, int)|
                #![trigger self.regions@[i], self.live@.contains(e)]
                0 <= i < self.regions@.len() && self.live@.contains(e)
                ==> ranges_disjoint(self.regions@[i].rng(), e))
    }

    /// Create an empty allocator. It serves nothing until [`Self::init`]
    /// registers a heap range.
    pub fn new() -> (r: Self)
        ensures
            r.wf(),
            r.pristine(),
    {
        LinkedListAllocator {
            regions: Vec::new(),
            live: Ghost(Set::empty()),
            heap: Ghost((0, 0)),
        }
    }

    /// Register the heap range `[heap_start, heap_start + heap_size)` as
    /// one big free region. The caller guarantees exclusive ownership of
    /// the range; the allocator must be freshly created, and this must be
    /// called exactly once.
    pub fn init(&mut self, heap_start: usize, heap_size: usize)
        requires
            old(self).pristine(),
            heap_start as int % NODE_ALIGN as int == 0,
            heap_start >= 1,
            heap_size >= NODE_SIZE,
            heap_start + heap_size <= usize::MAX,
        ensures
            final(self).wf(),
            final(self).regions@.len() == 1,
            final(self).regions@[0] == (Region { addr: heap_start, size: heap_size }),
            final(self).live@ == old(self).live@,
            final(self).heap@ == (heap_start as int, heap_start + heap_size as int),
    {
        self.heap = Ghost((heap_start as int, heap_start + heap_size as int));
        self.add_free_region(heap_start, heap_size);
    }

    /// Put the span `[addr, addr + size)` at the front of the free list.
    fn add_free_region(&mut self, addr: usize, size: usize)
        requires
            old(self).wf(),
            addr as int % NODE_ALIGN as int == 0,
            addr >= 1,
            size >= NODE_SIZE,
            addr + size <= usize::MAX,
            old(self).in_heap((addr as int, size as int)),
            forall|i: int| 0 <= i < old(self).regions@.len()
                ==> ranges_disjoint((addr as int, size as int),
                    (#[trigger] old(self).regions@[i]).rng()),
            forall|e: (int, int)| #[trigger] old(self).live@.contains(e)
                ==> ranges_disjoint((addr as int, size as int), e),
        ensures
            final(self).wf(),
            final(self).regions@ == old(self).regions@.insert(0, (Region { addr, size })),
            final(self).live@ == old(self).live@,
            final(self).heap@ == old(self).heap@,
    {
        let node = Region::new(addr, size);
        self.regions.insert(0, node);
        proof {
            old(self).regions@.insert_ensures(0, node);
            assert(self.regions@[0] == node);
            assert(forall|i: int| 1 <= i < self.regions@.len()
                ==> self.regions@[i] == old(self).regions@[i - 1]);
        }
    }

    /// Everything `find_region` does: on success the first suitable
    /// region (front to back) leaves the list and is returned with the
    /// aligned allocation start inside it.
    pub open spec fn find_spec(pre: Self, post: Self, size: int, align: int,
        r: Option<(Region, usize)>) -> bool {
        &&& post.live@ == pre.live@
        &&& post.heap@ == pre.heap@
        &&& match first_fit(pre.regions@, size, align) {
            Some(i) => {
                &&& (r matches Some(pair)
                    && pair.0 == pre.regions@[i]
                    && pair.1 == align_up_spec(pre.regions@[i].start(), align))
                &&& post.regions@ == pre.regions@.remove(i)
            },
            None => {
                &&& r is None
                &&& post.regions@ == pre.regions@
            },
        }
    }

    /// Walk the free list front to back and remove the first region that
    /// can serve `size` bytes at alignment `align`. Returns the region
    /// together with the aligned allocation start, or `None` exactly when
    /// no region in the list is suitable.
    pub fn find_region(&mut self, size: usize, align: usize) -> (r: Option<(Region, usize)>)
        requires
            old(self).wf(),
            is_pow2(align as int),
            size >= 1,
        ensures
            final(self).wf(),
            Self::find_spec(*old(self), *final(self), size as int, align as int, r),
            r matches Some(pair) ==> {
                &&& pair.0.wf()
                &&& region_suitable(pair.0, size as int, align as int)
                &&& old(self).in_heap(pair.0.rng())
                &&& (forall|i: int| 0 <= i < final(self).regions@.len()
                    ==> ranges_disjoint(pair.0.rng(),
                        (#[trigger] final(self).regions@[i]).rng()))
                &&& (forall|e: (int, int)| #[trigger] final(self).live@.contains(e)
                    ==> ranges_disjoint(pair.0.rng(), e))
            },
    {
        let mut idx: usize = 0;
        while idx < self.regions.len()
            invariant
                self.wf(),
                *self == *old(self),
                is_pow2(align as int),
                size >= 1,
                0 <= idx <= self.regions@.len(),
                first_fit(self.regions@, size as int, align as int)
                    == first_fit_from(self.regions@, size as int, align as int, idx as int),
            decreases self.regions@.len() - idx,
        {
            let region = self.regions[idx];
            match Self::alloc_from_region(&region, size, align) {
                Ok(alloc_start) => {
                    let removed = self.regions.remove(idx);
                    proof {
                        assert(first_fit(old(self).regions@, size as int, align as int)
                            == Some(idx as int));
                        old(self).regions@.remove_ensures(idx as int);
                        assert forall|i: int| 0 <= i < self.regions@.len()
                            implies ranges_disjoint(removed.rng(),
                                (#[trigger] self.regions@[i]).rng()) by {
                            if i < idx as int {
                                assert(self.regions@[i] == old(self).regions@[i]);
                            } else {
                                assert(self.regions@[i] == old(self).regions@[i + 1]);
                            }
                        };
                    }
                    return Some((removed, alloc_start));
                },
                Err(()) => {
                    idx = idx + 1;
                },
            }
        }
        None
    }

    /// Decide whether `region` can serve the request, without touching
    /// the list. Returns the aligned allocation start on success; the
    /// region is rejected exactly when it is not suitable.
    pub fn alloc_from_region(region: &Region, size: usize, align: usize)
        -> (r: Result<usize, ()>)
        requires
            region.wf(),
            is_pow2(align as int),
            size >= 1,
        ensures
            r matches Ok(start)
                ==> start == align_up_spec(region.start(), align as int),
            r is Ok <==> region_suitable(*region, size as int, align as int),
    {
        proof {
            lemma_pow2_mask(align);
            lemma_align_up(region.start(), align as int);
        }
        let alloc_start = match region.addr.checked_add(align - 1) {
            Some(_) => align_up(region.addr, align),
            None => {
                proof {
                    lemma_align_up_overflow(region.addr, align);
                }
                return Err(());
            },
        };
        let alloc_end = match alloc_start.checked_add(size) {
            Some(e) => e,
            None => {
                return Err(());
            },
        };
        let region_end = region.addr + region.size;
        if alloc_end > region_end {
            return Err(());
        }
        let excess = region_end - alloc_end;
        if excess > 0 && excess < NODE_SIZE {
            return Err(());
        }
        Ok(alloc_start)
    }

    /// The padded layout actually carved for a request: `(size, align)`
    /// both raised so that any freed span can host a bookkeeping record
    /// again.
    pub fn size_align(size: usize, align: usize) -> (r: (usize, usize))
        requires
            valid_layout(size, align),
            size >= 1,
        ensures
            r.0 == padded_size(size as int, align as int),
            r.1 == padded_align(align as int),
    {
        proof {
            lemma_pow2_mask(align);
            lemma_padding(size as int, align as int);
            lemma_padding_fits(size, align);
        }
        let align2 = if align >= NODE_ALIGN { align } else { NODE_ALIGN };
        let rounded = align_up(size, align2);
        let size2 = if rounded >= NODE_SIZE { rounded } else { NODE_SIZE };
        (size2, align2)
    }

    /// Everything `allocate` does: the first-fit region is carved at its
    /// aligned start, a non-empty leftover tail returns to the front of
    /// the free list, and the padded range becomes live.
    pub open spec fn alloc_spec(pre: Self, post: Self, size: int, align: int, r: Option<usize>)
        -> bool {
        let psize = padded_size(size, align);
        let palign = padded_align(align);
        match first_fit(pre.regions@, psize, palign) {
            Some(i) => {
                let reg = pre.regions@[i];
                let start = align_up_spec(reg.start(), palign);
                let excess = reg.end() - (start + psize);
                &&& (r matches Some(p) && p == start)
                &&& post.live@ == pre.live@.insert((start, psize))
                &&& post.heap@ == pre.heap@
                &&& post.regions@ == if excess > 0 {
                    pre.regions@.remove(i).insert(0,
                        (Region { addr: (start + psize) as usize, size: excess as usize }))
                } else {
                    pre.regions@.remove(i)
                }
            },
            None => {
                &&& r is None
                &&& post.regions@ == pre.regions@
                &&& post.live@ == pre.live@
                &&& post.heap@ == pre.heap@
            },
        }
    }

    /// Allocate `size` bytes aligned to `align`. The request is padded to
    /// the record's layout, served first-fit from the free list, and any
    /// leftover tail of the chosen region is re-inserted at the front.
    /// Returns `None` exactly when no free region can serve the padded
    /// request.
    pub fn allocate(&mut self, size: usize, align: usize) -> (r: Option<usize>)
        requires
            old(self).wf(),
            valid_layout(size, align),
            size >= 1,
        ensures
            final(self).wf(),
            Self::alloc_spec(*old(self), *final(self), size as int, align as int, r),
            r matches Some(p) ==> {
                &&& p as int % padded_align(align as int) == 0
                &&& p as int % align as int == 0
                &&& p >= 1
                &&& old(self).heap@.0 <= p
                &&& p + padded_size(size as int, align as int) <= old(self).heap@.1
                &&& p + size <= old(self).heap@.1
                &&& final(self).live@
                    == old(self).live@.insert((p as int, padded_size(size as int, align as int)))
                &&& (forall|e: (int, int)| #[trigger] old(self).live@.contains(e)
                    ==> ranges_disjoint((p as int, padded_size(size as int, align as int)), e))
            },
    {
        proof {
            lemma_pow2_mask(align);
            lemma_padding(size as int, align as int);
        }
        let (psize, palign) = Self::size_align(size, align);
        match self.find_region(psize, palign) {
            Some((region, alloc_start)) => {
                proof {
                    lemma_align_up(region.start(), palign as int);
                    lemma_mod_transitive(alloc_start as int, align as int, palign as int);
                    lemma_mod_transitive(alloc_start as int, NODE_ALIGN as int, palign as int);
                    assert(region_suitable(region, psize as int, palign as int));
                    assert(region.start() <= alloc_start);
                    assert(alloc_start + psize <= region.end());
                }
                let alloc_end = alloc_start + psize;
                let region_end = region.addr + region.size;
                let excess = region_end - alloc_end;
                let ghost mid = *self;
                let ghost alloc_rng = (alloc_start as int, psize as int);
                if excess > 0 {
                    proof {
                        lemma_add_mod_noop(alloc_start as int, psize as int, NODE_ALIGN as int);
                        assert forall|i: int| 0 <= i < mid.regions@.len()
                            implies ranges_disjoint((alloc_end as int, excess as int),
                                (#[trigger] mid.regions@[i]).rng()) by {
                            assert(ranges_disjoint(region.rng(), mid.regions@[i].rng()));
                        };
                        assert forall|e: (int, int)| #[trigger] mid.live@.contains(e)
                            implies ranges_disjoint((alloc_end as int, excess as int), e) by {
                            assert(ranges_disjoint(region.rng(), e));
                        };
                    }
                    self.add_free_region(alloc_end, excess);
                    proof {
                        mid.regions@.insert_ensures(0,
                            Region { addr: alloc_end, size: excess });
                    }
                }
                proof {
                    // The carved range lies inside the chosen region, so it
                    // inherits the region's distance from everything else.
                    assert forall|e: (int, int)| #[trigger] mid.live@.contains(e)
                        implies ranges_disjoint(alloc_rng, e) by {
                        assert(ranges_disjoint(region.rng(), e));
                    };
                    assert forall|i: int| 0 <= i < self.regions@.len()
                        implies ranges_disjoint((#[trigger] self.regions@[i]).rng(),
                            alloc_rng) by {
                        if excess > 0 {
                            if i == 0 {
                                assert(self.regions@[0]
                                    == (Region { addr: alloc_end, size: excess }));
                            } else {
                                assert(self.regions@[i] == mid.regions@[i - 1]);
                                assert(ranges_disjoint(region.rng(),
                                    mid.regions@[i - 1].rng()));
                            }
                        } else {
                            assert(ranges_disjoint(region.rng(), self.regions@[i].rng()));
                        }
                    };
                }
                self.live = Ghost(self.live@.insert((alloc_start as int, psize as int)));
                proof {
                    assert forall|e1: (int, int), e2: (int, int)|
                        self.live@.contains(e1) && self.live@.contains(e2) && e1 != e2
                        implies ranges_disjoint(e1, e2) by {
                        if e1 == alloc_rng {
                            assert(mid.live@.contains(e2));
                        } else if e2 == alloc_rng {
                            assert(mid.live@.contains(e1));
                        } else {
                            assert(mid.live@.contains(e1) && mid.live@.contains(e2));
                        }
                    };
                    assert(self.wf());
                    assert(Self::alloc_spec(*old(self), *self, size as int, align as int,
                        Some(alloc_start)));
                }
                Some(alloc_start)
            },
            None => None,
        }
    }

    /// Everything `deallocate` does: the padded span returns to the front
    /// of the free list and stops being live.
    pub open spec fn dealloc_spec(pre: Self, post: Self, ptr: int, size: int, align: int)
        -> bool {
        let psize = padded_size(size, align);
        &&& post.regions@ == pre.regions@.insert(0,
            (Region { addr: ptr as usize, size: psize as usize }))
        &&& post.live@ == pre.live@.remove((ptr, psize))
        &&& post.heap@ == pre.heap@
    }

    /// Return the span at `ptr` that was previously produced by
    /// [`Self::allocate`] with the same `size` and `align`. The padded
    /// span becomes the new front of the free list; no merging with
    /// adjacent free regions is attempted.
    pub fn deallocate(&mut self, ptr: usize, size: usize, align: usize)
        requires
            old(self).wf(),
            valid_layout(size, align),
            size >= 1,
            old(self).live@.contains((ptr as int,
                padded_size(size as int, align as int))),
        ensures
            final(self).wf(),
            Self::dealloc_spec(*old(self), *final(self), ptr as int, size as int, align as int),
    {
        proof {
            lemma_pow2_mask(align);
            lemma_padding(size as int, align as int);
        }
        let (psize, _palign) = Self::size_align(size, align);
        let ghost e = (ptr as int, psize as int);
        proof {
            assert(old(self).live@.contains(e));
            assert(old(self).in_heap(e));
        }
        self.live = Ghost(self.live@.remove((ptr as int, psize as int)));
        proof {
            assert forall|i: int| 0 <= i < self.regions@.len()
                implies ranges_disjoint(e, (#[trigger] self.regions@[i]).rng()) by {
                assert(ranges_disjoint(self.regions@[i].rng(), e));
            };
            assert forall|e2: (int, int)| #[trigger] self.live@.contains(e2)
                implies ranges_disjoint(e, e2) by {
                assert(old(self).live@.contains(e2) && e2 != e);
            };
        }
        self.add_free_region(ptr, psize);
    }

    /// No-overlap law: in a well-formed allocator any two distinct live
    /// allocations occupy disjoint address ranges.
    pub proof fn lemma_live_allocations_disjoint(s: Self, a: (int, int), b: (int, int))
        requires
            s.wf(),
            s.live@.contains(a),
            s.live@.contains(b),
            a != b,
        ensures
            ranges_disjoint(a, b),
    {
    }

    /// Containment law: every range handed out by a well-formed
    /// allocator lies inside the heap range it was initialized with.
    pub proof fn lemma_live_in_heap(s: Self, a: (int, int))
        requires
            s.wf(),
            s.live@.contains(a),
        ensures
            s.heap@.0 <= a.0,
            a.0 + a.1 <= s.heap@.1,
    {
    }

    /// Reclamation law: memory given back is usable again. Freeing an
    /// allocation and then requesting the same layout succeeds, and the
    /// front-of-list discipline even returns the same address.
    pub proof fn lemma_reclaim_round_trip(
        s0: Self, s1: Self, s2: Self,
        ptr: usize, size: int, align: int, r: Option<usize>,
    )
        requires
            s0.wf(),
            is_pow2(align),
            size >= 1,
            ptr as int % padded_align(align) == 0,
            ptr + padded_size(size, align) <= usize::MAX,
            Self::dealloc_spec(s0, s1, ptr as int, size, align),
            Self::alloc_spec(s1, s2, size, align, r),
        ensures
            r == Some(ptr),
    {
        lemma_padding(size, align);
        let psize = padded_size(size, align);
        let palign = padded_align(align);
        let node = Region { addr: ptr, size: psize as usize };
        lemma_align_up_aligned(ptr as int, palign);
        assert(region_suitable(node, psize, palign));
        assert(s1.regions@[0] == node);
        assert(first_fit(s1.regions@, psize, palign) == Some(0int));
    }
}

} // verus!

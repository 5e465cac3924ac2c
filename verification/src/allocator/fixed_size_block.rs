//! A size-classed allocator with an embedded first-fit fallback.
//!
//! Requests whose required block size (the larger of size and alignment)
//! fits one of the fixed power-of-two classes are served from that class's
//! free list: pop the front block, or, when the list is empty, carve one
//! block of exactly the class size (and class alignment) out of the
//! embedded [`LinkedListAllocator`]. Deallocation pushes the block back
//! onto its class list, so after a warm-up phase most requests are served
//! in constant time. Blocks never migrate between classes and never
//! return to the fallback pool. Requests larger than the largest class
//! are forwarded to the fallback allocator unchanged.
//!
//! Rounding a request up to its class wastes at most half of the block;
//! more waste would mean the request belonged to a smaller class. That
//! internal fragmentation is the price of the constant-time fast path.
//!
//! The ghost fields split the bookkeeping: `class_live` holds the blocks
//! handed out through a class list, `fallback_live` the ranges handed out
//! straight from the fallback. Every class block, free or live, stays
//! covered by the range once carved for it from the fallback, which is
//! what keeps class blocks and fallback memory from ever overlapping.

use vstd::prelude::*;

verus! {

use vstd::arithmetic::power2::is_pow2;
use vstd::layout::valid_layout;
use vstd::math::max;
use crate::allocator::{lemma_mod_transitive, lemma_pow2_divides, lemma_pow2_mask, range_within,
    ranges_disjoint};
use crate::allocator::linked_list::{LinkedListAllocator, padded_align, padded_size,
    lemma_padding, NODE_SIZE, NODE_ALIGN};

/// Number of size classes.
pub const BLOCK_COUNT: usize = 9;

/// The block size of class `i`: powers of two from 8 to 2048 bytes. The
/// smallest class must hold a next pointer; beyond the largest class the
/// fallback allocator serves better.
pub open spec fn class_size(i: int) -> int {
    if i == 0 { 8 }
    else if i == 1 { 16 }
    else if i == 2 { 32 }
    else if i == 3 { 64 }
    else if i == 4 { 128 }
    else if i == 5 { 256 }
    else if i == 6 { 512 }
    else if i == 7 { 1024 }
    else if i == 8 { 2048 }
    else { 0 }
}

/// The block size of class `i`, at run time.
pub fn block_size(i: usize) -> (r: usize)
    requires
        i < BLOCK_COUNT,
    ensures
        r == class_size(i as int),
{
    if i == 0 { 8 }
    else if i == 1 { 16 }
    else if i == 2 { 32 }
    else if i == 3 { 64 }
    else if i == 4 { 128 }
    else if i == 5 { 256 }
    else if i == 6 { 512 }
    else if i == 7 { 1024 }
    else { 2048 }
}

/// Every class size is a power of two between 8 and 2048.
pub proof fn lemma_class_sizes(i: int)
    requires
        0 <= i < BLOCK_COUNT,
    ensures
        is_pow2(class_size(i)),
        8 <= class_size(i) <= 2048,
{
    reveal_with_fuel(is_pow2, 13);
}

/// The class that serves a request, if any: the smallest class at least
/// as large as both the size and the alignment. Because classes are
/// powers of two and blocks are carved at class-aligned addresses, a
/// block of class `i` satisfies every alignment up to `class_size(i)`,
/// so one comparison covers both demands.
pub open spec fn list_index_spec(size: int, align: int) -> Option<int> {
    let required = max(size, align);
    if required <= 8 { Some(0int) }
    else if required <= 16 { Some(1int) }
    else if required <= 32 { Some(2int) }
    else if required <= 64 { Some(3int) }
    else if required <= 128 { Some(4int) }
    else if required <= 256 { Some(5int) }
    else if required <= 512 { Some(6int) }
    else if required <= 1024 { Some(7int) }
    else if required <= 2048 { Some(8int) }
    else { None }
}

/// Find the class for a request, at run time. Returns `None` exactly
/// when the request is too large for every class and must go to the
/// fallback allocator.
pub fn list_index(size: usize, align: usize) -> (r: Option<usize>)
    ensures
        match list_index_spec(size as int, align as int) {
            Some(i) => r matches Some(j) && j == i,
            None => r is None,
        },
        r matches Some(i) ==> {
            &&& i < BLOCK_COUNT
            &&& size <= class_size(i as int)
            &&& align <= class_size(i as int)
        },
        r is None <==> max(size as int, align as int) > 2048,
{
    let required = if size >= align { size } else { align };
    if required <= 8 { Some(0) }
    else if required <= 16 { Some(1) }
    else if required <= 32 { Some(2) }
    else if required <= 64 { Some(3) }
    else if required <= 128 { Some(4) }
    else if required <= 256 { Some(5) }
    else if required <= 512 { Some(6) }
    else if required <= 1024 { Some(7) }
    else if required <= 2048 { Some(8) }
    else { None }
}

/// The range `x` lies inside some range of `s`. A class block is always
/// covered by the range that was once carved for it from the fallback
/// allocator, which that allocator still counts as allocated.
pub open spec fn covered(x: (int, int), s: Set<(int, int)>) -> bool {
    exists|p: (int, int)| #[trigger] s.contains(p) && range_within(x, p)
}

proof fn lemma_covered_remove(x: (int, int), s: Set<(int, int)>, e: (int, int))
    requires
        covered(x, s),
        ranges_disjoint(x, e),
        x.1 >= 1,
    ensures
        covered(x, s.remove(e)),
{
    let p = choose|p: (int, int)| s.contains(p) && range_within(x, p);
    assert(p != e);
    assert(s.remove(e).contains(p));
}

pub struct FixedSizeBlockAllocator {
    /// One free list per class; `list_heads@[i]` holds the addresses of
    /// the free blocks of class `i`, the front of the list last.
    pub list_heads: Vec<Vec<usize>>,
    /// The allocator that serves oversize requests and provides fresh
    /// blocks when a class list is empty.
    pub fallback_allocator: LinkedListAllocator,
    /// Blocks handed out through a class list: `(address, class size)`.
    pub class_live: Ghost<Set<(int, int)>>,
    /// Ranges handed out straight from the fallback allocator:
    /// `(address, padded size)`.
    pub fallback_live: Ghost<Set<(int, int)>>,
}

impl FixedSizeBlockAllocator {
    /// The free block `k` of class `i`, as an address range.
    pub open spec fn block_at(self, i: int, k: int) -> (int, int) {
        (self.list_heads@[i]@[k] as int, class_size(i))
    }

    /// Whether `(i, k)` indexes a free block.
    pub open spec fn valid_block(self, i: int, k: int) -> bool {
        0 <= i < BLOCK_COUNT && 0 <= k < self.list_heads@[i]@.len()
    }

    /// All ranges currently handed out to callers, through either path.
    pub open spec fn user_live(self) -> Set<(int, int)> {
        self.class_live@.union(self.fallback_live@)
    }

    /// A freshly created, not yet initialized allocator.
    pub open spec fn pristine(self) -> bool {
        &&& self.list_heads@.len() == BLOCK_COUNT
        &&& (forall|i: int| 0 <= i < BLOCK_COUNT
                ==> (#[trigger] self.list_heads@[i])@.len() == 0)
        &&& self.fallback_allocator.pristine()
        &&& self.class_live@ == Set::<(int, int)>::empty()
        &&& self.fallback_live@ == Set::<(int, int)>::empty()
    }

    /// Well-formedness. Free class blocks are aligned to their class
    /// size and covered by fallback memory that stays reserved for them;
    /// free blocks and the two kinds of live ranges are pairwise
    /// disjoint; every range handed out through the fallback path is a
    /// range the fallback allocator counts as allocated.
    pub open spec fn wf(self) -> bool {
        &&& self.fallback_allocator.wf()
        &&& self.list_heads@.len() == BLOCK_COUNT
        &&& (forall|i: int, k: int| self.valid_block(i, k) ==> {
                let b = #[trigger] self.block_at(i, k);
                &&& b.0 % class_size(i) == 0
                &&& b.0 >= 1
                &&& b.0 + b.1 <= usize::MAX
                &&& covered(b, self.fallback_allocator.live@)
            })
        &&& (forall|i1: int, k1: int, i2: int, k2: int|
                #![trigger self.block_at(i1, k1), self.block_at(i2, k2)]
                self.valid_block(i1, k1) && self.valid_block(i2, k2) && (i1, k1) != (i2, k2)
                ==> ranges_disjoint(self.block_at(i1, k1), self.block_at(i2, k2)))
        &&& self.class_live@.finite()
        &&& (forall|c: (int, int)| #[trigger] self.class_live@.contains(c) ==> {
                &&& c.0 % c.1 == 0
                &&& c.0 >= 1
                &&& c.1 >= 1
                &&& c.0 + c.1 <= usize::MAX
                &&& covered(c, self.fallback_allocator.live@)
            })
        &&& (forall|c1: (int, int), c2: (int, int)|
                self.class_live@.contains(c1) && self.class_live@.contains(c2) && c1 != c2
                ==> ranges_disjoint(c1, c2))
        &&& (forall|i: int, k: int, c: (int, int)|
                #![trigger self.block_at(i, k), self.class_live@.contains(c)]
                self.valid_block(i, k) && self.class_live@.contains(c)
                ==> ranges_disjoint(self.block_at(i, k), c))
        &&& self.fallback_live@.finite()
        &&& (forall|f: (int, int)| #[trigger] self.fallback_live@.contains(f)
                ==> self.fallback_allocator.live@.contains(f))
        &&& (forall|i: int, k: int, f: (int, int)|
                #![trigger self.block_at(i, k), self.fallback_live@.contains(f)]
                self.valid_block(i, k) && self.fallback_live@.contains(f)
                ==> ranges_disjoint(self.block_at(i, k), f))
        &&& (forall|c: (int, int), f: (int, int)|
                self.class_live@.contains(c) && self.fallback_live@.contains(f)
                ==> ranges_disjoint(c, f))
    }

    /// Create an empty allocator: every class list empty, the fallback
    /// not yet initialized.
    pub fn new() -> (r: Self)
        ensures
            r.wf(),
            r.pristine(),
    {
        let mut heads: Vec<Vec<usize>> = Vec::new();
        let mut n: usize = 0;
        while n < BLOCK_COUNT
            invariant
                heads@.len() == n,
                n <= BLOCK_COUNT,
                forall|i: int| 0 <= i < n ==> (#[trigger] heads@[i])@.len() == 0,
            decreases BLOCK_COUNT - n,
        {
            heads.push(Vec::new());
            n = n + 1;
        }
        FixedSizeBlockAllocator {
            list_heads: heads,
            fallback_allocator: LinkedListAllocator::new(),
            class_live: Ghost(Set::empty()),
            fallback_live: Ghost(Set::empty()),
        }
    }

    /// Bind the allocator to the heap range `[heap_start, heap_start +
    /// heap_size)`. Only the fallback allocator needs the range: the
    /// class lists fill lazily as blocks come back. Call exactly once,
    /// on a freshly created allocator whose range the caller owns.
    pub fn init(&mut self, heap_start: usize, heap_size: usize)
        requires
            old(self).pristine(),
            heap_start as int % NODE_ALIGN as int == 0,
            heap_start >= 1,
            heap_size >= NODE_SIZE,
            heap_start + heap_size <= usize::MAX,
        ensures
            final(self).wf(),
            final(self).list_heads@ == old(self).list_heads@,
            final(self).class_live@ == old(self).class_live@,
            final(self).fallback_live@ == old(self).fallback_live@,
            final(self).fallback_allocator.regions@.len() == 1,
            final(self).fallback_allocator.regions@[0]
                == (crate::allocator::linked_list::Region { addr: heap_start, size: heap_size }),
            final(self).fallback_allocator.live@ == old(self).fallback_allocator.live@,
            final(self).fallback_allocator.heap@
                == (heap_start as int, heap_start + heap_size as int),
    {
        self.fallback_allocator.init(heap_start, heap_size);
    }

    /// A mutable borrow of one class list.
    fn class_list_mut(lists: &mut Vec<Vec<usize>>, i: usize) -> (list: &mut Vec<usize>)
        requires
            i < old(lists)@.len(),
        ensures
            *list == old(lists)@[i as int],
            final(lists)@ == old(lists)@.update(i as int, *final(list)),
    {
        &mut lists[i]
    }

    /// Everything `allocate` does. With a class: pop the front block of
    /// the class list, or, when the list is empty, carve one block of
    /// exactly the class layout from the fallback. Without a class:
    /// forward the request unchanged to the fallback.
    pub open spec fn alloc_spec(pre: Self, post: Self, size: int, align: int, r: Option<usize>)
        -> bool {
        match list_index_spec(size, align) {
            Some(i) => {
                if pre.list_heads@[i]@.len() > 0 {
                    let b = pre.list_heads@[i]@.last();
                    &&& (r matches Some(p) && p == b)
                    &&& post.list_heads@.len() == BLOCK_COUNT
                    &&& post.list_heads@[i]@ == pre.list_heads@[i]@.drop_last()
                    &&& (forall|j: int| 0 <= j < BLOCK_COUNT && j != i
                            ==> (#[trigger] post.list_heads@[j])@ == pre.list_heads@[j]@)
                    &&& post.fallback_allocator.regions@ == pre.fallback_allocator.regions@
                    &&& post.fallback_allocator.live@ == pre.fallback_allocator.live@
                    &&& post.fallback_allocator.heap@ == pre.fallback_allocator.heap@
                    &&& post.class_live@ == pre.class_live@.insert((b as int, class_size(i)))
                    &&& post.fallback_live@ == pre.fallback_live@
                } else {
                    &&& LinkedListAllocator::alloc_spec(pre.fallback_allocator,
                        post.fallback_allocator, class_size(i), class_size(i), r)
                    &&& post.list_heads@.len() == BLOCK_COUNT
                    &&& (forall|j: int| 0 <= j < BLOCK_COUNT
                            ==> (#[trigger] post.list_heads@[j])@ == pre.list_heads@[j]@)
                    &&& (r matches Some(p) ==> post.class_live@
                            == pre.class_live@.insert((p as int, class_size(i)))
                            && post.fallback_live@ == pre.fallback_live@)
                    &&& (r is None ==> post.class_live@ == pre.class_live@
                            && post.fallback_live@ == pre.fallback_live@)
                }
            },
            None => {
                &&& LinkedListAllocator::alloc_spec(pre.fallback_allocator,
                    post.fallback_allocator, size, align, r)
                &&& post.list_heads@.len() == BLOCK_COUNT
                &&& (forall|j: int| 0 <= j < BLOCK_COUNT
                        ==> (#[trigger] post.list_heads@[j])@ == pre.list_heads@[j]@)
                &&& (r matches Some(p) ==> post.fallback_live@
                        == pre.fallback_live@.insert((p as int, padded_size(size, align)))
                        && post.class_live@ == pre.class_live@)
                &&& (r is None ==> post.class_live@ == pre.class_live@
                        && post.fallback_live@ == pre.fallback_live@)
            },
        }
    }

    /// Allocate `size` bytes aligned to `align`, preferring the matching
    /// class list, falling back to carving a fresh class block, and
    /// forwarding oversize requests to the fallback allocator. Returns
    /// `None` exactly when the fallback cannot serve the needed carve.
    pub fn allocate(&mut self, size: usize, align: usize) -> (r: Option<usize>)
        requires
            old(self).wf(),
            valid_layout(size, align),
            size >= 1,
        ensures
            final(self).wf(),
            Self::alloc_spec(*old(self), *final(self), size as int, align as int, r),
            r matches Some(p) ==> {
                &&& p as int % align as int == 0
                &&& p >= 1
                &&& final(self).fallback_allocator.heap@.0 <= p
                &&& p + size <= final(self).fallback_allocator.heap@.1
            },
    {
        proof {
            lemma_pow2_mask(align);
        }
        match list_index(size, align) {
            Some(index) => {
                let ghost i = index as int;
                proof {
                    lemma_class_sizes(i);
                }
                let ghost pre = *self;
                let list = Self::class_list_mut(&mut self.list_heads, index);
                let popped = list.pop();
                match popped {
                    Some(block) => {
                        self.class_live = Ghost(
                            self.class_live@.insert((block as int, class_size(i))),
                        );
                        proof {
                            let len = pre.list_heads@[i]@.len();
                            assert(pre.valid_block(i, len - 1));
                            let b = pre.block_at(i, len - 1);
                            assert(b == (block as int, class_size(i)));
                            Self::lemma_wf_after_pop(pre, *self, i, block);
                            lemma_pow2_divides(align as int, class_size(i));
                            lemma_mod_transitive(block as int, align as int, class_size(i));
                            let parent = choose|p: (int, int)|
                                pre.fallback_allocator.live@.contains(p)
                                && range_within(b, p);
                            assert(pre.fallback_allocator.in_heap(parent));
                        }
                        Some(block)
                    },
                    None => {
                        let bs = block_size(index);
                        proof {
                            assert(isize::MAX as int == (usize::MAX as int - 1) / 2);
                            assert((isize::MAX as int) % (bs as int) < bs as int);
                            assert(valid_layout(bs, bs));
                        }
                        let ghost mid = *self;
                        proof {
                            Self::lemma_wf_same_views(pre, mid);
                        }
                        let res = self.fallback_allocator.allocate(bs, bs);
                        match res {
                            Some(addr) => {
                                self.class_live = Ghost(
                                    self.class_live@.insert((addr as int, class_size(i))),
                                );
                                proof {
                                    lemma_padding(bs as int, bs as int);
                                    Self::lemma_wf_after_carve(mid, *self, i, addr);
                                    lemma_pow2_divides(align as int, class_size(i));
                                    lemma_mod_transitive(addr as int, align as int,
                                        class_size(i));
                                }
                                Some(addr)
                            },
                            None => {
                                proof {
                                    Self::lemma_wf_same_views(mid, *self);
                                }
                                None
                            },
                        }
                    },
                }
            },
            None => {
                let ghost pre = *self;
                let res = self.fallback_allocator.allocate(size, align);
                match res {
                    Some(addr) => {
                        self.fallback_live = Ghost(
                            self.fallback_live@.insert(
                                (addr as int, padded_size(size as int, align as int))),
                        );
                        proof {
                            lemma_padding(size as int, align as int);
                            Self::lemma_wf_after_fallback_alloc(pre, *self, addr, size, align);
                        }
                        Some(addr)
                    },
                    None => {
                        proof {
                            Self::lemma_wf_same_views(pre, *self);
                        }
                        None
                    },
                }
            },
        }
    }

    /// Well-formedness only depends on the views of the state, so it
    /// carries over to any state with the same views.
    proof fn lemma_wf_same_views(pre: Self, post: Self)
        requires
            pre.wf(),
            post.fallback_allocator.wf(),
            post.fallback_allocator.live@ == pre.fallback_allocator.live@,
            post.class_live@ == pre.class_live@,
            post.fallback_live@ == pre.fallback_live@,
            post.list_heads@.len() == BLOCK_COUNT,
            forall|j: int| 0 <= j < BLOCK_COUNT
                ==> (#[trigger] post.list_heads@[j])@ == pre.list_heads@[j]@,
        ensures
            post.wf(),
    {
        assert(forall|i2: int, k2: int| post.valid_block(i2, k2)
            ==> pre.valid_block(i2, k2)
                && #[trigger] post.block_at(i2, k2) == pre.block_at(i2, k2));
    }

    /// Re-establish well-formedness after the front block of class `i`
    /// has been popped and recorded as live.
    proof fn lemma_wf_after_pop(pre: Self, post: Self, i: int, block: usize)
        requires
            pre.wf(),
            0 <= i < BLOCK_COUNT,
            pre.list_heads@[i]@.len() > 0,
            block == pre.list_heads@[i]@.last(),
            post.list_heads@.len() == BLOCK_COUNT,
            post.list_heads@[i]@ == pre.list_heads@[i]@.drop_last(),
            forall|j: int| 0 <= j < BLOCK_COUNT && j != i
                ==> (#[trigger] post.list_heads@[j])@ == pre.list_heads@[j]@,
            post.fallback_allocator == pre.fallback_allocator,
            post.class_live@ == pre.class_live@.insert((block as int, class_size(i))),
            post.fallback_live@ == pre.fallback_live@,
        ensures
            post.wf(),
    {
        let len = pre.list_heads@[i]@.len();
        let b = pre.block_at(i, len - 1);
        assert(pre.valid_block(i, len - 1));
        assert(b == (block as int, class_size(i)));
        assert(forall|i2: int, k2: int| post.valid_block(i2, k2)
            ==> pre.valid_block(i2, k2)
                && #[trigger] post.block_at(i2, k2) == pre.block_at(i2, k2));
        assert forall|c1: (int, int), c2: (int, int)|
            post.class_live@.contains(c1) && post.class_live@.contains(c2) && c1 != c2
            implies ranges_disjoint(c1, c2) by {
            if c1 == b {
                assert(pre.class_live@.contains(c2));
            } else if c2 == b {
                assert(pre.class_live@.contains(c1));
            } else {
                assert(pre.class_live@.contains(c1) && pre.class_live@.contains(c2));
            }
        };
        assert forall|i2: int, k2: int, c: (int, int)|
            #![trigger post.block_at(i2, k2), post.class_live@.contains(c)]
            post.valid_block(i2, k2) && post.class_live@.contains(c)
            implies ranges_disjoint(post.block_at(i2, k2), c) by {
            assert(pre.valid_block(i2, k2));
            if c == b {
                assert((i2, k2) != (i, len - 1));
                assert(ranges_disjoint(pre.block_at(i2, k2), pre.block_at(i, len - 1)));
            } else {
                assert(pre.class_live@.contains(c));
            }
        };
        assert forall|c: (int, int), f: (int, int)|
            post.class_live@.contains(c) && post.fallback_live@.contains(f)
            implies ranges_disjoint(c, f) by {
            if c == b {
                assert(ranges_disjoint(pre.block_at(i, len - 1), f));
            } else {
                assert(pre.class_live@.contains(c));
            }
        };
    }

    /// Re-establish well-formedness after a fresh block for class `i`
    /// has been carved from the fallback allocator and recorded as live.
    proof fn lemma_wf_after_carve(mid: Self, post: Self, i: int, addr: usize)
        requires
            mid.wf(),
            0 <= i < BLOCK_COUNT,
            LinkedListAllocator::alloc_spec(mid.fallback_allocator, post.fallback_allocator,
                class_size(i), class_size(i), Some(addr)),
            post.fallback_allocator.wf(),
            addr as int % padded_align(class_size(i)) == 0,
            addr >= 1,
            addr + padded_size(class_size(i), class_size(i))
                <= post.fallback_allocator.heap@.1,
            post.fallback_allocator.heap@.1 <= usize::MAX,
            post.fallback_allocator.live@ == mid.fallback_allocator.live@.insert(
                (addr as int, padded_size(class_size(i), class_size(i)))),
            forall|e: (int, int)| #[trigger] mid.fallback_allocator.live@.contains(e)
                ==> ranges_disjoint(
                    (addr as int, padded_size(class_size(i), class_size(i))), e),
            post.list_heads@.len() == BLOCK_COUNT,
            forall|j: int| 0 <= j < BLOCK_COUNT
                ==> (#[trigger] post.list_heads@[j])@ == mid.list_heads@[j]@,
            post.class_live@ == mid.class_live@.insert((addr as int, class_size(i))),
            post.fallback_live@ == mid.fallback_live@,
        ensures
            post.wf(),
    {
        lemma_class_sizes(i);
        lemma_padding(class_size(i), class_size(i));
        let cs = class_size(i);
        let psize = padded_size(cs, cs);
        let c = (addr as int, cs);
        let parent = (addr as int, psize);
        assert(padded_align(cs) == cs);
        assert(post.fallback_allocator.live@.contains(parent));
        assert(range_within(c, parent));
        assert(covered(c, post.fallback_allocator.live@));
        assert(forall|i2: int, k2: int| post.valid_block(i2, k2)
            ==> mid.valid_block(i2, k2)
                && #[trigger] post.block_at(i2, k2) == mid.block_at(i2, k2));
        // The fresh parent range is disjoint from everything the fallback
        // already counted as live, hence from every covered range.
        assert forall|i2: int, k2: int| post.valid_block(i2, k2)
            implies covered(#[trigger] post.block_at(i2, k2),
                post.fallback_allocator.live@)
                && ranges_disjoint(post.block_at(i2, k2), c) by {
            let b2 = mid.block_at(i2, k2);
            let p2 = choose|p: (int, int)|
                mid.fallback_allocator.live@.contains(p) && range_within(b2, p);
            assert(post.fallback_allocator.live@.contains(p2));
            assert(ranges_disjoint(parent, p2));
        };
        assert forall|c2: (int, int)| #[trigger] post.class_live@.contains(c2) && c2 != c
            implies covered(c2, post.fallback_allocator.live@)
                && ranges_disjoint(c2, c) by {
            assert(mid.class_live@.contains(c2));
            let p2 = choose|p: (int, int)|
                mid.fallback_allocator.live@.contains(p) && range_within(c2, p);
            assert(post.fallback_allocator.live@.contains(p2));
            assert(ranges_disjoint(parent, p2));
        };
        assert forall|f: (int, int)| #[trigger] post.fallback_live@.contains(f)
            implies post.fallback_allocator.live@.contains(f)
                && ranges_disjoint(c, f) by {
            assert(mid.fallback_live@.contains(f));
            assert(mid.fallback_allocator.live@.contains(f));
            assert(ranges_disjoint(parent, f));
        };
        assert forall|c1: (int, int), c2: (int, int)|
            post.class_live@.contains(c1) && post.class_live@.contains(c2) && c1 != c2
            implies ranges_disjoint(c1, c2) by {
            if c1 != c && c2 != c {
                assert(mid.class_live@.contains(c1) && mid.class_live@.contains(c2));
            }
        };
    }

    /// Re-establish well-formedness after an oversize request has been
    /// served directly by the fallback allocator.
    proof fn lemma_wf_after_fallback_alloc(pre: Self, post: Self, addr: usize, size: usize,
        align: usize)
        requires
            pre.wf(),
            LinkedListAllocator::alloc_spec(pre.fallback_allocator, post.fallback_allocator,
                size as int, align as int, Some(addr)),
            post.fallback_allocator.wf(),
            post.fallback_allocator.live@ == pre.fallback_allocator.live@.insert(
                (addr as int, padded_size(size as int, align as int))),
            forall|e: (int, int)| #[trigger] pre.fallback_allocator.live@.contains(e)
                ==> ranges_disjoint(
                    (addr as int, padded_size(size as int, align as int)), e),
            post.list_heads@.len() == BLOCK_COUNT,
            forall|j: int| 0 <= j < BLOCK_COUNT
                ==> (#[trigger] post.list_heads@[j])@ == pre.list_heads@[j]@,
            post.class_live@ == pre.class_live@,
            post.fallback_live@ == pre.fallback_live@.insert(
                (addr as int, padded_size(size as int, align as int))),
        ensures
            post.wf(),
    {
        let f_new = (addr as int, padded_size(size as int, align as int));
        assert(post.fallback_allocator.live@.contains(f_new));
        assert(forall|i2: int, k2: int| post.valid_block(i2, k2)
            ==> pre.valid_block(i2, k2)
                && #[trigger] post.block_at(i2, k2) == pre.block_at(i2, k2));
        assert forall|i2: int, k2: int| post.valid_block(i2, k2)
            implies covered(#[trigger] post.block_at(i2, k2),
                post.fallback_allocator.live@)
                && ranges_disjoint(post.block_at(i2, k2), f_new) by {
            let b2 = pre.block_at(i2, k2);
            let p2 = choose|p: (int, int)|
                pre.fallback_allocator.live@.contains(p) && range_within(b2, p);
            assert(post.fallback_allocator.live@.contains(p2));
            assert(ranges_disjoint(f_new, p2));
        };
        assert forall|c: (int, int)| #[trigger] post.class_live@.contains(c)
            implies covered(c, post.fallback_allocator.live@)
                && ranges_disjoint(c, f_new) by {
            assert(pre.class_live@.contains(c));
            let p2 = choose|p: (int, int)|
                pre.fallback_allocator.live@.contains(p) && range_within(c, p);
            assert(post.fallback_allocator.live@.contains(p2));
            assert(ranges_disjoint(f_new, p2));
        };
        assert forall|f: (int, int)| #[trigger] post.fallback_live@.contains(f)
            implies post.fallback_allocator.live@.contains(f) by {
            if f != f_new {
                assert(pre.fallback_live@.contains(f));
            }
        };
        assert forall|i2: int, k2: int, f: (int, int)|
            #![trigger post.block_at(i2, k2), post.fallback_live@.contains(f)]
            post.valid_block(i2, k2) && post.fallback_live@.contains(f)
            implies ranges_disjoint(post.block_at(i2, k2), f) by {
            if f != f_new {
                assert(pre.fallback_live@.contains(f));
                assert(ranges_disjoint(pre.block_at(i2, k2), f));
            }
        };
    }

    /// Everything `deallocate` does. With a class: push the block onto
    /// the front of that class's list -- it never returns to the
    /// fallback pool. Without a class: hand the span back to the
    /// fallback allocator.
    pub open spec fn dealloc_spec(pre: Self, post: Self, ptr: int, size: int, align: int)
        -> bool {
        match list_index_spec(size, align) {
            Some(i) => {
                &&& post.list_heads@.len() == BLOCK_COUNT
                &&& post.list_heads@[i]@ == pre.list_heads@[i]@.push(ptr as usize)
                &&& (forall|j: int| 0 <= j < BLOCK_COUNT && j != i
                        ==> (#[trigger] post.list_heads@[j])@ == pre.list_heads@[j]@)
                &&& post.fallback_allocator.regions@ == pre.fallback_allocator.regions@
                &&& post.fallback_allocator.live@ == pre.fallback_allocator.live@
                &&& post.fallback_allocator.heap@ == pre.fallback_allocator.heap@
                &&& post.class_live@ == pre.class_live@.remove((ptr, class_size(i)))
                &&& post.fallback_live@ == pre.fallback_live@
            },
            None => {
                &&& LinkedListAllocator::dealloc_spec(pre.fallback_allocator,
                    post.fallback_allocator, ptr, size, align)
                &&& post.list_heads@.len() == BLOCK_COUNT
                &&& (forall|j: int| 0 <= j < BLOCK_COUNT
                        ==> (#[trigger] post.list_heads@[j])@ == pre.list_heads@[j]@)
                &&& post.class_live@ == pre.class_live@
                &&& post.fallback_live@
                    == pre.fallback_live@.remove((ptr, padded_size(size, align)))
            },
        }
    }

    /// Return the range at `ptr` previously produced by
    /// [`Self::allocate`] with the same `size` and `align`. The class
    /// decision is recomputed, so it matches the one made when the range
    /// was handed out.
    pub fn deallocate(&mut self, ptr: usize, size: usize, align: usize)
        requires
            old(self).wf(),
            valid_layout(size, align),
            size >= 1,
            (list_index_spec(size as int, align as int) matches Some(i)
                ==> old(self).class_live@.contains((ptr as int, class_size(i)))),
            (list_index_spec(size as int, align as int) is None
                ==> old(self).fallback_live@.contains(
                    (ptr as int, padded_size(size as int, align as int)))),
        ensures
            final(self).wf(),
            Self::dealloc_spec(*old(self), *final(self), ptr as int, size as int,
                align as int),
    {
        match list_index(size, align) {
            Some(index) => {
                let ghost i = index as int;
                proof {
                    lemma_class_sizes(i);
                    // Every class block can host the class list's record:
                    // the record is one pointer, the smallest class one
                    // machine word larger.
                    assert(NODE_ALIGN as int <= class_size(i));
                }
                let ghost pre = *self;
                let list = Self::class_list_mut(&mut self.list_heads, index);
                list.push(ptr);
                self.class_live = Ghost(
                    self.class_live@.remove((ptr as int, class_size(i))),
                );
                proof {
                    Self::lemma_wf_after_push(pre, *self, i, ptr);
                }
            },
            None => {
                let ghost pre = *self;
                proof {
                    assert(pre.fallback_allocator.live@.contains(
                        (ptr as int, padded_size(size as int, align as int))));
                }
                self.fallback_allocator.deallocate(ptr, size, align);
                self.fallback_live = Ghost(
                    self.fallback_live@.remove(
                        (ptr as int, padded_size(size as int, align as int))),
                );
                proof {
                    Self::lemma_wf_after_fallback_dealloc(pre, *self, ptr, size, align);
                }
            },
        }
    }

    /// Re-establish well-formedness after a live class block has been
    /// pushed back onto class list `i`.
    proof fn lemma_wf_after_push(pre: Self, post: Self, i: int, ptr: usize)
        requires
            pre.wf(),
            0 <= i < BLOCK_COUNT,
            pre.class_live@.contains((ptr as int, class_size(i))),
            post.list_heads@.len() == BLOCK_COUNT,
            post.list_heads@[i]@ == pre.list_heads@[i]@.push(ptr),
            forall|j: int| 0 <= j < BLOCK_COUNT && j != i
                ==> (#[trigger] post.list_heads@[j])@ == pre.list_heads@[j]@,
            post.fallback_allocator == pre.fallback_allocator,
            post.class_live@ == pre.class_live@.remove((ptr as int, class_size(i))),
            post.fallback_live@ == pre.fallback_live@,
        ensures
            post.wf(),
    {
        let c = (ptr as int, class_size(i));
        let newk = pre.list_heads@[i]@.len() as int;
        assert(post.block_at(i, newk) == c);
        assert(forall|i2: int, k2: int| post.valid_block(i2, k2) && (i2, k2) != (i, newk)
            ==> pre.valid_block(i2, k2)
                && #[trigger] post.block_at(i2, k2) == pre.block_at(i2, k2));
        assert forall|i2: int, k2: int| post.valid_block(i2, k2) implies {
            let b = #[trigger] post.block_at(i2, k2);
            &&& b.0 % class_size(i2) == 0
            &&& b.0 >= 1
            &&& b.0 + b.1 <= usize::MAX
            &&& covered(b, post.fallback_allocator.live@)
        } by {
            if (i2, k2) == (i, newk) {
                assert(pre.class_live@.contains(c));
            } else {
                assert(pre.valid_block(i2, k2));
            }
        };
        assert forall|i1: int, k1: int, i2: int, k2: int|
            #![trigger post.block_at(i1, k1), post.block_at(i2, k2)]
            post.valid_block(i1, k1) && post.valid_block(i2, k2) && (i1, k1) != (i2, k2)
            implies ranges_disjoint(post.block_at(i1, k1), post.block_at(i2, k2)) by {
            if (i1, k1) == (i, newk) {
                assert(pre.valid_block(i2, k2));
                assert(ranges_disjoint(pre.block_at(i2, k2), c));
            } else if (i2, k2) == (i, newk) {
                assert(pre.valid_block(i1, k1));
                assert(ranges_disjoint(pre.block_at(i1, k1), c));
            } else {
                assert(pre.valid_block(i1, k1) && pre.valid_block(i2, k2));
            }
        };
        assert forall|i2: int, k2: int, c2: (int, int)|
            #![trigger post.block_at(i2, k2), post.class_live@.contains(c2)]
            post.valid_block(i2, k2) && post.class_live@.contains(c2)
            implies ranges_disjoint(post.block_at(i2, k2), c2) by {
            assert(pre.class_live@.contains(c2) && c2 != c);
            if (i2, k2) == (i, newk) {
                assert(ranges_disjoint(c, c2));
            } else {
                assert(pre.valid_block(i2, k2));
            }
        };
        assert forall|i2: int, k2: int, f: (int, int)|
            #![trigger post.block_at(i2, k2), post.fallback_live@.contains(f)]
            post.valid_block(i2, k2) && post.fallback_live@.contains(f)
            implies ranges_disjoint(post.block_at(i2, k2), f) by {
            if (i2, k2) == (i, newk) {
                assert(ranges_disjoint(c, f));
            } else {
                assert(pre.valid_block(i2, k2));
            }
        };
    }

    /// Re-establish well-formedness after a fallback-path range has been
    /// handed back to the fallback allocator.
    proof fn lemma_wf_after_fallback_dealloc(pre: Self, post: Self, ptr: usize, size: usize,
        align: usize)
        requires
            pre.wf(),
            pre.fallback_live@.contains((ptr as int, padded_size(size as int, align as int))),
            LinkedListAllocator::dealloc_spec(pre.fallback_allocator, post.fallback_allocator,
                ptr as int, size as int, align as int),
            post.fallback_allocator.wf(),
            post.list_heads@.len() == BLOCK_COUNT,
            forall|j: int| 0 <= j < BLOCK_COUNT
                ==> (#[trigger] post.list_heads@[j])@ == pre.list_heads@[j]@,
            post.class_live@ == pre.class_live@,
            post.fallback_live@ == pre.fallback_live@.remove(
                (ptr as int, padded_size(size as int, align as int))),
        ensures
            post.wf(),
    {
        let e = (ptr as int, padded_size(size as int, align as int));
        assert(post.fallback_allocator.live@ == pre.fallback_allocator.live@.remove(e));
        assert(forall|i2: int, k2: int| post.valid_block(i2, k2)
            ==> pre.valid_block(i2, k2)
                && #[trigger] post.block_at(i2, k2) == pre.block_at(i2, k2));
        assert forall|i2: int, k2: int| post.valid_block(i2, k2)
            implies covered(#[trigger] post.block_at(i2, k2),
                post.fallback_allocator.live@) by {
            let b = pre.block_at(i2, k2);
            lemma_class_sizes(i2);
            assert(ranges_disjoint(b, e));
            lemma_covered_remove(b, pre.fallback_allocator.live@, e);
        };
        assert forall|c: (int, int)| #[trigger] post.class_live@.contains(c)
            implies covered(c, post.fallback_allocator.live@) by {
            assert(pre.class_live@.contains(c));
            assert(ranges_disjoint(c, e));
            lemma_covered_remove(c, pre.fallback_allocator.live@, e);
        };
        assert forall|f: (int, int)| #[trigger] post.fallback_live@.contains(f)
            implies post.fallback_allocator.live@.contains(f) by {
            assert(pre.fallback_live@.contains(f) && f != e);
        };
    }

    /// No-overlap law: any two distinct ranges handed out by a
    /// well-formed allocator -- through a class list or through the
    /// fallback -- occupy disjoint address ranges.
    pub proof fn lemma_live_allocations_disjoint(s: Self, a: (int, int), b: (int, int))
        requires
            s.wf(),
            s.user_live().contains(a),
            s.user_live().contains(b),
            a != b,
        ensures
            ranges_disjoint(a, b),
    {
        if s.class_live@.contains(a) {
            if s.class_live@.contains(b) {
            } else {
                assert(s.fallback_live@.contains(b));
            }
        } else {
            assert(s.fallback_live@.contains(a));
            if s.class_live@.contains(b) {
                assert(ranges_disjoint(b, a));
            } else {
                assert(s.fallback_live@.contains(b));
                assert(s.fallback_allocator.live@.contains(a));
                assert(s.fallback_allocator.live@.contains(b));
            }
        }
    }

    /// Containment law: every range handed out by a well-formed
    /// allocator lies inside the heap range its fallback was initialized
    /// with.
    pub proof fn lemma_live_in_heap(s: Self, a: (int, int))
        requires
            s.wf(),
            s.user_live().contains(a),
        ensures
            s.fallback_allocator.heap@.0 <= a.0,
            a.0 + a.1 <= s.fallback_allocator.heap@.1,
    {
        if s.class_live@.contains(a) {
            let p = choose|p: (int, int)|
                s.fallback_allocator.live@.contains(p) && range_within(a, p);
            assert(s.fallback_allocator.in_heap(p));
        } else {
            assert(s.fallback_live@.contains(a));
            assert(s.fallback_allocator.live@.contains(a));
            assert(s.fallback_allocator.in_heap(a));
        }
    }

    /// Round-trip law for the class path: freeing a class block and then
    /// requesting the same layout again returns the same address -- the
    /// block goes to the front of its class list and the next allocation
    /// pops it.
    pub proof fn lemma_class_round_trip(
        s0: Self, s1: Self, s2: Self,
        ptr: usize, size: int, align: int, r: Option<usize>,
    )
        requires
            list_index_spec(size, align) is Some,
            Self::dealloc_spec(s0, s1, ptr as int, size, align),
            Self::alloc_spec(s1, s2, size, align, r),
        ensures
            r == Some(ptr),
    {
        match list_index_spec(size, align) {
            Some(i) => {
                assert(s1.list_heads@[i]@ == s0.list_heads@[i]@.push(ptr));
                assert(s1.list_heads@[i]@.len() > 0);
                assert(s1.list_heads@[i]@.last() == ptr);
            },
            None => {
                assert(false);
            },
        }
    }

    /// Round-trip law for the fallback path: an oversize span given back
    /// becomes the front free region, so requesting the same layout
    /// again succeeds at the same address -- memory is reclaimed.
    pub proof fn lemma_fallback_round_trip(
        s0: Self, s1: Self, s2: Self,
        ptr: usize, size: int, align: int, r: Option<usize>,
    )
        requires
            s0.wf(),
            list_index_spec(size, align) is None,
            is_pow2(align),
            size >= 1,
            ptr as int % padded_align(align) == 0,
            ptr + padded_size(size, align) <= usize::MAX,
            Self::dealloc_spec(s0, s1, ptr as int, size, align),
            Self::alloc_spec(s1, s2, size, align, r),
        ensures
            r == Some(ptr),
    {
        LinkedListAllocator::lemma_reclaim_round_trip(
            s0.fallback_allocator, s1.fallback_allocator, s2.fallback_allocator,
            ptr, size, align, r,
        );
    }
}

} // verus!

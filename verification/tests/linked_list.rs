use kernel_alloc::allocator::linked_list::{LinkedListAllocator, Region};

const HEAP_START: usize = 0x1000;

fn fresh(size: usize) -> LinkedListAllocator {
    let mut a = LinkedListAllocator::new();
    a.init(HEAP_START, size);
    a
}

#[test]
fn list_init_registers_one_region() {
    let a = fresh(312);
    assert_eq!(a.regions.len(), 1);
    assert_eq!(a.regions[0], Region { addr: HEAP_START, size: 312 });
}

#[test]
fn region_accessors() {
    let r = Region::new(0x2000, 48);
    assert_eq!(r.start_addr(), 0x2000);
    assert_eq!(r.end_addr(), 0x2030);
}

#[test]
fn size_align_pads_to_record_layout() {
    // Below the record size everything becomes one record slot.
    assert_eq!(LinkedListAllocator::size_align(1, 1), (16, 8));
    assert_eq!(LinkedListAllocator::size_align(5, 4), (16, 8));
    // Sizes round up to the (possibly raised) alignment.
    assert_eq!(LinkedListAllocator::size_align(17, 8), (24, 8));
    assert_eq!(LinkedListAllocator::size_align(100, 1), (104, 8));
    assert_eq!(LinkedListAllocator::size_align(8, 16), (16, 16));
    assert_eq!(LinkedListAllocator::size_align(2048, 2048), (2048, 2048));
}

#[test]
fn list_first_allocation_starts_at_heap_start() {
    let mut a = fresh(312);
    let p = a.allocate(32, 8).unwrap();
    assert_eq!(p, HEAP_START);
    // The leftover tail is the new front region.
    assert_eq!(a.regions[0], Region { addr: HEAP_START + 32, size: 312 - 32 });
}

#[test]
fn list_allocations_are_aligned_disjoint_and_in_bounds() {
    let mut a = fresh(1024);
    let mut got: Vec<(usize, usize)> = Vec::new();
    for &(size, align) in &[(100usize, 1usize), (32, 32), (1, 1), (48, 16)] {
        let p = a.allocate(size, align).unwrap();
        assert_eq!(p % align, 0);
        assert!(HEAP_START <= p && p + size <= HEAP_START + 1024);
        got.push((p, size));
    }
    for i in 0..got.len() {
        for j in 0..got.len() {
            if i != j {
                let (x, xs) = got[i];
                let (y, ys) = got[j];
                assert!(x + xs <= y || y + ys <= x);
            }
        }
    }
}

#[test]
fn list_fragmentation_no_coalescing() {
    // Three back-to-back allocations fill the heap exactly; freeing the
    // middle one leaves a hole that no larger request fits, because
    // adjacent free regions are never merged.
    let mut a = fresh(312);
    let pa = a.allocate(100, 1).unwrap();
    let pb = a.allocate(100, 1).unwrap();
    let pc = a.allocate(100, 1).unwrap();
    assert_eq!((pa, pb, pc), (0x1000, 0x1068, 0x10d0));
    a.deallocate(pb, 100, 1);
    // 150 bytes do not fit in the 104-byte hole.
    assert_eq!(a.allocate(150, 1), None);
    // A request the hole can hold is still served from it.
    assert_eq!(a.allocate(100, 1), Some(pb));
}

#[test]
fn list_skips_region_with_unusable_leftover() {
    let mut a = fresh(160);
    let pa = a.allocate(32, 8).unwrap();
    let pb = a.allocate(32, 8).unwrap();
    a.deallocate(pa, 32, 8);
    a.deallocate(pb, 32, 8);
    // Free list now: [B (32), A (32), tail (96)]. A 24-byte request
    // would leave an 8-byte leftover in either 32-byte hole; 8 bytes
    // cannot host a record, so first fit falls through to the tail.
    let p = a.allocate(24, 8).unwrap();
    assert_eq!(p, HEAP_START + 64);
    // An exactly-fitting request takes the first hole that leaves no
    // leftover -- here the tail of the region just split.
    assert_eq!(a.allocate(32, 8), Some(HEAP_START + 88));
}

#[test]
fn list_exhaustion_and_recovery() {
    let mut a = fresh(64);
    let p = a.allocate(64, 8).unwrap();
    assert_eq!(p, HEAP_START);
    assert_eq!(a.regions.len(), 0);
    assert_eq!(a.allocate(16, 8), None);
    // Give the span back: the same request succeeds again.
    a.deallocate(p, 64, 8);
    assert_eq!(a.allocate(64, 8), Some(p));
}

#[test]
fn list_first_fit_can_pick_a_different_region() {
    let mut a = fresh(256);
    let pa = a.allocate(32, 8).unwrap();
    a.deallocate(pa, 32, 8);
    // The freed 32-byte hole is in front, but a 48-byte request does
    // not fit it: first fit serves it from elsewhere.
    let p = a.allocate(48, 8).unwrap();
    assert_ne!(p, pa);
    assert_eq!(p, HEAP_START + 32);
}

#[test]
fn list_unaligned_heap_positions_get_aligned_answers() {
    let mut a = fresh(512);
    let _small = a.allocate(1, 1).unwrap();
    let p = a.allocate(64, 64).unwrap();
    assert_eq!(p % 64, 0);
}

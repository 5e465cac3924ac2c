use kernel_alloc::allocator::bump::BumpAllocator;

const HEAP_START: usize = 0x4000;
const HEAP_SIZE: usize = 64;

fn fresh() -> BumpAllocator {
    let mut b = BumpAllocator::new();
    b.init(HEAP_START, HEAP_SIZE);
    b
}

#[test]
fn bump_init_sets_bounds_and_cursor() {
    let b = fresh();
    assert_eq!(b.heap_start, HEAP_START);
    assert_eq!(b.heap_end, HEAP_START + HEAP_SIZE);
    assert_eq!(b.next, HEAP_START);
    assert_eq!(b.allocations, 0);
}

#[test]
fn bump_allocations_are_aligned_and_in_bounds() {
    let mut b = fresh();
    let p1 = b.allocate(3, 1).unwrap();
    let p2 = b.allocate(5, 8).unwrap();
    let p3 = b.allocate(16, 16).unwrap();
    for &(p, size, align) in &[(p1, 3usize, 1usize), (p2, 5, 8), (p3, 16, 16)] {
        assert_eq!(p % align, 0);
        assert!(HEAP_START <= p);
        assert!(p + size <= HEAP_START + HEAP_SIZE);
    }
}

#[test]
fn bump_allocations_do_not_overlap() {
    let mut b = fresh();
    let p1 = b.allocate(8, 1).unwrap();
    let p2 = b.allocate(8, 1).unwrap();
    let p3 = b.allocate(8, 8).unwrap();
    let ranges = [(p1, 8usize), (p2, 8), (p3, 8)];
    for i in 0..ranges.len() {
        for j in 0..ranges.len() {
            if i != j {
                let (a, asz) = ranges[i];
                let (b2, bsz) = ranges[j];
                assert!(a + asz <= b2 || b2 + bsz <= a);
            }
        }
    }
}

#[test]
fn bump_exhaustion_returns_none() {
    let mut b = fresh();
    assert_eq!(b.allocate(32, 1), Some(HEAP_START));
    assert_eq!(b.allocate(32, 1), Some(HEAP_START + 32));
    // The heap is full: one more byte cannot be served.
    assert_eq!(b.allocate(1, 1), None);
}

#[test]
fn bump_no_reuse_while_outstanding() {
    let mut b = fresh();
    let p1 = b.allocate(32, 1).unwrap();
    let _p2 = b.allocate(32, 1).unwrap();
    // Freeing one of two allocations does not move the cursor back:
    // the freed bytes are not reusable yet.
    b.deallocate(p1, 32, 1);
    assert_eq!(b.allocations, 1);
    assert_eq!(b.next, HEAP_START + 64);
    assert_eq!(b.allocate(32, 1), None);
}

#[test]
fn bump_reset_after_all_freed_in_any_order() {
    let mut b = fresh();
    let p1 = b.allocate(8, 1).unwrap();
    let p2 = b.allocate(8, 1).unwrap();
    let p3 = b.allocate(8, 1).unwrap();
    // Free in an order different from allocation.
    b.deallocate(p2, 8, 1);
    b.deallocate(p3, 8, 1);
    assert_ne!(b.next, HEAP_START);
    b.deallocate(p1, 8, 1);
    assert_eq!(b.allocations, 0);
    assert_eq!(b.next, HEAP_START);
}

#[test]
fn bump_round_trip_returns_same_address() {
    let mut b = fresh();
    let p = b.allocate(24, 8).unwrap();
    b.deallocate(p, 24, 8);
    assert_eq!(b.allocate(24, 8), Some(p));
}

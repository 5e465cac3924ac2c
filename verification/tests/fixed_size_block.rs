use kernel_alloc::allocator::fixed_size_block::{
    block_size, list_index, FixedSizeBlockAllocator, BLOCK_COUNT,
};

const HEAP_START: usize = 0x10000;
const HEAP_SIZE: usize = 8192;

fn fresh() -> FixedSizeBlockAllocator {
    let mut a = FixedSizeBlockAllocator::new();
    a.init(HEAP_START, HEAP_SIZE);
    a
}

#[test]
fn class_sizes_are_the_powers_of_two() {
    let expected = [8usize, 16, 32, 64, 128, 256, 512, 1024, 2048];
    for i in 0..BLOCK_COUNT {
        assert_eq!(block_size(i), expected[i]);
    }
}

#[test]
fn small_requests_share_the_eight_byte_class() {
    for size in 1..=8usize {
        for &align in &[1usize, 2, 4, 8] {
            assert_eq!(list_index(size, align), Some(0));
        }
    }
}

#[test]
fn list_index_picks_smallest_fitting_class() {
    assert_eq!(list_index(9, 1), Some(1));
    assert_eq!(list_index(16, 1), Some(1));
    assert_eq!(list_index(17, 1), Some(2));
    assert_eq!(list_index(100, 1), Some(4));
    assert_eq!(list_index(2048, 1), Some(8));
    // The alignment can drive the class up on its own.
    assert_eq!(list_index(4, 64), Some(3));
}

#[test]
fn oversize_requests_bypass_all_classes() {
    assert_eq!(list_index(2049, 1), None);
    assert_eq!(list_index(1, 4096), None);
}

#[test]
fn class_allocation_is_lazily_carved_from_fallback() {
    let mut a = fresh();
    // Every class list starts empty.
    for i in 0..BLOCK_COUNT {
        assert!(a.list_heads[i].is_empty());
    }
    let p = a.allocate(5, 1).unwrap();
    // The first block comes straight from the fallback pool.
    assert_eq!(p, HEAP_START);
    assert_eq!(p % 8, 0);
    assert!(a.list_heads[0].is_empty());
}

#[test]
fn class_round_trip_returns_same_address() {
    let mut a = fresh();
    let p = a.allocate(5, 1).unwrap();
    a.deallocate(p, 5, 1);
    // The block sits in the class list now, not back in the fallback.
    assert_eq!(a.list_heads[0].len(), 1);
    // Any request of the same class pops exactly that block.
    assert_eq!(a.allocate(3, 2), Some(p));
    assert!(a.list_heads[0].is_empty());
}

#[test]
fn class_blocks_are_naturally_aligned() {
    let mut a = fresh();
    let _pad = a.allocate(5, 1).unwrap();
    let p = a.allocate(1000, 1).unwrap();
    // A 1024-class block is 1024-aligned even though the caller only
    // asked for alignment 1.
    assert_eq!(p % 1024, 0);
}

#[test]
fn oversize_requests_go_to_fallback_unchanged() {
    let mut a = fresh();
    let p = a.allocate(2049, 1).unwrap();
    assert_eq!(p, HEAP_START);
    // No class list was involved.
    for i in 0..BLOCK_COUNT {
        assert!(a.list_heads[i].is_empty());
    }
    a.deallocate(p, 2049, 1);
    // The span went back to the fallback pool, not to a class list.
    for i in 0..BLOCK_COUNT {
        assert!(a.list_heads[i].is_empty());
    }
    assert_eq!(a.fallback_allocator.regions[0].addr, HEAP_START);
}

#[test]
fn largest_class_request_is_served_from_class() {
    let mut a = fresh();
    let p = a.allocate(2048, 1).unwrap();
    assert_eq!(p % 2048, 0);
    a.deallocate(p, 2048, 1);
    assert_eq!(a.list_heads[8].len(), 1);
    assert_eq!(a.allocate(2048, 1), Some(p));
}

#[test]
fn mixed_allocations_do_not_overlap() {
    let mut a = fresh();
    let mut got: Vec<(usize, usize)> = Vec::new();
    for &(size, align) in
        &[(5usize, 1usize), (8, 8), (100, 1), (2049, 1), (32, 32), (7, 4), (300, 1)]
    {
        let p = a.allocate(size, align).unwrap();
        assert_eq!(p % align, 0);
        assert!(HEAP_START <= p && p + size <= HEAP_START + HEAP_SIZE);
        got.push((p, size));
    }
    for i in 0..got.len() {
        for j in 0..got.len() {
            if i != j {
                let (x, xs) = got[i];
                let (y, ys) = got[j];
                assert!(x + xs <= y || y + ys <= x);
            }
        }
    }
}

#[test]
fn freed_blocks_grow_the_class_list() {
    let mut a = fresh();
    let p1 = a.allocate(30, 1).unwrap();
    let p2 = a.allocate(30, 1).unwrap();
    a.deallocate(p1, 30, 1);
    a.deallocate(p2, 30, 1);
    assert_eq!(a.list_heads[2].len(), 2);
    // Freed last, handed out first.
    assert_eq!(a.allocate(30, 1), Some(p2));
    assert_eq!(a.allocate(30, 1), Some(p1));
}

#[test]
fn exhaustion_and_recovery_through_classes() {
    let mut a = FixedSizeBlockAllocator::new();
    a.init(HEAP_START, 64);
    let p = a.allocate(64, 1).unwrap();
    // The heap is one block now; nothing more can be carved.
    assert_eq!(a.allocate(64, 1), None);
    a.deallocate(p, 64, 1);
    // The freed block serves the same class again.
    assert_eq!(a.allocate(64, 1), Some(p));
}

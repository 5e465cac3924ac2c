use kernel_alloc::allocator::align_up;

#[test]
fn align_up_identity_on_aligned() {
    assert_eq!(align_up(0, 1), 0);
    assert_eq!(align_up(8, 8), 8);
    assert_eq!(align_up(4096, 4096), 4096);
    assert_eq!(align_up(0x4444_4444_0000, 4096), 0x4444_4444_0000);
}

#[test]
fn align_up_rounds_to_next_multiple() {
    assert_eq!(align_up(5, 1), 5);
    assert_eq!(align_up(5, 8), 8);
    assert_eq!(align_up(9, 8), 16);
    assert_eq!(align_up(9, 16), 16);
    assert_eq!(align_up(17, 16), 32);
    assert_eq!(align_up(0x1001, 0x1000), 0x2000);
}

#[test]
fn align_up_result_is_multiple_and_close() {
    for &align in &[1usize, 2, 4, 8, 16, 64, 4096] {
        for addr in 0usize..200 {
            let r = align_up(addr, align);
            assert_eq!(r % align, 0);
            assert!(addr <= r && r < addr + align);
        }
    }
}

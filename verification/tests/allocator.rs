use ruvault::engine::allocator::BlockAllocator;

#[test]
fn fresh_allocator_all_free() {
    let a = BlockAllocator::new(10);
    assert_eq!(a.free_count(), 10);
    assert_eq!(a.occupied_count(), 0);
}

#[test]
fn allocate_marks_occupied_and_is_stable() {
    let mut a = BlockAllocator::new(4);
    let got = a.allocate(2);
    assert_eq!(got.len(), 2);
    assert_eq!(a.occupied_count(), 2);
    for idx in &got {
        assert!(!a.is_free(*idx));
    }
}

#[test]
fn allocate_saturates_when_exhausted() {
    let mut a = BlockAllocator::new(2);
    let got = a.allocate(5);
    assert_eq!(got.len(), 2);
    assert_eq!(a.allocate(1).len(), 0);
}

#[test]
fn free_returns_blocks_to_pool() {
    let mut a = BlockAllocator::new(4);
    let got = a.allocate(3);
    a.free(&got[..1]);
    assert_eq!(a.free_count(), 2);
    assert!(a.is_free(got[0]));
}

#[test]
fn roundtrip_through_bytes() {
    let mut a = BlockAllocator::new(20);
    a.allocate(5);
    let bytes = a.as_bytes().to_vec();
    let b = BlockAllocator::from_bytes(bytes, 20);
    assert_eq!(a.occupied_count(), b.occupied_count());
    for i in 0..20 {
        assert_eq!(a.is_free(i), b.is_free(i));
    }
}

#[test]
fn allocate_zero_returns_empty_and_changes_nothing() {
    let mut a = BlockAllocator::new(10);
    let got = a.allocate(0);
    assert!(got.is_empty());
    assert_eq!(a.free_count(), 10);
}

#[test]
fn freeing_an_already_free_block_is_idempotent() {
    let mut a = BlockAllocator::new(4);
    a.free(&[2]); // never allocated -- already free
    assert_eq!(a.occupied_count(), 0);
    let got = a.allocate(1);
    a.free(&got);
    a.free(&got); // double free of the same block
    assert_eq!(a.occupied_count(), 0);
    assert_eq!(a.free_count(), 4);
}

#[test]
fn mark_occupied_then_free_roundtrips() {
    let mut a = BlockAllocator::new(8);
    a.mark_occupied(&[0, 3, 5]);
    assert_eq!(a.occupied_count(), 3);
    assert!(!a.is_free(3));
    a.free(&[3]);
    assert_eq!(a.occupied_count(), 2);
    assert!(a.is_free(3));
}

#[test]
fn bits_count_from_the_most_significant() {
    let a = BlockAllocator::from_bytes(vec![0x80, 0x01], 16);
    assert!(!a.is_free(0) && a.is_free(7));
    assert!(a.is_free(8) && !a.is_free(15));
    assert_eq!(a.free_count(), 14);

    let mut b = BlockAllocator::new(16);
    b.mark_occupied(&[0, 1, 9]);
    assert_eq!(b.as_bytes(), &[0xC0, 0x40]);
    b.free(&[0]);
    assert_eq!(b.as_bytes(), &[0x40, 0x40]);
}

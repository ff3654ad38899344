use voxel_store::bit_array::BitArray;

#[test]
fn test_bit_array() {
    let mut ba = BitArray::new(16);
    assert!(!ba.get(1));
    ba.set(1);
    assert!(ba.get(1));
}

#[test]
fn bit_array_clear_toggle_and_clear_all() {
    let mut ba = BitArray::new(130);
    assert!(ba.capacity() >= 130);
    ba.set(0);
    ba.set(64);
    ba.set(129);
    assert!(ba.get(0) && ba.get(64) && ba.get(129));
    assert!(!ba.get(1) && !ba.get(63) && !ba.get(65));
    ba.clear(64);
    assert!(!ba.get(64));
    ba.toggle(64);
    assert!(ba.get(64));
    ba.toggle(64);
    assert!(!ba.get(64));
    ba.clear_all();
    for i in 0..ba.capacity() {
        assert!(!ba.get(i));
    }
}

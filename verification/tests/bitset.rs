use rogue::common::bitset::Bitset;

#[test]
fn new_bitset_is_clear() {
    let b = Bitset::new(40);
    for i in 0..64 {
        assert!(!b.get_bit(i));
    }
}

#[test]
fn set_then_get() {
    let mut b = Bitset::new(64);
    b.set_bit(3, true);
    b.set_bit(33, true);
    assert!(b.get_bit(3));
    assert!(b.get_bit(33));
    assert!(!b.get_bit(4));
    b.set_bit(3, false);
    assert!(!b.get_bit(3));
    assert!(b.get_bit(33));
}

#[test]
fn bitset_allocates_rounded_words() {
    // 40 bits round up to 64 words, so bit 64 * 32 - 1 exists.
    let mut b = Bitset::new(40);
    b.set_bit(64 * 32 - 1, true);
    assert!(b.get_bit(64 * 32 - 1));
}

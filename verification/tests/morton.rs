use rogue::common::morton::{morton_decode, morton_encode, morton_traversal};

#[test]
fn test_traversal() {
    let a = 0x2E; // 101110
    let b = 0x35; // 110101
    assert_eq!(morton_traversal(a, 2), b);
}

#[test]
fn traversal_of_height_zero_is_zero() {
    assert_eq!(morton_traversal(0x1234, 0), 0);
}

#[test]
fn traversal_reverses_three_groups() {
    // octal digits 1, 2, 3 (lowest first) become 1, 2, 3 read from the top
    assert_eq!(morton_traversal(0o321, 3), 0o123);
}

#[test]
fn encode_interleaves_bits() {
    assert_eq!(morton_encode((1, 0, 0)), 0b001);
    assert_eq!(morton_encode((0, 1, 0)), 0b010);
    assert_eq!(morton_encode((0, 0, 1)), 0b100);
    assert_eq!(morton_encode((3, 0, 0)), 0b001001);
    assert_eq!(morton_encode((1, 1, 1)), 0b111);
}

#[test]
fn decode_encode_round_trip() {
    for p in [(0, 0, 0), (5, 9, 13), (0x1f_ffff, 0, 7), (123456, 654321, 1000000)] {
        assert_eq!(morton_decode(morton_encode(p)), p);
    }
}

#[test]
fn encode_decode_clears_top_bit() {
    let m = 0xffff_ffff_ffff_ffffu64;
    assert_eq!(morton_encode(morton_decode(m)), 0x7fff_ffff_ffff_ffff);
}

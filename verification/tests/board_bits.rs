use quintet::board::bits::Bits;

#[test]
fn test_bits() {
    assert_eq!(Bits(0u8).to_vec(), []);
    assert_eq!(Bits(0b10110u8).to_vec(), [1, 2, 4]);
    assert_eq!(Bits(0b10110u8).len(), 3);
    assert_eq!(Bits(1u16 << 15 | 1).to_vec(), [0, 15]);
    assert_eq!(Bits(1u128 << 127 | 1 << 64).to_vec(), [64, 127]);
}

/// Taking the positions one at a time gives them lowest first, then
/// nothing.
#[test]
fn test_bits_next() {
    let mut bits = Bits(0b1010_0001u8);
    assert_eq!(bits.next(), Some(0));
    assert_eq!(bits.len(), 2);
    assert_eq!(bits.next(), Some(5));
    assert_eq!(bits.next(), Some(7));
    assert_eq!(bits.next(), None);
    assert_eq!(bits.next(), None);
    let mut wide = Bits(1u64 << 63);
    assert_eq!(wide.next(), Some(63));
    assert_eq!(wide.next(), None);
}

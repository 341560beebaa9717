use quintet::board::player::{Black, White};
use quintet::board::slot::Slot;
#[test]
fn slot_test_new() {
    assert_eq!(Slot::new(0b0000000, 0b0000000), Slot(0b00000000));
    assert_eq!(Slot::new(0b0000100, 0b0000010), Slot(0b11000000));
    assert_eq!(Slot::new(0b0010100, 0b0000000), Slot(0b01001010));
    assert_eq!(Slot::new(0b0000000, 0b0110100), Slot(0b10011010));
    assert_eq!(Slot::new(0b0000011, 0b0000000), Slot(0b01100001));
    assert_eq!(Slot::new(0b1000000, 0b0000000), Slot(0b00100000));
    assert_eq!(Slot::new(0b0000001, 0b0001100), Slot(0b10100110));
}

#[test]
fn test_potential() {
    let slot = Slot::new(0b0000000, 0b0000000);
    assert_eq!(slot.potential(Black), 1);
    assert_eq!(slot.potential(White), 1);

    let slot = Slot::new(0b0000100, 0b0000010);
    assert_eq!(slot.potential(Black), 0);
    assert_eq!(slot.potential(White), 0);

    let slot = Slot::new(0b0010100, 0b0000000);
    assert_eq!(slot.potential(Black), 3);
    assert_eq!(slot.potential(White), 0);

    let slot = Slot::new(0b0000000, 0b0110100);
    assert_eq!(slot.potential(Black), 0);
    assert_eq!(slot.potential(White), 4);

    let slot = Slot::new(0b0000011, 0b0000000);
    assert_eq!(slot.potential(Black), 0);
    assert_eq!(slot.potential(White), 0);

    let slot = Slot::new(0b0000001, 0b0000000);
    assert_eq!(slot.potential(Black), 0);
    assert_eq!(slot.potential(White), 1);
}

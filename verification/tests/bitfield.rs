use bimap::bitfield::{BitField, DefaultBitField};
use bimap::ring::{offset_of, slot_at};

#[test]
fn sizes_are_numbers_of_bits() {
    assert_eq!(<u8 as BitField>::size(), 8);
    assert_eq!(<u32 as BitField>::size(), 32);
    assert_eq!(<DefaultBitField as BitField>::size(), 32);
}

#[test]
fn zeros_holds_nothing() {
    assert_eq!(<u8 as BitField>::zeros(), 0);
    assert_eq!(<u32 as BitField>::zeros(), 0);
    assert!(BitField::iter(<u8 as BitField>::zeros()).is_empty());
}

#[test]
fn one_at_holds_one_offset() {
    assert_eq!(<u8 as BitField>::one_at(0), 0b0000_0001);
    assert_eq!(<u8 as BitField>::one_at(7), 0b1000_0000);
    assert_eq!(<u32 as BitField>::one_at(31), 0x8000_0000);
}

#[test]
fn zero_at_lacks_one_offset() {
    assert_eq!(<u8 as BitField>::zero_at(0), 0b1111_1110);
    assert_eq!(<u8 as BitField>::zero_at(3), 0b1111_0111);
    assert_eq!(<u32 as BitField>::zero_at(31), 0x7fff_ffff);
}

#[test]
fn or_joins_and_and_meets() {
    assert_eq!(BitField::or(0b0101u8, 0b0011u8), 0b0111);
    assert_eq!(BitField::and(0b0101u8, 0b0011u8), 0b0001);
    assert_eq!(BitField::or(0x8000_0001u32, 0x10u32), 0x8000_0011);
    assert_eq!(BitField::and(0x8000_0001u32, 0x8000_0010u32), 0x8000_0000);
}

#[test]
fn get_reads_one_offset() {
    assert!(BitField::get(0b0100u8, 2));
    assert!(!BitField::get(0b0100u8, 3));
    assert!(BitField::get(0x8000_0000u32, 31));
    assert!(!BitField::get(0x8000_0000u32, 30));
}

#[test]
fn full_needs_every_offset() {
    assert!(BitField::full(0xffu8));
    assert!(!BitField::full(0xfeu8));
    assert!(!BitField::full(0x7fu8));
    assert!(BitField::full(0xffff_ffffu32));
    assert!(!BitField::full(0xffff_fffeu32));
}

#[test]
fn iter_ascends() {
    assert_eq!(BitField::iter(0b1010_0101u8), vec![0, 2, 5, 7]);
    assert_eq!(BitField::iter(0x8000_0101u32), vec![0, 8, 31]);
    assert_eq!(BitField::iter(0xffu8), vec![0, 1, 2, 3, 4, 5, 6, 7]);
}

#[test]
fn slots_wrap_around() {
    assert_eq!(slot_at(3, 4, 32), 7);
    assert_eq!(slot_at(31, 0, 32), 31);
    assert_eq!(slot_at(31, 1, 32), 0);
    assert_eq!(slot_at(30, 31, 32), 29);
}

#[test]
fn offsets_wrap_around() {
    assert_eq!(offset_of(3, 7, 32), 4);
    assert_eq!(offset_of(7, 7, 32), 0);
    assert_eq!(offset_of(31, 0, 32), 1);
    assert_eq!(offset_of(7, 6, 32), 31);
}

use ethercat::field::{DType, Field, TypeId};

#[test]
fn u8_round_trip() {
    let f = Field::<u8>::new(2, 0, 1);
    let mut data = [0xAAu8; 4];
    f.set(&mut data, 0x5C);
    assert_eq!(data, [0xAA, 0xAA, 0x5C, 0xAA]);
    assert_eq!(f.get(&data), 0x5C);
}

#[test]
fn i8_round_trip() {
    let f = Field::<i8>::new(0, 0, 1);
    let mut data = [0u8; 1];
    f.set(&mut data, -2);
    assert_eq!(data, [0xFE]);
    assert_eq!(f.get(&data), -2);
}

#[test]
fn bool_round_trip() {
    let f = Field::<bool>::new(1, 0, 1);
    let mut data = [7u8; 3];
    f.set(&mut data, true);
    assert_eq!(data, [7, 1, 7]);
    assert!(f.get(&data));
    f.set(&mut data, false);
    assert_eq!(data, [7, 0, 7]);
    assert!(!f.get(&data));
}

#[test]
fn u16_is_little_endian() {
    let f = Field::<u16>::new(1, 0, 2);
    let mut data = [0u8; 4];
    f.set(&mut data, 0x1234);
    assert_eq!(data, [0, 0x34, 0x12, 0]);
    assert_eq!(f.get(&data), 0x1234);
    assert_eq!(f.get(&[0, 0xCD, 0xAB, 0]), 0xABCD);
}

#[test]
fn i16_round_trip() {
    let f = Field::<i16>::new(0, 0, 2);
    let mut data = [0u8; 2];
    for v in [i16::MIN, -1, 0, 1, 300, i16::MAX] {
        f.set(&mut data, v);
        assert_eq!(f.get(&data), v);
    }
    f.set(&mut data, -2);
    assert_eq!(data, [0xFE, 0xFF]);
}

#[test]
fn u32_is_little_endian() {
    let f = Field::<u32>::new(2, 0, 4);
    let mut data = [0x11u8; 8];
    f.set(&mut data, 0xDEADBEEF);
    assert_eq!(data, [0x11, 0x11, 0xEF, 0xBE, 0xAD, 0xDE, 0x11, 0x11]);
    assert_eq!(f.get(&data), 0xDEADBEEF);
}

#[test]
fn i32_round_trip() {
    let f = Field::<i32>::new(4, 0, 4);
    let mut data = [0u8; 8];
    for v in [i32::MIN, -123456, -1, 0, 42, i32::MAX] {
        f.set(&mut data, v);
        assert_eq!(f.get(&data), v);
        assert_eq!(&data[..4], &[0, 0, 0, 0]);
    }
}

#[test]
fn get_after_set_keeps_value_whatever_the_buffer() {
    let f = Field::<u32>::new(1, 0, 4);
    let mut data = [0xFFu8; 5];
    f.set(&mut data, 7);
    assert_eq!(f.get(&data), 7);
    assert_eq!(data, [0xFF, 7, 0, 0, 0]);
}

#[test]
fn accepts_aligned_full_width_fields() {
    assert!(Field::<u8>::new(3, 0, 1).accepts(4));
    assert!(Field::<i8>::new(0, 0, 1).accepts(1));
    assert!(Field::<bool>::new(0, 0, 1).accepts(1));
    assert!(Field::<u16>::new(2, 0, 2).accepts(4));
    assert!(Field::<i16>::new(0, 0, 2).accepts(2));
    assert!(Field::<u32>::new(4, 0, 4).accepts(8));
    assert!(Field::<i32>::new(0, 0, 4).accepts(4));
}

#[test]
fn rejects_nonzero_bit_offset() {
    assert!(!Field::<u8>::new(0, 1, 1).accepts(4));
    assert!(!Field::<i8>::new(0, 7, 1).accepts(4));
    assert!(!Field::<bool>::new(0, 3, 1).accepts(4));
    assert!(!Field::<u16>::new(0, 4, 2).accepts(4));
    assert!(!Field::<i16>::new(0, 2, 2).accepts(4));
    assert!(!Field::<u32>::new(0, 1, 4).accepts(8));
    assert!(!Field::<i32>::new(0, 5, 4).accepts(8));
}

#[test]
fn rejects_wrong_length() {
    assert!(!Field::<u8>::new(0, 0, 8).accepts(4));
    assert!(!Field::<i8>::new(0, 0, 2).accepts(4));
    assert!(!Field::<bool>::new(0, 0, 0).accepts(4));
    assert!(!Field::<u16>::new(0, 0, 16).accepts(4));
    assert!(!Field::<i16>::new(0, 0, 1).accepts(4));
    assert!(!Field::<u32>::new(0, 0, 32).accepts(8));
    assert!(!Field::<i32>::new(0, 0, 2).accepts(8));
}

#[test]
fn rejects_short_buffer() {
    assert!(!Field::<u8>::new(4, 0, 1).accepts(4));
    assert!(!Field::<u16>::new(3, 0, 2).accepts(4));
    assert!(!Field::<u32>::new(5, 0, 4).accepts(8));
    assert!(!Field::<u32>::new(usize::MAX, 0, 4).accepts(8));
    assert!(Field::<u32>::new(4, 0, 4).accepts(8));
}

#[test]
fn reads_little_endian_examples() {
    assert_eq!(Field::<u16>::new(0, 0, 2).get(&[0x34u8, 0x12]), 0x1234);
    assert_eq!(Field::<i32>::new(1, 0, 4).get(&[0xAAu8, 0xFE, 0xFF, 0xFF, 0xFF]), -2);
    let mut data = [0xAAu8, 0, 0];
    Field::<u16>::new(1, 0, 2).set(&mut data, 0x1234);
    assert_eq!(data, [0xAA, 0x34, 0x12]);
}

#[test]
fn writing_back_a_read_value_changes_nothing() {
    let f = Field::<i16>::new(1, 0, 2);
    let mut data = [9u8, 0x80, 0x7F, 3];
    let v = f.get(&data);
    f.set(&mut data, v);
    assert_eq!(data, [9, 0x80, 0x7F, 3]);
}

#[test]
fn default_field_is_at_origin() {
    let f = Field::<u32>::default();
    assert_eq!((f.byte, f.bit, f.bitlen), (0, 0, 0));
}

#[test]
fn type_ids_and_sizes() {
    assert!(u8::id() == TypeId::U8 && u8::size() == 1);
    assert!(i8::id() == TypeId::I8 && i8::size() == 1);
    assert!(bool::id() == TypeId::BOOL && bool::size() == 1);
    assert!(u16::id() == TypeId::U16 && u16::size() == 2);
    assert!(i16::id() == TypeId::I16 && i16::size() == 2);
    assert!(u32::id() == TypeId::U32 && u32::size() == 4);
    assert!(i32::id() == TypeId::I32 && i32::size() == 4);
}

#[test]
fn field_keeps_its_location() {
    let f = Field::<u16>::new(10, 0, 2);
    let g = f.clone();
    assert_eq!((g.byte, g.bit, g.bitlen), (10, 0, 2));
}

use bitfield::access::{get_field, get_field_into, get_flag, set_field, set_field_from, set_flag};
use bitfield::position::{BitRangeSpec, PositionError};
use bitfield::range::{Bit, BitMut, BitRange, BitRangeMut};
use bitfield::slice::{read_bits, write_bits, BitOp, SliceLsb0, SliceMsb0};
use bitfield::value::BitValue;
use bitfield::word::Word;

#[test]
fn scalar_scenario_32_bit() {
    let mut storage: u32 = 0;
    storage.set_bit_range(31, 28, 0xFu32);
    assert_eq!(0xF000_0000, storage);
    storage.set_bit_range(3, 0, 0xFu32);
    assert_eq!(0xF000_000F, storage);
    let high: u32 = storage.bit_range(31, 28);
    let low: u32 = storage.bit_range(3, 0);
    assert_eq!(0xF, high);
    assert_eq!(0xF, low);
}

#[test]
fn single_bit_scenario() {
    let mut storage: u32 = 0;
    storage.set_bit(3, true);
    assert_eq!(0x8, storage);
    assert!(storage.bit(3));
    assert!(!storage.bit(2));
    storage.set_bit(3, false);
    assert_eq!(0, storage);
}

#[test]
fn array_scenario_lsb0() {
    let mut storage = SliceLsb0(vec![0u8; 3]);
    storage.set_bit_range(19, 4, 0xFFFFu16);
    assert_eq!(vec![0xF0, 0xFF, 0x0F], storage.0);
}

#[test]
fn bit_zero_under_both_numberings() {
    let mut lsb0 = SliceLsb0(vec![0u8; 3]);
    lsb0.set_bit(0, true);
    assert_eq!(vec![0x01, 0x00, 0x00], lsb0.0);

    let mut msb0 = SliceMsb0(vec![0u8; 3]);
    msb0.set_bit(0, true);
    assert_eq!(vec![0x80, 0x00, 0x00], msb0.0);
}

#[test]
fn every_position_of_a_byte_slice() {
    for i in 0..24usize {
        let mut lsb0 = SliceLsb0(vec![0u8; 3]);
        lsb0.set_bit(i, true);
        let mut expected = vec![0u8; 3];
        expected[i / 8] = 1 << (i % 8);
        assert_eq!(expected, lsb0.0);
        assert!(lsb0.bit(i));

        let mut msb0 = SliceMsb0(vec![0u8; 3]);
        msb0.set_bit(i, true);
        let mut expected = vec![0u8; 3];
        expected[i / 8] = 1 << (7 - i % 8);
        assert_eq!(expected, msb0.0);
        assert!(msb0.bit(i));
    }
}

#[test]
fn round_trip_on_every_scalar_width() {
    let mut a: u8 = 0xA5;
    a.set_bit_range(6, 2, 0b10110u8);
    let r: u8 = a.bit_range(6, 2);
    assert_eq!(0b10110, r);
    assert_eq!(0b1101_1001, a);

    let mut b: u16 = 0xFFFF;
    b.set_bit_range(11, 4, 0x5Au8);
    let r: u8 = b.bit_range(11, 4);
    assert_eq!(0x5A, r);
    assert_eq!(0xF5AF, b);

    let mut c: u64 = 0;
    c.set_bit_range(63, 32, 0xDEAD_BEEFu32);
    let r: u32 = c.bit_range(63, 32);
    assert_eq!(0xDEAD_BEEF, r);
    assert_eq!(0xDEAD_BEEF_0000_0000, c);

    let mut d: u128 = 0;
    d.set_bit_range(127, 0, u128::MAX);
    assert_eq!(u128::MAX, d);
    d.set_bit_range(100, 37, 0x0123_4567_89AB_CDEFu64);
    let r: u64 = d.bit_range(100, 37);
    assert_eq!(0x0123_4567_89AB_CDEF, r);
    let r: u128 = d.bit_range(127, 101);
    assert_eq!((1u128 << 27) - 1, r);
    let r: u128 = d.bit_range(36, 0);
    assert_eq!((1u128 << 37) - 1, r);
}

#[test]
fn write_leaves_other_bits_alone() {
    let mut storage: u32 = 0xFFFF_FFFF;
    storage.set_bit_range(19, 12, 0u8);
    assert_eq!(0xFFF0_0FFF, storage);

    let mut storage: u32 = 0x1234_5678;
    storage.set_bit_range(15, 8, 0xABu8);
    assert_eq!(0x1234_AB78, storage);

    let mut slice = SliceMsb0(vec![0xFFu8; 4]);
    slice.set_bit_range(19, 12, 0u8);
    assert_eq!(vec![0xFF, 0xF0, 0x0F, 0xFF], slice.0);
}

#[test]
fn write_truncates_the_value() {
    let mut wide: u32 = 0;
    wide.set_bit_range(7, 4, 0xFFFF_FFFFu32);
    let mut narrow: u32 = 0;
    narrow.set_bit_range(7, 4, 0xFu32);
    assert_eq!(0xF0, wide);
    assert_eq!(narrow, wide);

    let mut wide = SliceLsb0(vec![0u16; 2]);
    wide.set_bit_range(17, 14, 0xABCDu16);
    let mut narrow = SliceLsb0(vec![0u16; 2]);
    narrow.set_bit_range(17, 14, 0xDu16);
    assert_eq!(vec![0x4000, 0x0003], wide.0);
    assert_eq!(narrow, wide);
}

#[test]
fn signed_results_are_sign_extended() {
    let storage: u32 = 0x0000_00F0;
    let r: i8 = storage.bit_range(7, 4);
    assert_eq!(-1, r);
    let r: i16 = storage.bit_range(7, 4);
    assert_eq!(-1, r);
    let r: i8 = storage.bit_range(7, 3);
    assert_eq!(-2, r);
    let r: i8 = storage.bit_range(8, 4);
    assert_eq!(15, r);
    let r: u8 = storage.bit_range(7, 4);
    assert_eq!(15, r);
    let r: i128 = storage.bit_range(7, 7);
    assert_eq!(-1, r);
    let r: i64 = 0x8000_0000_0000_0000u64.bit_range(63, 0);
    assert_eq!(i64::MIN, r);

    let slice = SliceLsb0(vec![0x00u8, 0x0F]);
    let r: i16 = slice.bit_range(11, 4);
    assert_eq!(-16, r);
    let slice = SliceMsb0(vec![0x0Fu8, 0x00]);
    let r: i32 = slice.bit_range(11, 4);
    assert_eq!(-16, r);
}

#[test]
fn signed_values_are_written_by_their_pattern() {
    let mut storage: u32 = 0;
    storage.set_bit_range(7, 0, -1i8);
    assert_eq!(0xFF, storage);
    let mut storage: u32 = 0;
    storage.set_bit_range(15, 0, -2i8);
    assert_eq!(0xFFFE, storage);
    let mut storage: u32 = 0;
    storage.set_bit_range(15, 0, 0xFEu8);
    assert_eq!(0x00FE, storage);

    let mut slice = SliceLsb0(vec![0u8; 2]);
    slice.set_bit_range(11, 0, -2i8);
    assert_eq!(vec![0xFE, 0x0F], slice.0);
    let mut slice = SliceLsb0(vec![0u8; 2]);
    slice.set_bit_range(11, 0, 0xFEu8);
    assert_eq!(vec![0xFE, 0x00], slice.0);

    let mut storage: u16 = 0;
    storage.set_bit_range(11, 4, -3i64);
    let r: i64 = storage.bit_range(11, 4);
    assert_eq!(-3, r);
    assert_eq!(0x0FD0, storage);
}

#[test]
fn narrow_result_from_wide_storage() {
    let storage: u64 = 0xFEDC_BA98_7654_3210;
    let r: u8 = storage.bit_range(47, 40);
    assert_eq!(0xBA, r);
    let r: u16 = storage.bit_range(63, 52);
    assert_eq!(0xFED, r);
    let r: u128 = storage.bit_range(63, 0);
    assert_eq!(0xFEDC_BA98_7654_3210, r);
}

#[test]
fn strided_elements_are_consecutive_ranges() {
    let field = BitRangeSpec::StridedRange(6, 4, 5);
    let storage: u32 = 0b101_110_001_010_111_0000;
    for k in 0..5usize {
        let element: u8 = get_field(&storage, &field, k);
        let direct: u8 = storage.bit_range(6 + k * 3, 4 + k * 3);
        assert_eq!(direct, element);
        assert_eq!((6 + k * 3, 4 + k * 3), field.element(k));
    }
    let values: Vec<u8> = (0..5).map(|k| get_field(&storage, &field, k)).collect();
    assert_eq!(vec![0b111, 0b010, 0b001, 0b110, 0b101], values);
}

#[test]
fn strided_write_touches_one_element() {
    let field = BitRangeSpec::StridedRange(6, 4, 5);
    let mut storage: u32 = 0;
    set_field(&mut storage, &field, 3, 0b111u8);
    assert_eq!(0b111 << 13, storage);
    set_field(&mut storage, &field, 0, 0b101u8);
    assert_eq!((0b111 << 13) | (0b101 << 4), storage);
    set_field(&mut storage, &field, 3, 0u8);
    assert_eq!(0b101 << 4, storage);
}

#[test]
fn flags_of_an_array_of_bits() {
    let field = BitRangeSpec::StridedRange(2, 2, 4);
    let mut storage: u8 = 0;
    set_flag(&mut storage, &field, 1, true);
    set_flag(&mut storage, &field, 3, true);
    assert_eq!(0b0010_1000, storage);
    assert!(!get_flag(&storage, &field, 0));
    assert!(get_flag(&storage, &field, 1));
    assert!(!get_flag(&storage, &field, 2));
    assert!(get_flag(&storage, &field, 3));
    set_flag(&mut storage, &field, 1, false);
    assert_eq!(0b0010_0000, storage);

    let single = BitRangeSpec::SingleBit(7);
    set_flag(&mut storage, &single, 0, true);
    assert_eq!(0b1010_0000, storage);
    assert!(get_flag(&storage, &single, 0));
}

#[test]
fn single_bit_and_range_read_as_fields() {
    let storage: u16 = 0b0000_0100_1010_0000;
    let bit: u8 = get_field(&storage, &BitRangeSpec::SingleBit(10), 0);
    assert_eq!(1, bit);
    let range: u8 = get_field(&storage, &BitRangeSpec::Range(7, 4), 0);
    assert_eq!(0b1010, range);
}

#[test]
fn positions_by_arity() {
    assert_eq!(Ok(BitRangeSpec::SingleBit(5)), BitRangeSpec::from_positions(&[5]));
    assert_eq!(Ok(BitRangeSpec::Range(10, 0)), BitRangeSpec::from_positions(&[10, 0]));
    assert_eq!(Ok(BitRangeSpec::Range(4, 4)), BitRangeSpec::from_positions(&[4, 4]));
    assert_eq!(Ok(BitRangeSpec::StridedRange(5, 3, 3)), BitRangeSpec::from_positions(&[5, 3, 3]));
    assert_eq!(Err(PositionError::UnsupportedArity), BitRangeSpec::from_positions(&[]));
    assert_eq!(Err(PositionError::UnsupportedArity), BitRangeSpec::from_positions(&[1, 2, 3, 4]));
    assert_eq!(Err(PositionError::MsbBelowLsb), BitRangeSpec::from_positions(&[3, 4]));
    assert_eq!(Err(PositionError::MsbBelowLsb), BitRangeSpec::from_positions(&[3, 4, 0]));
    assert_eq!(Err(PositionError::EmptyArray), BitRangeSpec::from_positions(&[4, 3, 0]));
    assert_eq!(Err(PositionError::OutOfRange), BitRangeSpec::from_positions(&[usize::MAX]));
    assert_eq!(Err(PositionError::OutOfRange), BitRangeSpec::from_positions(&[usize::MAX, 0]));
    assert_eq!(Err(PositionError::OutOfRange), BitRangeSpec::from_positions(&[7, 0, usize::MAX]));
    assert_eq!(Err(PositionError::OutOfRange), BitRangeSpec::from_positions(&[usize::MAX - 8, 0, 2]));
    assert_eq!(
        Ok(BitRangeSpec::StridedRange(usize::MAX - 2, usize::MAX - 2, 2)),
        BitRangeSpec::from_positions(&[usize::MAX - 2, usize::MAX - 2, 2])
    );
    assert_eq!(
        Err(PositionError::OutOfRange),
        BitRangeSpec::from_positions(&[usize::MAX - 2, usize::MAX - 2, 3])
    );
    assert_eq!(Ok(BitRangeSpec::Range(9, 2)), BitRangeSpec::Range(9, 2).check());
    assert_eq!(Err(PositionError::MsbBelowLsb), BitRangeSpec::Range(2, 9).check());
}

#[test]
fn sizes_of_a_field() {
    assert_eq!(1, BitRangeSpec::SingleBit(9).len());
    assert_eq!(1, BitRangeSpec::SingleBit(9).bit_width());
    assert_eq!(1, BitRangeSpec::Range(10, 0).len());
    assert_eq!(11, BitRangeSpec::Range(10, 0).bit_width());
    assert_eq!(4, BitRangeSpec::StridedRange(103, 96, 4).len());
    assert_eq!(8, BitRangeSpec::StridedRange(103, 96, 4).bit_width());
    assert_eq!((9, 9), BitRangeSpec::SingleBit(9).element(0));
    assert_eq!((10, 0), BitRangeSpec::Range(10, 0).element(0));
    assert_eq!((127, 120), BitRangeSpec::StridedRange(103, 96, 4).element(3));
}

#[test]
fn masks_cover_the_field() {
    assert_eq!(0x7FF, BitRangeSpec::Range(10, 0).mask::<u128>());
    assert_eq!(0x20, BitRangeSpec::SingleBit(5).mask::<u128>());
    assert_eq!(0xFF8, BitRangeSpec::StridedRange(5, 3, 3).mask::<u128>());
    assert_eq!(0x3F0, BitRangeSpec::StridedRange(5, 4, 3).mask::<u128>());
    assert_eq!(0x3F0, BitRangeSpec::StridedRange(6, 4, 2).mask::<u128>());
    assert_eq!(0x1F0, BitRangeSpec::Range(8, 4).mask::<u128>());
    assert_eq!(u128::MAX, BitRangeSpec::Range(127, 0).mask::<u128>());
    assert_eq!(1u128 << 127, BitRangeSpec::SingleBit(127).mask::<u128>());
    let m: u16 = BitRangeSpec::Range(10, 0).mask();
    assert_eq!(0x7FF, m);
    let m: u8 = BitRangeSpec::SingleBit(5).mask();
    assert_eq!(0x20, m);
    let m: u32 = BitRangeSpec::StridedRange(31, 24, 1).mask();
    assert_eq!(0xFF00_0000, m);
    let m: u64 = BitRangeSpec::StridedRange(7, 0, 8).mask();
    assert_eq!(u64::MAX, m);
}

#[test]
fn value_operations() {
    assert_eq!(8, u8::bit_len());
    assert_eq!(16, i16::bit_len());
    assert_eq!(32, u32::bit_len());
    assert_eq!(64, i64::bit_len());
    assert_eq!(128, u128::bit_len());
    assert_eq!(0, <u32 as BitValue>::zero());
    assert_eq!(0, <i128 as BitValue>::zero());

    assert!(0b101u8.low_bit());
    assert!(!0b100u8.low_bit());
    assert!((-1i32).low_bit());

    assert_eq!(0b1011, 0b101u8.push_bit(true));
    assert_eq!(0b1010, 0b101u8.push_bit(false));
    assert_eq!(0x01, 0x80u8.push_bit(true));
    assert_eq!(-1, (-1i8).push_bit(true));
    assert_eq!(-2, (-1i8).push_bit(false));
    assert_eq!(1, i64::MIN.push_bit(true));

    assert_eq!(0b10, 0b101u8.drop_bit());
    assert_eq!(0x40, 0x80u8.drop_bit());
    assert_eq!(-64, (-128i8).drop_bit());
    assert_eq!(-1, (-1i128).drop_bit());

    assert_eq!(0x0F, 0xFFu8.extend(4));
    assert_eq!(0xFF, 0xFFu8.extend(8));
    assert_eq!(-1, 0x0Fi8.extend(4));
    assert_eq!(7, 0x07i8.extend(4));
    assert_eq!(7, 0x17i16.extend(4));
    assert_eq!(-8, 0x18i16.extend(4));
    assert_eq!(1, u128::MAX.extend(1));
    assert_eq!(-1, 1i64.extend(1));

    assert_eq!(0x34, u8::from_raw(0x1234));
    assert_eq!(-1, i8::from_raw(0xFF));
    assert_eq!(-1, i128::from_raw(u128::MAX));
    assert_eq!(0x1234, u64::from_raw(0x1234));
    assert_eq!(0xFF, 0xFFu8.to_raw());
    assert_eq!(u128::MAX, (-1i8).to_raw());
    assert_eq!(u128::MAX - 1, (-2i64).to_raw());
    assert_eq!(5, 5i32.to_raw());
}

#[test]
fn word_operations() {
    assert!(0x80u8.test_bit(7));
    assert!(!0x80u8.test_bit(6));
    assert!((1u128 << 100).test_bit(100));

    assert_eq!(0x81, 0x80u8.with_bit(0, true));
    assert_eq!(0x00, 0x80u8.with_bit(7, false));
    assert_eq!(0x80, 0x80u8.with_bit(7, true));
    assert_eq!(1u64 << 63, 0u64.with_bit(63, true));

    assert_eq!(0x4, 0x1234_5678u32.extract(19, 16));
    assert_eq!(0x1234_5678, 0x1234_5678u32.extract(31, 0));
    assert_eq!(1, 0x8000u16.extract(15, 15));
    assert_eq!(0x246, 0x1234_5678u32.extract(30, 19));

    assert_eq!(0x12F4_5678, 0x1234_5678u32.replace(23, 20, 0xFF));
    assert_eq!(0xFFFF_FFFF, 0u32.replace(31, 0, 0xFFFF_FFFF));
    assert_eq!(0x0000, 0x8000u16.replace(15, 15, 2));

    assert_eq!(0b1000, 0b1100u8.and(0b1010));
    assert_eq!(0b1110, 0b1100u8.or(0b1010));
    assert_eq!(0b0110, 0b1100u8.xor(0b1010));
}

#[test]
fn slices_combine_word_by_word() {
    let rhs = SliceLsb0(vec![0x0Fu8, 0xF0, 0xAA, 0x11]);

    let mut left = SliceLsb0(vec![0x3Cu8, 0x3C, 0xFF]);
    left.combine(&rhs, BitOp::And);
    assert_eq!(vec![0x0C, 0x30, 0xAA], left.0);

    let mut left = SliceLsb0(vec![0x3Cu8, 0x3C, 0x00]);
    left.combine(&rhs, BitOp::Or);
    assert_eq!(vec![0x3F, 0xFC, 0xAA], left.0);

    let mut left = SliceLsb0(vec![0x3Cu8, 0x3C, 0xFF]);
    left.combine(&rhs, BitOp::Xor);
    assert_eq!(vec![0x33, 0xCC, 0x55], left.0);

    let rhs = SliceMsb0(vec![0x00FFu16, 0xFF00]);
    let mut left = SliceMsb0(vec![0x0F0Fu16, 0x0F0F]);
    left.combine(&rhs, BitOp::Xor);
    assert_eq!(vec![0x0FF0, 0xF00F], left.0);
}

#[test]
fn reading_and_writing_words_directly() {
    let mut words: Vec<u16> = vec![0, 0];
    write_bits(&mut words, false, 20, 4, 0xFFFFu32);
    assert_eq!(vec![0xFFF0, 0x000F], words);
    let r: u32 = read_bits(&words, false, 20, 4);
    assert_eq!(0xFFFF, r);

    let mut words: Vec<u16> = vec![0, 0];
    write_bits(&mut words, true, 20, 4, 0x1FFFFu32);
    assert_eq!(vec![0x0FFF, 0xF800], words);
    let r: u32 = read_bits(&words, true, 20, 4);
    assert_eq!(0x1FFFF, r);
    let r: u8 = read_bits(&words, true, 11, 4);
    assert_eq!(0xFF, r);
    let r: u8 = read_bits(&words, true, 7, 0);
    assert_eq!(0x0F, r);
}

#[test]
fn wide_elements() {
    let mut slice = SliceLsb0(vec![0u64; 2]);
    slice.set_bit_range(71, 56, 0xBEEFu16);
    assert_eq!(vec![0xEF00_0000_0000_0000, 0x0000_0000_0000_00BE], slice.0);
    let r: u16 = slice.bit_range(71, 56);
    assert_eq!(0xBEEF, r);

    let mut slice = SliceMsb0(vec![0u128; 2]);
    slice.set_bit_range(131, 124, 0xA5u8);
    assert_eq!(vec![0xA, 0x5u128 << 124], slice.0);
    let r: u8 = slice.bit_range(131, 124);
    assert_eq!(0xA5, r);

    let mut slice = SliceMsb0(vec![0u32; 1]);
    slice.set_bit_range(31, 0, 0x1234_5678u32);
    assert_eq!(vec![0x1234_5678], slice.0);
}

#[test]
fn ipv4_header_fields() {
    let data: Vec<u8> = vec![
        0x45, 0x00, 0x00, 0x40, 0x69, 0x27, 0x40, 0x00, 0x40, 0x11, 0x4d, 0x0d, 0xc0, 0xa8, 0x01, 0x2a, 0xc0, 0xa8,
        0x01, 0xfe,
    ];
    let header = SliceMsb0(data);

    let version: u8 = header.bit_range(3, 0);
    let ihl: u8 = header.bit_range(7, 4);
    let total_length: u16 = header.bit_range(31, 16);
    let identification: u32 = header.bit_range(47, 31);
    let fragment_offset: u16 = header.bit_range(63, 51);
    let time_to_live: u8 = header.bit_range(71, 64);
    let protocol: u8 = header.bit_range(79, 72);
    assert_eq!(4, version);
    assert_eq!(5, ihl);
    assert_eq!(64, total_length);
    assert_eq!(0x6927, identification);
    assert!(header.bit(49));
    assert!(!header.bit(50));
    assert_eq!(0, fragment_offset);
    assert_eq!(0x40, time_to_live);
    assert_eq!(0x11, protocol);

    let source = BitRangeSpec::StridedRange(103, 96, 4);
    let destination = BitRangeSpec::StridedRange(135, 128, 4);
    let from: Vec<u8> = (0..4).map(|i| get_field(&header, &source, i)).collect();
    let to: Vec<u8> = (0..4).map(|i| get_field(&header, &destination, i)).collect();
    assert_eq!(vec![192, 168, 1, 42], from);
    assert_eq!(vec![192, 168, 1, 254], to);
}

struct PubBitFieldInAModule(pub u32);

#[test]
fn struct_can_be_public() {
    let _ = PubBitFieldInAModule(0);
}

#[test]
fn field_can_be_public() {
    let mut a = PubBitFieldInAModule(0);
    let array = BitRangeSpec::StridedRange(1, 1, 1);
    let _ = a.0.bit(1);
    a.0.set_bit(1, true);
    let _ = a.0.bit(1);
    a.0.set_bit(1, true);
    let _ = a.0.bit(1);
    a.0.set_bit(1, true);
    a.0.set_bit(1, true);
    let _ = a.0.bit(1);
    let _ = a.0.bit(1);
    a.0.set_bit(1, true);
    let _: u32 = a.0.bit_range(1, 1);
    a.0.set_bit_range(1, 1, 0u32);
    let _: u32 = get_field(&a.0, &array, 0);
    set_field(&mut a.0, &array, 0, 0u32);
    let _ = a.0.bit(1);
    a.0.set_bit(1, true);
    let _: u32 = a.0.bit_range(1, 1);
    a.0.set_bit_range(1, 1, 0u32);
    let _: u32 = get_field(&a.0, &array, 0);
    set_field(&mut a.0, &array, 0, 0u32);
}

#[derive(Debug, PartialEq)]
struct Speed(u16);

impl From<u16> for Speed {
    fn from(raw: u16) -> Speed {
        Speed(raw)
    }
}

impl From<Speed> for u16 {
    fn from(speed: Speed) -> u16 {
        speed.0
    }
}

#[test]
fn conversions_wrap_the_raw_value() {
    let field = BitRangeSpec::Range(15, 4);
    let storage: u32 = 0x0000_ABC0;
    let speed: Speed = get_field_into::<u32, u16, Speed>(&storage, &field, 0);
    assert_eq!(Speed(0xABC), speed);
    let plain: u32 = get_field_into::<u32, u16, u32>(&storage, &field, 0);
    assert_eq!(0xABC, plain);

    let mut storage: u32 = 0;
    set_field_from::<u32, u16, Speed>(&mut storage, &field, 0, Speed(0xFFFF));
    assert_eq!(0x0000_FFF0, storage);
    set_field_from::<u32, u16, u8>(&mut storage, &field, 0, 0x12u8);
    assert_eq!(0x0000_0120, storage);

    let array = BitRangeSpec::StridedRange(7, 0, 4);
    let mut bytes = SliceMsb0(vec![0u8; 4]);
    set_field_from::<SliceMsb0<u8>, u16, Speed>(&mut bytes, &array, 2, Speed(0x1FE));
    assert_eq!(vec![0, 0, 0xFE, 0], bytes.0);
    let speed: Speed = get_field_into::<SliceMsb0<u8>, u16, Speed>(&bytes, &array, 2);
    assert_eq!(Speed(0xFE), speed);
}

#[test]
fn reading_from_a_borrowed_slice() {
    let bytes: [u8; 3] = [0xF0, 0xFF, 0x0F];
    let r: u16 = read_bits(&bytes, false, 19, 4);
    assert_eq!(0xFFFF, r);
    let r: u16 = read_bits(&bytes[1..], true, 11, 4);
    assert_eq!(0xF0, r);
}

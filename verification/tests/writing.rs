use bitbuffer::{BigEndian, BitBuffer, BitError, BitStream, BitWriteStream, LittleEndian};

const BYTES: [u8; 17] = [
    0xb5, 0x6a, 0xac, 0x99, 0x99, 0x99, 0x99, 0xe7, 0x12, 0x34, 0x56, 0x78, 0x9a, 0xbc, 0xde, 0xf0,
    0x0f,
];

#[test]
fn new_stream_is_empty() {
    let stream = BitWriteStream::new(Vec::new(), LittleEndian);
    assert_eq!(stream.bit_len(), 0);
    assert_eq!(stream.byte_len(), 0);
    assert_eq!(stream.as_bytes(), &[] as &[u8]);
    assert_eq!(stream.into_bytes(), Vec::<u8>::new());
}

#[test]
fn lengths_count_bits_and_bytes() {
    let mut stream = BitWriteStream::new(Vec::new(), BigEndian);
    stream.write_bool(true).unwrap();
    assert_eq!(stream.bit_len(), 1);
    assert_eq!(stream.byte_len(), 1);
    stream.write_int(0u8, 7).unwrap();
    assert_eq!(stream.bit_len(), 8);
    assert_eq!(stream.byte_len(), 1);
    stream.write_int(0u8, 1).unwrap();
    assert_eq!(stream.bit_len(), 9);
    assert_eq!(stream.byte_len(), 2);
}

#[test]
fn four_bits_make_one_byte() {
    let mut le = BitWriteStream::new(Vec::new(), LittleEndian);
    for bit in [true, false, true, true] {
        le.write_bool(bit).unwrap();
    }
    assert_eq!(le.as_bytes(), &[0b0000_1101]);
    let bytes = le.into_bytes();
    let mut back = BitStream::new(BitBuffer::from_padded_slice(&bytes, 1, LittleEndian));
    assert_eq!(back.read_int::<u8>(4), Ok(0b1101));

    let mut be = BitWriteStream::new(Vec::new(), BigEndian);
    for bit in [1u8, 0, 1, 1] {
        be.write_int(bit, 1).unwrap();
    }
    assert_eq!(be.as_bytes(), &[0b1011_0000]);
    let bytes = be.into_bytes();
    let mut back = BitStream::new(BitBuffer::from_padded_slice(&bytes, 1, BigEndian));
    assert_eq!(back.read_int::<u8>(4), Ok(0b1011));
}

#[test]
fn fields_across_a_byte_boundary() {
    let mut le = BitWriteStream::new(Vec::new(), LittleEndian);
    le.write_int(0b101u8, 3).unwrap();
    le.write_int(0x1abcu16, 13).unwrap();
    assert_eq!(le.as_bytes(), &[0xe5, 0xd5]);
    let bytes = le.into_bytes();
    let mut back = BitStream::new(BitBuffer::from_padded_slice(&bytes, 2, LittleEndian));
    assert_eq!(back.read_int::<u8>(3), Ok(0b101));
    assert_eq!(back.read_int::<u16>(13), Ok(0x1abc));

    let mut be = BitWriteStream::new(Vec::new(), BigEndian);
    be.write_int(0b101u8, 3).unwrap();
    be.write_int(0x1abcu16, 13).unwrap();
    assert_eq!(be.as_bytes(), &[0xba, 0xbc]);
    let bytes = be.into_bytes();
    let mut back = BitStream::new(BitBuffer::from_padded_slice(&bytes, 2, BigEndian));
    assert_eq!(back.read_int::<u8>(3), Ok(0b101));
    assert_eq!(back.read_int::<u16>(13), Ok(0x1abc));
}

#[test]
fn mixed_fields_little_endian() {
    let mut stream = BitWriteStream::new(Vec::new(), LittleEndian);
    stream.write_bool(true).unwrap();
    stream.write_int(123u16, 15).unwrap();
    stream.write_int(0xdeadbeefcafebabeu64, 64).unwrap();
    stream.write_int(-5i8, 5).unwrap();
    assert_eq!(stream.bit_len(), 85);
    assert_eq!(
        stream.into_bytes(),
        vec![0xf7, 0x00, 0xbe, 0xba, 0xfe, 0xca, 0xef, 0xbe, 0xad, 0xde, 0x1b]
    );
}

#[test]
fn mixed_fields_big_endian() {
    let mut stream = BitWriteStream::new(Vec::new(), BigEndian);
    stream.write_bool(true).unwrap();
    stream.write_int(123u16, 15).unwrap();
    stream.write_int(0xdeadbeefcafebabeu64, 64).unwrap();
    stream.write_int(-5i8, 5).unwrap();
    assert_eq!(stream.bit_len(), 85);
    assert_eq!(
        stream.into_bytes(),
        vec![0x80, 0x7b, 0xde, 0xad, 0xbe, 0xef, 0xca, 0xfe, 0xba, 0xbe, 0xd8]
    );
}

#[test]
fn wide_fields() {
    let mut le = BitWriteStream::new(Vec::new(), LittleEndian);
    le.write_int(3u8, 2).unwrap();
    le.write_int(0x0123456789abcdef0fedcba987654321u128, 128).unwrap();
    le.write_int(-2i128, 100).unwrap();
    assert_eq!(le.bit_len(), 230);
    assert_eq!(
        le.into_bytes(),
        vec![
            0x87, 0x0c, 0x95, 0x1d, 0xa6, 0x2e, 0xb7, 0x3f, 0xbc, 0x37, 0xaf, 0x26, 0x9e, 0x15,
            0x8d, 0x04, 0xf8, 0xff, 0xff, 0xff, 0xff, 0xff, 0xff, 0xff, 0xff, 0xff, 0xff, 0xff,
            0x3f
        ]
    );
    let mut be = BitWriteStream::new(Vec::new(), BigEndian);
    be.write_int(3u8, 2).unwrap();
    be.write_int(0x0123456789abcdef0fedcba987654321u128, 128).unwrap();
    be.write_int(-2i128, 100).unwrap();
    assert_eq!(be.bit_len(), 230);
    assert_eq!(
        be.into_bytes(),
        vec![
            0xc0, 0x48, 0xd1, 0x59, 0xe2, 0x6a, 0xf3, 0x7b, 0xc3, 0xfb, 0x72, 0xea, 0x61, 0xd9,
            0x50, 0xc8, 0x7f, 0xff, 0xff, 0xff, 0xff, 0xff, 0xff, 0xff, 0xff, 0xff, 0xff, 0xff,
            0xf8
        ]
    );
}

#[test]
fn a_field_keeps_only_its_low_bits() {
    let mut stream = BitWriteStream::new(Vec::new(), LittleEndian);
    stream.write_int(0xffu8, 3).unwrap();
    stream.write_int(0u8, 5).unwrap();
    stream.write_int(0x1234u16, 8).unwrap();
    stream.write_int(0u32, 0).unwrap();
    assert_eq!(stream.into_bytes(), vec![0x07, 0x34]);
}

#[test]
fn count_above_the_width_is_refused() {
    let mut stream = BitWriteStream::new(Vec::new(), LittleEndian);
    stream.write_int(1u8, 3).unwrap();
    assert_eq!(
        stream.write_int(1u8, 9),
        Err(BitError::TooManyBits { requested: 9, max: 8 })
    );
    assert_eq!(
        stream.write_int(-1i32, 33),
        Err(BitError::TooManyBits { requested: 33, max: 32 })
    );
    assert_eq!(
        stream.write_sized(&7u16, 17),
        Err(BitError::TooManyBits { requested: 17, max: 16 })
    );
    assert_eq!(stream.bit_len(), 3);
    assert_eq!(stream.as_bytes(), &[1]);
}

#[test]
fn bytes_go_in_whole() {
    let mut le = BitWriteStream::new(Vec::new(), LittleEndian);
    le.write_bytes(&[0, 1, 2, 3]).unwrap();
    assert_eq!(le.as_bytes(), &[0, 1, 2, 3]);
    le.write_bytes(&[]).unwrap();
    assert_eq!(le.bit_len(), 32);
    let mut be = BitWriteStream::new(Vec::new(), BigEndian);
    be.write_int(0xfu8, 4).unwrap();
    be.write_bytes(&[0x12, 0x34]).unwrap();
    assert_eq!(be.as_bytes(), &[0xf1, 0x23, 0x40]);
    let mut le = BitWriteStream::new(Vec::new(), LittleEndian);
    le.write_int(0xfu8, 4).unwrap();
    le.write_bytes(&[0x12, 0x34]).unwrap();
    assert_eq!(le.as_bytes(), &[0x2f, 0x41, 0x03]);
}

#[test]
fn bytes_in_the_container_stay_in_front() {
    let mut stream = BitWriteStream::new(vec![9, 8, 7], BigEndian);
    assert_eq!(stream.bit_len(), 0);
    stream.write_int(0b101u8, 3).unwrap();
    stream.write_int(0x1abcu16, 13).unwrap();
    assert_eq!(stream.bit_len(), 16);
    assert_eq!(stream.byte_len(), 2);
    assert_eq!(stream.into_bytes(), vec![9, 8, 7, 0xba, 0xbc]);
}

#[test]
fn zero_terminated_string() {
    let mut stream = BitWriteStream::new(Vec::new(), LittleEndian);
    stream.write_string("hi", None).unwrap();
    assert_eq!(stream.as_bytes(), &[b'h', b'i', 0]);
    stream.write_string("", None).unwrap();
    assert_eq!(stream.as_bytes(), &[b'h', b'i', 0, 0]);
    let mut stream = BitWriteStream::new(Vec::new(), BigEndian);
    stream.write(&"hi".to_string()).unwrap();
    assert_eq!(stream.as_bytes(), &[b'h', b'i', 0]);
}

#[test]
fn fixed_length_string() {
    let mut stream = BitWriteStream::new(Vec::new(), LittleEndian);
    stream.write_string("hi", Some(5)).unwrap();
    assert_eq!(stream.as_bytes(), &[b'h', b'i', 0, 0, 0]);
    stream.write_string("yo", Some(2)).unwrap();
    assert_eq!(stream.as_bytes(), &[b'h', b'i', 0, 0, 0, b'y', b'o']);
    stream.write_sized(&"a".to_string(), 2).unwrap();
    assert_eq!(stream.as_bytes(), &[b'h', b'i', 0, 0, 0, b'y', b'o', b'a', 0]);
    stream.write_string("", Some(0)).unwrap();
    assert_eq!(stream.bit_len(), 72);
}

#[test]
fn string_too_long_for_its_field() {
    let mut stream = BitWriteStream::new(Vec::new(), LittleEndian);
    assert_eq!(
        stream.write_string("hi", Some(1)),
        Err(BitError::StringToLong { string_length: 2, requested_length: 1 })
    );
    assert_eq!(stream.bit_len(), 0);
    assert_eq!(
        stream.write_sized(&"g\u{e9}".to_string(), 2),
        Err(BitError::StringToLong { string_length: 3, requested_length: 2 })
    );
    assert_eq!(stream.into_bytes(), Vec::<u8>::new());
}

#[test]
fn unaligned_string() {
    let mut le = BitWriteStream::new(Vec::new(), LittleEndian);
    le.write_bool(true).unwrap();
    le.write_string("hi", None).unwrap();
    assert_eq!(le.as_bytes(), &[0xd1, 0xd2, 0x00, 0x00]);
    let mut be = BitWriteStream::new(Vec::new(), BigEndian);
    be.write_bool(true).unwrap();
    be.write_string("hi", None).unwrap();
    assert_eq!(be.as_bytes(), &[0xb4, 0x34, 0x80, 0x00]);
}

#[test]
fn optional_values() {
    let mut le = BitWriteStream::new(Vec::new(), LittleEndian);
    le.write(&Some(0b0010_1011u8)).unwrap();
    le.write(&None::<u8>).unwrap();
    le.write(&Some(true)).unwrap();
    assert_eq!(le.bit_len(), 12);
    assert_eq!(le.as_bytes(), &[0b0101_0111, 0b0000_1100]);
    let mut be = BitWriteStream::new(Vec::new(), BigEndian);
    be.write(&None::<u32>).unwrap();
    be.write(&Some(Some(0xffu8))).unwrap();
    assert_eq!(be.bit_len(), 11);
    assert_eq!(be.as_bytes(), &[0b0111_1111, 0b1110_0000]);
}

#[test]
fn typed_writes() {
    let mut stream = BitWriteStream::new(Vec::new(), BigEndian);
    stream.write(&0x1234u16).unwrap();
    stream.write(&-1i8).unwrap();
    stream.write(&true).unwrap();
    stream.write_sized(&5u64, 7).unwrap();
    assert_eq!(stream.into_bytes(), vec![0x12, 0x34, 0xff, 0x85]);
    let mut stream = BitWriteStream::new(Vec::new(), LittleEndian);
    stream.write(&0x1234u16).unwrap();
    stream.write(&-1i8).unwrap();
    stream.write(&true).unwrap();
    stream.write_sized(&5u64, 7).unwrap();
    assert_eq!(stream.into_bytes(), vec![0x34, 0x12, 0xff, 0x0b]);
}

#[test]
fn reserved_bits_are_cleared_until_set() {
    let mut stream = BitWriteStream::new(Vec::new(), LittleEndian);
    stream.write_int(0b111u8, 3).unwrap();
    let at = stream.reserve(10);
    assert_eq!(at, 3);
    assert_eq!(stream.bit_len(), 13);
    stream.write_int(0b111u8, 3).unwrap();
    assert_eq!(stream.as_bytes(), &[0x07, 0xe0]);
    stream.write_length(at, 10, 0x2aa).unwrap();
    assert_eq!(stream.as_bytes(), &[0x57, 0xf5]);
    assert_eq!(stream.bit_len(), 16);
    let mut stream = BitWriteStream::new(Vec::new(), BigEndian);
    let at = stream.reserve(100);
    assert_eq!(stream.bit_len(), 100);
    assert_eq!(stream.byte_len(), 13);
    assert_eq!(stream.as_bytes(), &[0u8; 13]);
    assert_eq!(at, 0);
}

#[test]
fn length_that_does_not_fit_is_refused() {
    let mut stream = BitWriteStream::new(Vec::new(), LittleEndian);
    let at = stream.reserve(4);
    stream.write_int(0xffffu16, 16).unwrap();
    assert_eq!(
        stream.write_length(at, 4, 16),
        Err(BitError::TooManyBits { requested: 5, max: 4 })
    );
    assert_eq!(stream.as_bytes(), &[0xf0, 0xff, 0x0f]);
    assert_eq!(stream.write_length(at, 4, 15), Ok(()));
    assert_eq!(stream.as_bytes(), &[0xff, 0xff, 0x0f]);
    let mut stream = BitWriteStream::new(Vec::new(), BigEndian);
    let at = stream.reserve(0);
    assert_eq!(stream.write_length(at, 0, 0), Ok(()));
    assert_eq!(
        stream.write_length(at, 0, 1),
        Err(BitError::TooManyBits { requested: 1, max: 0 })
    );
    let at = stream.reserve(64);
    assert_eq!(stream.write_length(at, 64, usize::MAX), Ok(()));
    assert_eq!(stream.as_bytes(), &usize::MAX.to_be_bytes()[..]);
}

#[test]
fn length_before_its_section() {
    let mut le = BitWriteStream::new(Vec::new(), LittleEndian);
    le.reserve_length(8, |tail: &mut BitWriteStream<LittleEndian>| tail.write_int(0xabcdeu32, 20))
        .unwrap();
    assert_eq!(le.bit_len(), 28);
    assert_eq!(le.as_bytes(), &[0x14, 0xde, 0xbc, 0x0a]);
    let bytes = le.into_bytes();
    let mut back = BitStream::new(BitBuffer::from_padded_slice(&bytes, 4, LittleEndian));
    assert_eq!(back.read::<u8>(), Ok(20));
    assert_eq!(back.read_int::<u32>(20), Ok(0xabcde));

    let mut be = BitWriteStream::new(Vec::new(), BigEndian);
    be.reserve_length(8, |tail: &mut BitWriteStream<BigEndian>| tail.write_int(0xabcdeu32, 20))
        .unwrap();
    assert_eq!(be.as_bytes(), &[0x14, 0xab, 0xcd, 0xe0]);
}

#[test]
fn length_before_its_section_unaligned() {
    let mut le = BitWriteStream::new(Vec::new(), LittleEndian);
    le.write_int(5u8, 3).unwrap();
    le.reserve_length(8, |tail: &mut BitWriteStream<LittleEndian>| tail.write_int(0xabcdeu32, 20))
        .unwrap();
    assert_eq!(le.as_bytes(), &[0xa5, 0xf0, 0xe6, 0x55]);
    let mut be = BitWriteStream::new(Vec::new(), BigEndian);
    be.write_int(5u8, 3).unwrap();
    be.reserve_length(8, |tail: &mut BitWriteStream<BigEndian>| tail.write_int(0xabcdeu32, 20))
        .unwrap();
    assert_eq!(be.as_bytes(), &[0xa2, 0x95, 0x79, 0xbc]);
}

#[test]
fn nested_sections() {
    let mut stream = BitWriteStream::new(Vec::new(), BigEndian);
    stream
        .reserve_length(8, |outer: &mut BitWriteStream<BigEndian>| {
            outer.write_int(0xau8, 4)?;
            outer.reserve_length(4, |inner: &mut BitWriteStream<BigEndian>| {
                inner.write_int(0x1ffu16, 9)
            })
        })
        .unwrap();
    // 8 bits of length (17), 4 bits, 4 bits of length (9), 9 bits.
    assert_eq!(stream.bit_len(), 25);
    assert_eq!(stream.as_bytes(), &[17, 0xa9, 0xff, 0x80]);
}

#[test]
fn section_that_fails_leaves_its_length_cleared() {
    let mut stream = BitWriteStream::new(Vec::new(), LittleEndian);
    let outcome = stream.reserve_length(8, |tail: &mut BitWriteStream<LittleEndian>| {
        tail.write_int(0xffu8, 8)?;
        tail.write_string("hi", Some(1))
    });
    assert_eq!(
        outcome,
        Err(BitError::StringToLong { string_length: 2, requested_length: 1 })
    );
    assert_eq!(stream.as_bytes(), &[0x00, 0xff]);
}

#[test]
fn section_too_long_for_its_length() {
    let mut stream = BitWriteStream::new(Vec::new(), LittleEndian);
    let outcome = stream.reserve_length(2, |tail: &mut BitWriteStream<LittleEndian>| {
        tail.write_int(0u8, 4)
    });
    assert_eq!(outcome, Err(BitError::TooManyBits { requested: 3, max: 2 }));
    let mut stream = BitWriteStream::new(Vec::new(), LittleEndian);
    let outcome = stream.reserve_length(2, |tail: &mut BitWriteStream<LittleEndian>| {
        tail.write_int(0u8, 3)
    });
    assert_eq!(outcome, Ok(()));
    assert_eq!(stream.as_bytes(), &[0b0000_0011]);
}

#[test]
fn length_field_wider_than_a_word() {
    let mut stream = BitWriteStream::new(vec![1], LittleEndian);
    let outcome = stream.reserve_length(65, |tail: &mut BitWriteStream<LittleEndian>| {
        tail.write_bool(true)
    });
    assert_eq!(outcome, Err(BitError::TooManyBits { requested: 65, max: 64 }));
    assert_eq!(stream.bit_len(), 0);
    assert_eq!(stream.into_bytes(), vec![1]);
}

#[test]
fn splice_at_three_bits() {
    let source = BitStream::new(BitBuffer::from_padded_slice(&BYTES, 5, LittleEndian));
    let mut le = BitWriteStream::new(Vec::new(), LittleEndian);
    le.write_int(0b101u8, 3).unwrap();
    le.write_bits(&source).unwrap();
    assert_eq!(le.bit_len(), 43);
    assert_eq!(le.as_bytes(), &[0xad, 0x55, 0x63, 0xcd, 0xcc, 0x04]);
    assert_eq!(source.pos(), 0);

    let source = BitStream::new(BitBuffer::from_padded_slice(&BYTES, 5, BigEndian));
    let mut be = BitWriteStream::new(Vec::new(), BigEndian);
    be.write_int(0b101u8, 3).unwrap();
    be.write_bits(&source).unwrap();
    assert_eq!(be.bit_len(), 43);
    assert_eq!(be.as_bytes(), &[0xb6, 0xad, 0x55, 0x93, 0x33, 0x20]);
}

#[test]
fn splice_of_fewer_bits_than_fill_the_byte() {
    let mut source = BitStream::new(BitBuffer::from_padded_slice(&BYTES, 1, LittleEndian));
    let mut part = source.read_bits(2).unwrap();
    assert_eq!(part.bits_left(), 2);
    let mut le = BitWriteStream::new(Vec::new(), LittleEndian);
    le.write_int(0b101u8, 3).unwrap();
    le.write_bits(&part).unwrap();
    assert_eq!(le.bit_len(), 5);
    assert_eq!(le.as_bytes(), &[0x0d]);
    assert_eq!(part.read_int::<u8>(2), Ok(1));
    le.write_bits(&part).unwrap();
    assert_eq!(le.bit_len(), 5);

    let mut source = BitStream::new(BitBuffer::from_padded_slice(&BYTES, 1, BigEndian));
    let part = source.read_bits(2).unwrap();
    let mut be = BitWriteStream::new(Vec::new(), BigEndian);
    be.write_int(0b101u8, 3).unwrap();
    be.write_bits(&part).unwrap();
    assert_eq!(be.as_bytes(), &[0xb0]);
}

#[test]
fn splice_from_the_middle_of_a_source() {
    let mut source = BitStream::new(BitBuffer::from_padded_slice(&BYTES, 17, LittleEndian));
    source.read_int::<u8>(5).unwrap();
    let mut le = BitWriteStream::new(Vec::new(), LittleEndian);
    le.write_int(0x7fu8, 7).unwrap();
    le.write_bits(&source).unwrap();
    assert_eq!(le.bit_len(), 138);
    assert_eq!(
        le.as_bytes(),
        &[
            0xff, 0xaa, 0xb1, 0x66, 0x66, 0x66, 0x66, 0x9e, 0x4b, 0xd0, 0x58, 0xe1, 0x69, 0xf2,
            0x7a, 0xc3, 0x3f, 0x00
        ]
    );
    assert_eq!(source.pos(), 5);

    let mut source = BitStream::new(BitBuffer::from_padded_slice(&BYTES, 17, BigEndian));
    source.read_int::<u8>(5).unwrap();
    let mut be = BitWriteStream::new(Vec::new(), BigEndian);
    be.write_int(0x7fu8, 7).unwrap();
    be.write_bits(&source).unwrap();
    assert_eq!(be.bit_len(), 138);
    assert_eq!(
        be.as_bytes(),
        &[
            0xff, 0x5a, 0xab, 0x26, 0x66, 0x66, 0x66, 0x79, 0xc4, 0x8d, 0x15, 0x9e, 0x26, 0xaf,
            0x37, 0xbc, 0x03, 0xc0
        ]
    );
}

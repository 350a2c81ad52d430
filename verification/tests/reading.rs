use bitbuffer::{BigEndian, BitBuffer, BitStream, LittleEndian, ReadError};

const BYTES: [u8; 17] = [
    0xb5, 0x6a, 0xac, 0x99, 0x99, 0x99, 0x99, 0xe7, 0x12, 0x34, 0x56, 0x78, 0x9a, 0xbc, 0xde, 0xf0,
    0x0f,
];

fn padded() -> Vec<u8> {
    let mut bytes = BYTES.to_vec();
    bytes.extend_from_slice(&[0xff; 8]);
    bytes
}

#[test]
fn buffer_lengths() {
    let bytes = padded();
    let buffer = BitBuffer::from_padded_slice(&bytes, 17, LittleEndian);
    assert_eq!(buffer.byte_len(), 17);
    assert_eq!(buffer.bit_len(), 136);
    let short = BitBuffer::from_padded_slice(&bytes, 3, BigEndian);
    assert_eq!(short.byte_len(), 3);
    assert_eq!(short.bit_len(), 24);
    let empty = BitBuffer::from_padded_slice(&bytes, 0, BigEndian);
    assert_eq!(empty.bit_len(), 0);
}

#[test]
fn buffer_without_padding_reads_to_its_end() {
    let bytes = [0xb5u8, 0x6a];
    let le = BitBuffer::from_padded_slice(&bytes, 2, LittleEndian);
    assert_eq!(le.read_u16(0, 16), 0x6ab5);
    assert_eq!(le.read_u8(12, 4), 0x6);
    let be = BitBuffer::from_padded_slice(&bytes, 2, BigEndian);
    assert_eq!(be.read_u16(0, 16), 0xb56a);
    assert_eq!(be.read_u8(12, 4), 0xa);
}

#[test]
fn read_unsigned_little_endian() {
    let bytes = padded();
    let buffer = BitBuffer::from_padded_slice(&bytes, 17, LittleEndian);
    assert_eq!(buffer.read_u8(0, 4), 0x5);
    assert_eq!(buffer.read_u8(4, 4), 0xb);
    assert_eq!(buffer.read_u8(4, 8), 0xab);
    assert_eq!(buffer.read_u8(0, 8), 0xb5);
    assert_eq!(buffer.read_u8(6, 3), 2);
    assert_eq!(buffer.read_u16(3, 13), 0xd56);
    assert_eq!(buffer.read_u16(20, 16), 0x999a);
    assert_eq!(buffer.read_u32(9, 32), 0xccccd635);
    assert_eq!(buffer.read_u32(3, 31), 0x33358d56);
    assert_eq!(buffer.read_usize(3, 13), 0xd56);
    assert_eq!(buffer.read_usize(9, 32), 0xccccd635);
}

#[test]
fn read_unsigned_big_endian() {
    let bytes = padded();
    let buffer = BitBuffer::from_padded_slice(&bytes, 17, BigEndian);
    assert_eq!(buffer.read_u8(0, 4), 0xb);
    assert_eq!(buffer.read_u8(4, 4), 0x5);
    assert_eq!(buffer.read_u8(4, 8), 0x56);
    assert_eq!(buffer.read_u8(0, 8), 0xb5);
    assert_eq!(buffer.read_u8(6, 3), 2);
    assert_eq!(buffer.read_u16(3, 13), 0x156a);
    assert_eq!(buffer.read_u16(20, 16), 0xc999);
    assert_eq!(buffer.read_u32(9, 32), 0xd5593333);
    assert_eq!(buffer.read_u32(3, 31), 0x55aab266);
    assert_eq!(buffer.read_usize(3, 13), 0x156a);
    assert_eq!(buffer.read_usize(9, 32), 0xd5593333);
}

#[test]
fn read_whole_words_across_nine_bytes() {
    let bytes = padded();
    let le = BitBuffer::from_padded_slice(&bytes, 17, LittleEndian);
    assert_eq!(le.read_value(7, 64), 0x25cf3333333358d5);
    assert_eq!(le.read_value(1, 63), 0x73ccccccccd6355a);
    assert_eq!(le.read_value(0, 64), 0xe799999999ac6ab5);
    assert_eq!(le.read_value(64, 64), 0xf0debc9a78563412);
    let be = BitBuffer::from_padded_slice(&bytes, 17, BigEndian);
    assert_eq!(be.read_value(7, 64), 0xb5564cccccccf389);
    assert_eq!(be.read_value(1, 63), 0x356aac99999999e7);
    assert_eq!(be.read_value(0, 64), 0xb56aac99999999e7);
    assert_eq!(be.read_value(64, 64), 0x123456789abcdef0);
}

#[test]
fn read_wide_fields() {
    let bytes = padded();
    let le = BitBuffer::from_padded_slice(&bytes, 17, LittleEndian);
    assert_eq!(le.read_wide(3, 128), 0xfe1bd7934f0ac6825cf3333333358d56);
    assert_eq!(le.read_wide(0, 100), 0xa78563412e799999999ac6ab5);
    assert_eq!(le.read_wide(4, 8), 0xab);
    let be = BitBuffer::from_padded_slice(&bytes, 17, BigEndian);
    assert_eq!(be.read_wide(3, 128), 0xab5564cccccccf3891a2b3c4d5e6f780);
    assert_eq!(be.read_wide(0, 100), 0xb56aac99999999e7123456789);
    assert_eq!(be.read_wide(4, 8), 0x56);
}

#[test]
fn read_of_no_bits_is_zero() {
    let bytes = padded();
    let le = BitBuffer::from_padded_slice(&bytes, 17, LittleEndian);
    assert_eq!(le.read_u8(5, 0), 0);
    assert_eq!(le.read_i8(5, 0), 0);
    assert_eq!(le.read_value(136, 0), 0);
    let be = BitBuffer::from_padded_slice(&bytes, 17, BigEndian);
    assert_eq!(be.read_u32(5, 0), 0);
    assert_eq!(be.read_i32(136, 0), 0);
}

#[test]
fn read_signed_little_endian() {
    let bytes = padded();
    let buffer = BitBuffer::from_padded_slice(&bytes, 17, LittleEndian);
    assert_eq!(buffer.read_i8(0, 4), 5);
    assert_eq!(buffer.read_i8(4, 4), -5);
    assert_eq!(buffer.read_i8(0, 8), -75);
    assert_eq!(buffer.read_i16(4, 8), -85);
    assert_eq!(buffer.read_i16(3, 13), 3414);
    assert_eq!(buffer.read_i16(20, 16), -26214);
    assert_eq!(buffer.read_i32(9, 32), -858991051);
    assert_eq!(buffer.read_i32(3, 31), 859147606);
}

#[test]
fn read_signed_big_endian() {
    let bytes = padded();
    let buffer = BitBuffer::from_padded_slice(&bytes, 17, BigEndian);
    assert_eq!(buffer.read_i8(0, 4), -5);
    assert_eq!(buffer.read_i8(4, 4), 5);
    assert_eq!(buffer.read_i8(0, 8), -75);
    assert_eq!(buffer.read_i16(4, 8), 86);
    assert_eq!(buffer.read_i16(3, 13), -2710);
    assert_eq!(buffer.read_i16(20, 16), -13927);
    assert_eq!(buffer.read_i32(9, 32), -715574477);
    assert_eq!(buffer.read_i32(3, 31), -710233498);
}

#[test]
fn sign_extension_of_four_bits() {
    let ones = [0b0000_1111u8];
    let buffer = BitBuffer::from_padded_slice(&ones, 1, LittleEndian);
    assert_eq!(buffer.read_i8(0, 4), -1);
    assert_eq!(buffer.read_i16(0, 4), -1);
    assert_eq!(buffer.read_i32(0, 4), -1);
    let seven = [0b0000_0111u8];
    let buffer = BitBuffer::from_padded_slice(&seven, 1, LittleEndian);
    assert_eq!(buffer.read_i8(0, 4), 7);
    assert_eq!(buffer.read_i32(0, 4), 7);
    let ones = [0b1111_0000u8];
    let buffer = BitBuffer::from_padded_slice(&ones, 1, BigEndian);
    assert_eq!(buffer.read_i8(0, 4), -1);
    let seven = [0b0111_0000u8];
    let buffer = BitBuffer::from_padded_slice(&seven, 1, BigEndian);
    assert_eq!(buffer.read_i8(0, 4), 7);
    let mut stream = BitStream::new(BitBuffer::from_padded_slice(&ones, 1, BigEndian));
    assert_eq!(stream.read_int::<i64>(4), Ok(-1));
    let mut stream = BitStream::new(BitBuffer::from_padded_slice(&seven, 1, BigEndian));
    assert_eq!(stream.read_int::<i128>(4), Ok(7));
}

#[test]
fn stream_positions() {
    let bytes = padded();
    let mut stream = BitStream::new(BitBuffer::from_padded_slice(&bytes, 17, LittleEndian));
    assert_eq!(stream.bit_len(), 136);
    assert_eq!(stream.pos(), 0);
    assert_eq!(stream.bits_left(), 136);
    assert_eq!(stream.read_int::<u8>(4), Ok(0x5));
    assert_eq!(stream.pos(), 4);
    assert_eq!(stream.bits_left(), 132);
    assert_eq!(stream.read_int::<u16>(8), Ok(0xab));
    assert_eq!(stream.pos(), 12);
    assert_eq!(stream.read_value(8), 0xc6);
    assert_eq!(stream.pos(), 20);
    assert_eq!(stream.read_int::<u32>(0), Ok(0));
    assert_eq!(stream.pos(), 20);
}

#[test]
fn stream_reads_every_width() {
    let bytes = padded();
    let mut le = BitStream::new(BitBuffer::from_padded_slice(&bytes, 17, LittleEndian));
    assert_eq!(le.read::<u8>(), Ok(0xb5));
    assert_eq!(le.read::<i8>(), Ok(0x6a));
    assert_eq!(le.read::<u16>(), Ok(0x99ac));
    assert_eq!(le.read::<i32>(), Ok(0xe7999999u32 as i32));
    assert_eq!(le.read::<u64>(), Ok(0xf0debc9a78563412));
    assert_eq!(le.read::<u8>(), Ok(0x0f));
    assert_eq!(le.bits_left(), 0);
    let mut be = BitStream::new(BitBuffer::from_padded_slice(&bytes, 17, BigEndian));
    assert_eq!(be.read::<u8>(), Ok(0xb5));
    assert_eq!(be.read::<i8>(), Ok(0x6a));
    assert_eq!(be.read::<u16>(), Ok(0xac99));
    assert_eq!(be.read::<i32>(), Ok(0x999999e7u32 as i32));
    assert_eq!(be.read::<i64>(), Ok(0x123456789abcdef0));
    assert_eq!(be.read::<u8>(), Ok(0x0f));
    assert_eq!(be.bits_left(), 0);
}

#[test]
fn stream_reads_wide_integers() {
    let bytes = padded();
    let mut le = BitStream::new(BitBuffer::from_padded_slice(&bytes, 17, LittleEndian));
    assert_eq!(le.read_int::<u8>(3), Ok(5));
    assert_eq!(le.read::<u128>(), Ok(0xfe1bd7934f0ac6825cf3333333358d56));
    let mut le = BitStream::new(BitBuffer::from_padded_slice(&bytes, 17, LittleEndian));
    assert_eq!(le.read_int::<u8>(3), Ok(5));
    assert_eq!(le.read::<i128>(), Ok(-2513891587322374226418017950860210858));
    let mut le = BitStream::new(BitBuffer::from_padded_slice(&bytes, 17, LittleEndian));
    assert_eq!(le.read_int::<u8>(7), Ok(0x35));
    assert_eq!(le.read_sized::<i128>(100), Ok(-538212960724212018739841640235));
    let mut be = BitStream::new(BitBuffer::from_padded_slice(&bytes, 17, BigEndian));
    assert_eq!(be.read_int::<u8>(3), Ok(5));
    assert_eq!(be.read::<i128>(), Ok(-112540989941854329327301695872251267200));
    let mut be = BitStream::new(BitBuffer::from_padded_slice(&bytes, 17, BigEndian));
    assert_eq!(be.read_int::<u8>(7), Ok(0x5a));
    assert_eq!(be.read_sized::<i128>(100), Ok(-369712727013889521062203112235));
    let mut be = BitStream::new(BitBuffer::from_padded_slice(&bytes, 17, BigEndian));
    assert_eq!(be.read_sized::<u128>(100), Ok(0xb56aac99999999e7123456789));
}

#[test]
fn stream_reads_signed_fields() {
    let bytes = padded();
    let mut le = BitStream::new(BitBuffer::from_padded_slice(&bytes, 17, LittleEndian));
    assert_eq!(le.read_int::<i8>(4), Ok(5));
    assert_eq!(le.read_int::<i16>(4), Ok(-5));
    assert_eq!(le.read_sized::<i64>(12), Ok(-918));
    let mut le = BitStream::new(BitBuffer::from_padded_slice(&bytes, 17, LittleEndian));
    assert_eq!(le.read_int::<i64>(64), Ok(-1758205294524208459));
    let mut le = BitStream::new(BitBuffer::from_padded_slice(&bytes, 17, LittleEndian));
    assert_eq!(le.read_int::<u8>(1), Ok(1));
    assert_eq!(le.read_int::<i64>(63), Ok(-879102647262104230));
    let mut be = BitStream::new(BitBuffer::from_padded_slice(&bytes, 17, BigEndian));
    assert_eq!(be.read_int::<i8>(4), Ok(-5));
    assert_eq!(be.read_int::<i16>(4), Ok(5));
    let mut be = BitStream::new(BitBuffer::from_padded_slice(&bytes, 17, BigEndian));
    assert_eq!(be.read_int::<u8>(7), Ok(0x5a));
    assert_eq!(be.read_int::<i64>(64), Ok(-5380028262354455671));
}

#[test]
fn too_many_bits_for_the_type() {
    let bytes = padded();
    let mut stream = BitStream::new(BitBuffer::from_padded_slice(&bytes, 17, LittleEndian));
    assert_eq!(
        stream.read_int::<u32>(40),
        Err(ReadError::TooManyBits { requested: 40, max: 32 })
    );
    assert_eq!(stream.pos(), 0);
    assert_eq!(
        stream.read_int::<i8>(9),
        Err(ReadError::TooManyBits { requested: 9, max: 8 })
    );
    assert_eq!(
        stream.read_sized::<u128>(129),
        Err(ReadError::TooManyBits { requested: 129, max: 128 })
    );
    assert_eq!(stream.pos(), 0);
}

#[test]
fn not_enough_data_left() {
    let bytes = [0xffu8, 0x0f];
    let mut stream = BitStream::new(BitBuffer::from_padded_slice(&bytes, 2, LittleEndian));
    assert_eq!(stream.read_int::<u16>(12), Ok(0xfff));
    assert_eq!(
        stream.read_int::<u16>(10),
        Err(ReadError::NotEnoughData { requested: 10, bits_left: 4 })
    );
    assert_eq!(stream.pos(), 12);
    assert_eq!(stream.read_int::<u8>(4), Ok(0));
    assert_eq!(
        stream.read_bool(),
        Err(ReadError::NotEnoughData { requested: 1, bits_left: 0 })
    );
    assert_eq!(
        stream.read::<u8>(),
        Err(ReadError::NotEnoughData { requested: 8, bits_left: 0 })
    );
}

#[test]
fn width_is_checked_before_data() {
    let bytes = [0xffu8];
    let mut stream = BitStream::new(BitBuffer::from_padded_slice(&bytes, 1, BigEndian));
    assert_eq!(
        stream.read_int::<u8>(9),
        Err(ReadError::TooManyBits { requested: 9, max: 8 })
    );
}

#[test]
fn read_booleans() {
    let bytes = [0b0000_1101u8];
    let mut le = BitStream::new(BitBuffer::from_padded_slice(&bytes, 1, LittleEndian));
    assert_eq!(le.read_bool(), Ok(true));
    assert_eq!(le.read_bool(), Ok(false));
    assert_eq!(le.read::<bool>(), Ok(true));
    assert_eq!(le.read::<bool>(), Ok(true));
    assert_eq!(le.read_bool(), Ok(false));
    assert_eq!(le.pos(), 5);
    let mut be = BitStream::new(BitBuffer::from_padded_slice(&bytes, 1, BigEndian));
    assert_eq!(be.read_bool(), Ok(false));
    assert_eq!(be.read_int::<u8>(3), Ok(0));
    assert_eq!(be.read_bool(), Ok(true));
    assert_eq!(be.read_bool(), Ok(true));
    assert_eq!(be.read_bool(), Ok(false));
    assert_eq!(be.read_bool(), Ok(true));
}

#[test]
fn read_zero_terminated_string() {
    let bytes = [b'h', b'i', 0, b'y', b'o', 0, 0xff];
    let mut stream = BitStream::new(BitBuffer::from_padded_slice(&bytes, 7, LittleEndian));
    assert_eq!(stream.read_string(None), Ok("hi".to_string()));
    assert_eq!(stream.pos(), 24);
    assert_eq!(stream.read::<String>(), Ok("yo".to_string()));
    assert_eq!(stream.pos(), 48);
    assert_eq!(stream.read_string(None), Err(ReadError::InvalidText));
    assert_eq!(stream.pos(), 56);
    assert_eq!(stream.read_string(None), Ok(String::new()));
}

#[test]
fn read_string_that_ends_with_the_stream() {
    let bytes = [b'a', b'b', b'c'];
    let mut stream = BitStream::new(BitBuffer::from_padded_slice(&bytes, 3, BigEndian));
    assert_eq!(stream.read_string(None), Ok("abc".to_string()));
    assert_eq!(stream.bits_left(), 0);
}

#[test]
fn read_string_with_bits_left_over() {
    let bytes = [0x61u8 << 1 | 1, 0x62 << 1, 0x00];
    let mut stream = BitStream::new(BitBuffer::from_padded_slice(&bytes, 3, BigEndian));
    assert_eq!(stream.read_int::<u8>(7), Ok(0x61));
    assert_eq!(stream.read_int::<u8>(3), Ok(0b111));
    assert_eq!(
        stream.read_string(None),
        Err(ReadError::NotEnoughData { requested: 8, bits_left: 6 })
    );
    assert_eq!(stream.pos(), 18);
}

#[test]
fn read_unaligned_string() {
    // One set bit, then "hi" and a zero byte.
    let le = [0xd1u8, 0xd2, 0x00, 0x00];
    let mut stream = BitStream::new(BitBuffer::from_padded_slice(&le, 4, LittleEndian));
    assert_eq!(stream.read_bool(), Ok(true));
    assert_eq!(stream.read_string(None), Ok("hi".to_string()));
    assert_eq!(stream.pos(), 25);
    let be = [0xb4u8, 0x34, 0x80, 0x00];
    let mut stream = BitStream::new(BitBuffer::from_padded_slice(&be, 4, BigEndian));
    assert_eq!(stream.read_bool(), Ok(true));
    assert_eq!(stream.read_string(None), Ok("hi".to_string()));
    assert_eq!(stream.pos(), 25);
}

#[test]
fn read_fixed_length_string() {
    let bytes = [b'h', b'i', 0, 0, 0, b'x', b'y', b'z'];
    let mut stream = BitStream::new(BitBuffer::from_padded_slice(&bytes, 8, LittleEndian));
    assert_eq!(stream.read_string(Some(5)), Ok("hi".to_string()));
    assert_eq!(stream.pos(), 40);
    assert_eq!(stream.read_sized::<String>(2), Ok("xy".to_string()));
    assert_eq!(stream.pos(), 56);
    assert_eq!(stream.read_string(Some(0)), Ok(String::new()));
    assert_eq!(
        stream.read_string(Some(2)),
        Err(ReadError::NotEnoughData { requested: 16, bits_left: 8 })
    );
    assert_eq!(stream.pos(), 56);
    assert_eq!(
        stream.read_string(Some(usize::MAX)),
        Err(ReadError::NotEnoughData { requested: usize::MAX, bits_left: 8 })
    );
    assert_eq!(stream.read_string(Some(1)), Ok("z".to_string()));
}

#[test]
fn read_text_that_is_not_utf8() {
    let bytes = [0xc3u8, 0x28, 0, b'o', b'k'];
    let mut stream = BitStream::new(BitBuffer::from_padded_slice(&bytes, 5, LittleEndian));
    assert_eq!(stream.read_string(Some(3)), Err(ReadError::InvalidText));
    assert_eq!(stream.pos(), 24);
    assert_eq!(stream.read_string(Some(2)), Ok("ok".to_string()));
    let text = "g\u{e9}";
    let mut stream = BitStream::new(BitBuffer::from_padded_slice(text.as_bytes(), 3, BigEndian));
    assert_eq!(stream.read_string(None), Ok(text.to_string()));
}

#[test]
fn read_optional_values() {
    let bytes = [0b0101_0111u8, 0b0000_0010];
    let mut stream = BitStream::new(BitBuffer::from_padded_slice(&bytes, 2, LittleEndian));
    assert_eq!(stream.read::<Option<u8>>(), Ok(Some(0b0010_1011)));
    assert_eq!(stream.pos(), 9);
    assert_eq!(
        stream.read::<Option<u8>>(),
        Err(ReadError::NotEnoughData { requested: 8, bits_left: 6 })
    );
    assert_eq!(stream.pos(), 10);
    let mut stream = BitStream::new(BitBuffer::from_padded_slice(&bytes, 2, BigEndian));
    assert_eq!(stream.read::<Option<u8>>(), Ok(None));
    assert_eq!(stream.pos(), 1);
    assert_eq!(stream.read::<Option<bool>>(), Ok(Some(false)));
    assert_eq!(stream.pos(), 3);
    assert_eq!(
        stream.read::<Option<u16>>(),
        Err(ReadError::NotEnoughData { requested: 16, bits_left: 12 })
    );
    assert_eq!(stream.pos(), 4);
}

#[test]
fn read_vectors() {
    let bytes = padded();
    let mut stream = BitStream::new(BitBuffer::from_padded_slice(&bytes, 17, LittleEndian));
    assert_eq!(stream.read_sized::<Vec<u8>>(3), Ok(vec![0xb5, 0x6a, 0xac]));
    assert_eq!(stream.pos(), 24);
    assert_eq!(stream.read_sized::<Vec<u16>>(2), Ok(vec![0x9999, 0x9999]));
    assert_eq!(stream.read_sized::<Vec<bool>>(0), Ok(vec![]));
    assert_eq!(stream.pos(), 56);
    assert_eq!(
        stream.read_sized::<Vec<u32>>(3),
        Err(ReadError::NotEnoughData { requested: 32, bits_left: 16 })
    );
    assert_eq!(stream.pos(), 120);
    let mut stream = BitStream::new(BitBuffer::from_padded_slice(&bytes, 1, BigEndian));
    assert_eq!(
        stream.read_sized::<Vec<bool>>(8),
        Ok(vec![true, false, true, true, false, true, false, true])
    );
}

#[test]
fn read_part_of_a_stream() {
    let bytes = padded();
    let mut stream = BitStream::new(BitBuffer::from_padded_slice(&bytes, 17, LittleEndian));
    assert_eq!(stream.read_int::<u8>(4), Ok(5));
    let mut part = stream.read_bits(12).unwrap();
    assert_eq!(stream.pos(), 16);
    assert_eq!(part.pos(), 0);
    assert_eq!(part.bit_len(), 12);
    assert_eq!(part.read_int::<u8>(8), Ok(0xab));
    assert_eq!(
        part.read_int::<u8>(8),
        Err(ReadError::NotEnoughData { requested: 8, bits_left: 4 })
    );
    assert_eq!(part.read_int::<u8>(4), Ok(0x6));
    assert_eq!(stream.read::<u8>(), Ok(0xac));
    assert!(matches!(
        stream.read_bits(113),
        Err(ReadError::NotEnoughData { requested: 113, bits_left: 112 })
    ));
    assert_eq!(stream.pos(), 24);
    let all = stream.read_bits(112).unwrap();
    assert_eq!(all.bits_left(), 112);
    assert_eq!(stream.bits_left(), 0);
}

#[test]
fn clones_advance_apart() {
    let bytes = padded();
    let mut stream = BitStream::new(BitBuffer::from_padded_slice(&bytes, 17, BigEndian));
    assert_eq!(stream.read::<u8>(), Ok(0xb5));
    let mut copy = stream.clone();
    assert_eq!(copy.pos(), 8);
    assert_eq!(copy.read::<u16>(), Ok(0x6aac));
    assert_eq!(stream.pos(), 8);
    assert_eq!(stream.read::<u8>(), Ok(0x6a));
    assert_eq!(copy.pos(), 24);
}

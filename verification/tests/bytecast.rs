use spill_ring::bytecast::endian::{read_le, write_le};
use spill_ring::bytecast::varint::{read_varint, varint_len, write_varint};
use spill_ring::bytecast::{ByteSerializer, BytesError, FromBytes, ToBytes};


#[test]
fn test_byte_serializer_new() {
    let _serializer = ByteSerializer::new();
    let _default = ByteSerializer;
}

#[test]
fn test_byte_serializer_roundtrip_u32() {
    let serializer = ByteSerializer::new();
    let value = 0x12345678u32;

    let bytes = serializer.serialize(&value).unwrap();
    assert_eq!(bytes.len(), 4);

    let result: u32 = serializer.deserialize(&bytes).unwrap();
    assert_eq!(result, value);
}

#[test]
fn test_byte_serializer_roundtrip_u64() {
    let serializer = ByteSerializer::new();
    let value = 0x123456789ABCDEF0u64;

    let bytes = serializer.serialize(&value).unwrap();
    assert_eq!(bytes.len(), 8);

    let result: u64 = serializer.deserialize(&bytes).unwrap();
    assert_eq!(result, value);
}

#[test]
fn test_byte_serializer_roundtrip_bool() {
    let serializer = ByteSerializer::new();

    let bytes_true = serializer.serialize(&true).unwrap();
    let bytes_false = serializer.serialize(&false).unwrap();

    assert_eq!(serializer.deserialize::<bool>(&bytes_true).unwrap(), true);
    assert_eq!(serializer.deserialize::<bool>(&bytes_false).unwrap(), false);
}

#[test]
fn test_vec_u8_roundtrip() {
    let original: Vec<u8> = vec![1, 2, 3, 4, 5];
    let mut buf = [0u8; 64];

    let written = original.to_bytes(&mut buf).unwrap();
    assert_eq!(written, 1 + 5); // 1 byte var_int length + 5 bytes data

    let (decoded, consumed) = Vec::<u8>::from_bytes(&buf).unwrap();
    assert_eq!(decoded, original);
    assert_eq!(consumed, written);
}

#[test]
fn test_vec_u32_roundtrip() {
    let original: Vec<u32> = vec![100, 200, 300];
    let mut buf = [0u8; 64];

    let written = original.to_bytes(&mut buf).unwrap();
    assert_eq!(written, 1 + 12); // 1 byte var_int length + 3*4 bytes data

    let (decoded, consumed) = Vec::<u32>::from_bytes(&buf).unwrap();
    assert_eq!(decoded, original);
    assert_eq!(consumed, written);
}

#[test]
fn test_vec_empty() {
    let original: Vec<u8> = vec![];
    let mut buf = [0u8; 64];

    let written = original.to_bytes(&mut buf).unwrap();
    assert_eq!(written, 1); // just the length prefix

    let (decoded, consumed) = Vec::<u8>::from_bytes(&buf).unwrap();
    assert_eq!(decoded, original);
    assert_eq!(consumed, written);
}

#[test]
fn test_vec_large_length_prefix() {
    // 128 elements requires 2-byte var_int
    let original: Vec<u8> = vec![0u8; 128];
    let mut buf = [0u8; 256];

    let written = original.to_bytes(&mut buf).unwrap();
    assert_eq!(written, 2 + 128); // 2 byte var_int length + 128 bytes data

    let (decoded, consumed) = Vec::<u8>::from_bytes(&buf).unwrap();
    assert_eq!(decoded, original);
    assert_eq!(consumed, written);
}

#[test]
fn test_string_roundtrip() {
    let original = String::from("hello world");
    let mut buf = [0u8; 64];

    let written = original.to_bytes(&mut buf).unwrap();
    assert_eq!(written, 1 + 11); // 1 byte var_int length + 11 bytes

    let (decoded, consumed) = String::from_bytes(&buf).unwrap();
    assert_eq!(decoded, original);
    assert_eq!(consumed, written);
}

#[test]
fn test_string_empty() {
    let original = String::new();
    let mut buf = [0u8; 64];

    let written = original.to_bytes(&mut buf).unwrap();
    assert_eq!(written, 1); // just the length prefix

    let (decoded, consumed) = String::from_bytes(&buf).unwrap();
    assert_eq!(decoded, original);
    assert_eq!(consumed, written);
}

#[test]
fn test_string_unicode() {
    let original = String::from("hÃ©llo ä¸–ç•Œ ðŸ¦€");
    let mut buf = [0u8; 64];

    let written = original.to_bytes(&mut buf).unwrap();

    let (decoded, consumed) = String::from_bytes(&buf).unwrap();
    assert_eq!(decoded, original);
    assert_eq!(consumed, written);
}

#[test]
fn varint_takes_one_byte_below_128() {
    let mut buf = [0xAAu8; 4];
    assert_eq!(write_varint(&mut buf, 0), Ok(1));
    assert_eq!(buf, [0, 0xAA, 0xAA, 0xAA]);
    assert_eq!(write_varint(&mut buf, 127), Ok(1));
    assert_eq!(buf, [127, 0xAA, 0xAA, 0xAA]);
    assert_eq!(read_varint(&buf), Ok((127, 1)));
    assert_eq!(varint_len(0), 1);
    assert_eq!(varint_len(127), 1);
}

#[test]
fn varint_sets_the_top_bit_of_all_but_the_last_byte() {
    let mut buf = [0u8; 4];
    assert_eq!(write_varint(&mut buf, 128), Ok(2));
    assert_eq!(buf, [0x80, 0x01, 0, 0]);
    assert_eq!(write_varint(&mut buf, 300), Ok(2));
    assert_eq!(buf, [0xAC, 0x02, 0, 0]);
    assert_eq!(read_varint(&buf), Ok((300, 2)));
    assert_eq!(write_varint(&mut buf, 16384), Ok(3));
    assert_eq!(buf, [0x80, 0x80, 0x01, 0]);
    assert_eq!(varint_len(16383), 2);
    assert_eq!(varint_len(16384), 3);
}

#[test]
fn varint_holds_every_number_of_64_bits() {
    let mut buf = [0u8; 10];
    assert_eq!(varint_len(u64::MAX), 10);
    assert_eq!(write_varint(&mut buf, u64::MAX), Ok(10));
    assert_eq!(buf, [0xFF, 0xFF, 0xFF, 0xFF, 0xFF, 0xFF, 0xFF, 0xFF, 0xFF, 0x01]);
    assert_eq!(read_varint(&buf), Ok((u64::MAX, 10)));
    for n in [1u64, 129, 1 << 14, (1 << 21) - 1, 1 << 35, 1 << 63, u64::MAX - 1] {
        let len = write_varint(&mut buf, n).unwrap();
        assert_eq!(len, varint_len(n));
        assert_eq!(read_varint(&buf[..len]), Ok((n, len)));
    }
}

#[test]
fn varint_is_refused_when_it_does_not_fit() {
    let mut buf = [7u8; 1];
    assert_eq!(write_varint(&mut buf, 128), Err(BytesError::BufferTooSmall));
    assert_eq!(buf, [7]);
    let mut none: [u8; 0] = [];
    assert_eq!(write_varint(&mut none, 0), Err(BytesError::BufferTooSmall));
}

#[test]
fn varint_that_ends_early_is_unexpected_eof() {
    assert_eq!(read_varint(&[]), Err(BytesError::UnexpectedEof));
    assert_eq!(read_varint(&[0x80]), Err(BytesError::UnexpectedEof));
    assert_eq!(read_varint(&[0xFF, 0xFF]), Err(BytesError::UnexpectedEof));
}

#[test]
fn varint_that_is_too_long_or_too_large_is_invalid() {
    assert_eq!(read_varint(&[0x80, 0x00]), Err(BytesError::InvalidData));
    assert_eq!(read_varint(&[0xFF, 0x80, 0x00]), Err(BytesError::InvalidData));
    let eleven = [0x80u8, 0x80, 0x80, 0x80, 0x80, 0x80, 0x80, 0x80, 0x80, 0x80, 0x01];
    assert_eq!(read_varint(&eleven), Err(BytesError::InvalidData));
    let large = [0xFFu8, 0xFF, 0xFF, 0xFF, 0xFF, 0xFF, 0xFF, 0xFF, 0xFF, 0x02];
    assert_eq!(read_varint(&large), Err(BytesError::InvalidData));
}

#[test]
fn integers_are_little_endian() {
    let mut buf = [0xEEu8; 10];
    assert_eq!(0x12345678u32.to_bytes(&mut buf), Ok(4));
    assert_eq!(buf, [0x78, 0x56, 0x34, 0x12, 0xEE, 0xEE, 0xEE, 0xEE, 0xEE, 0xEE]);
    assert_eq!(u32::from_bytes(&buf), Ok((0x12345678, 4)));
    assert_eq!(0x0102030405060708u64.to_bytes(&mut buf), Ok(8));
    assert_eq!(buf, [8, 7, 6, 5, 4, 3, 2, 1, 0xEE, 0xEE]);
    assert_eq!(u64::from_bytes(&buf), Ok((0x0102030405060708, 8)));
    assert_eq!(write_le(&mut buf, 0x0A0B0C, 3), Ok(3));
    assert_eq!(&buf[..4], &[0x0C, 0x0B, 0x0A, 5]);
    assert_eq!(read_le(&buf, 3), Ok(0x0A0B0C));
    assert_eq!(read_le(&buf, 0), Ok(0));
    assert_eq!(write_le(&mut buf, 0x1FF, 1), Ok(1));
    assert_eq!(buf[0], 0xFF);
    assert_eq!(u32::MAX.byte_len(), Some(4));
    assert_eq!(u64::MAX.byte_len(), Some(8));
    assert_eq!(u64::from_bytes(&[0xFF; 8]), Ok((u64::MAX, 8)));
}

#[test]
fn integers_need_all_their_bytes() {
    let mut small = [9u8; 3];
    assert_eq!(1u32.to_bytes(&mut small), Err(BytesError::BufferTooSmall));
    assert_eq!(small, [9, 9, 9]);
    assert_eq!(1u64.to_bytes(&mut small), Err(BytesError::BufferTooSmall));
    assert_eq!(u32::from_bytes(&small), Err(BytesError::UnexpectedEof));
    assert_eq!(u64::from_bytes(&[0u8; 7]), Err(BytesError::UnexpectedEof));
    assert_eq!(read_le(&small, 4), Err(BytesError::UnexpectedEof));
    assert_eq!(write_le(&mut small, 1, 4), Err(BytesError::BufferTooSmall));
}

#[test]
fn bool_is_one_byte_that_is_zero_or_one() {
    let mut buf = [5u8; 2];
    assert_eq!(true.to_bytes(&mut buf), Ok(1));
    assert_eq!(buf, [1, 5]);
    assert_eq!(false.to_bytes(&mut buf), Ok(1));
    assert_eq!(buf, [0, 5]);
    assert_eq!(bool::from_bytes(&[1, 9]), Ok((true, 1)));
    assert_eq!(bool::from_bytes(&[0]), Ok((false, 1)));
    assert_eq!(bool::from_bytes(&[2]), Err(BytesError::InvalidData));
    assert_eq!(bool::from_bytes(&[]), Err(BytesError::UnexpectedEof));
    let mut none: [u8; 0] = [];
    assert_eq!(true.to_bytes(&mut none), Err(BytesError::BufferTooSmall));
    assert_eq!(true.byte_len(), Some(1));
}

#[test]
fn byte_is_itself() {
    let mut buf = [0u8; 2];
    assert_eq!(0xABu8.to_bytes(&mut buf), Ok(1));
    assert_eq!(buf, [0xAB, 0]);
    assert_eq!(u8::from_bytes(&buf), Ok((0xAB, 1)));
    assert_eq!(u8::from_bytes(&[]), Err(BytesError::UnexpectedEof));
    let mut none: [u8; 0] = [];
    assert_eq!(1u8.to_bytes(&mut none), Err(BytesError::BufferTooSmall));
}

#[test]
fn vector_is_its_length_then_its_items() {
    let original: Vec<u32> = vec![100, 200, 300];
    let mut buf = [0xEEu8; 16];
    assert_eq!(original.byte_len(), Some(13));
    assert_eq!(original.to_bytes(&mut buf), Ok(13));
    assert_eq!(
        buf,
        [3, 100, 0, 0, 0, 200, 0, 0, 0, 0x2C, 1, 0, 0, 0xEE, 0xEE, 0xEE]
    );
    let nested: Vec<Vec<u8>> = vec![vec![1, 2], vec![], vec![3]];
    assert_eq!(nested.to_bytes(&mut buf), Ok(7));
    assert_eq!(&buf[..7], &[3, 2, 1, 2, 0, 1, 3]);
    assert_eq!(Vec::<Vec<u8>>::from_bytes(&buf[..7]), Ok((nested, 7)));
}

#[test]
fn vector_that_does_not_fit_leaves_the_buffer_alone() {
    let original: Vec<u32> = vec![1, 2, 3];
    let mut buf = [0xEEu8; 12];
    assert_eq!(original.to_bytes(&mut buf), Err(BytesError::BufferTooSmall));
    assert_eq!(buf, [0xEE; 12]);
}

#[test]
fn vector_that_ends_early_is_unexpected_eof() {
    assert_eq!(Vec::<u32>::from_bytes(&[2, 1, 0, 0, 0, 2, 0]), Err(BytesError::UnexpectedEof));
    assert_eq!(Vec::<u8>::from_bytes(&[3, 1, 2]), Err(BytesError::UnexpectedEof));
    assert_eq!(Vec::<u8>::from_bytes(&[]), Err(BytesError::UnexpectedEof));
    assert_eq!(Vec::<bool>::from_bytes(&[2, 1, 7]), Err(BytesError::InvalidData));
    assert_eq!(Vec::<u8>::from_bytes(&[0x80, 0x00]), Err(BytesError::InvalidData));
    assert_eq!(Vec::<bool>::from_bytes(&[2, 1, 0, 9]), Ok((vec![true, false], 3)));
}

#[test]
fn string_is_its_length_in_bytes_then_its_utf8() {
    let original = String::from("h\u{e9}");
    let mut buf = [0u8; 8];
    assert_eq!(original.byte_len(), Some(4));
    assert_eq!(original.to_bytes(&mut buf), Ok(4));
    assert_eq!(&buf[..5], &[3, b'h', 0xC3, 0xA9, 0]);
    assert_eq!(String::from_bytes(&buf), Ok((original, 4)));
}

#[test]
fn string_that_is_not_utf8_is_invalid() {
    assert_eq!(String::from_bytes(&[2, 0xC3, 0x28]), Err(BytesError::InvalidData));
    assert_eq!(String::from_bytes(&[1, 0x80]), Err(BytesError::InvalidData));
    assert_eq!(String::from_bytes(&[3, b'a', b'b']), Err(BytesError::UnexpectedEof));
    assert_eq!(String::from_bytes(&[]), Err(BytesError::UnexpectedEof));
    let mut small = [0u8; 3];
    assert_eq!(String::from("abc").to_bytes(&mut small), Err(BytesError::BufferTooSmall));
    assert_eq!(small, [0, 0, 0]);
}

#[test]
fn serializer_gives_exactly_the_encoding() {
    let serializer = ByteSerializer::new();
    assert_eq!(serializer.serialize(&0x01020304u32), Ok(vec![4, 3, 2, 1]));
    assert_eq!(serializer.serialize(&vec![7u8, 8]), Ok(vec![2, 7, 8]));
    assert_eq!(serializer.serialize(&String::from("ok")), Ok(vec![2, b'o', b'k']));
    assert_eq!(serializer.deserialize::<String>(&[2, b'o', b'k', 0xFF]), Ok(String::from("ok")));
    assert_eq!(serializer.deserialize::<u32>(&[1, 2]), Err(BytesError::UnexpectedEof));
    assert_eq!(serializer.deserialize::<bool>(&[3]), Err(BytesError::InvalidData));
}

#[test]
fn what_is_written_is_read_back() {
    let serializer = ByteSerializer::new();
    let values: Vec<Vec<u64>> = vec![vec![], vec![0], vec![u64::MAX, 1, 2], (0..200).collect()];
    for value in values {
        let bytes = serializer.serialize(&value).unwrap();
        assert_eq!(Some(bytes.len()), value.byte_len());
        let mut longer = bytes.clone();
        longer.extend_from_slice(&[0xFF, 0xFF]);
        assert_eq!(Vec::<u64>::from_bytes(&longer), Ok((value, bytes.len())));
    }
}

use gbnet::serialize::bit_io::{BitBuffer, BitError, BitRead, BitWrite};
use gbnet::serialize::byte_aligned::{ByteAlignedDeserialize, ByteAlignedSerialize, ByteReader};
use gbnet::serialize::{BitDeserialize, BitSerialize};

fn roundtrip<T: BitSerialize + BitDeserialize>(value: &T) -> Result<T, BitError> {
    let mut bit_buffer = BitBuffer::new();
    value.bit_serialize(&mut bit_buffer)?;
    let bit_data = bit_buffer.into_bytes(false)?;
    let mut bit_buffer = BitBuffer::from_bytes(bit_data);
    T::bit_deserialize(&mut bit_buffer)
}

#[derive(Debug, PartialEq)]
struct TestStruct {
    field: u8,
}

#[test]
fn test_macro_works() {
    let _ = TestStruct { field: 42 };
}

#[derive(Debug, PartialEq)]
struct TestPacket {
    id: u8,
    active: bool,
}

#[test]
fn test_basic_serialization() -> Result<(), BitError> {
    let packet = TestPacket { id: 42, active: true };

    let mut buffer = BitBuffer::new();
    buffer.write_bits(packet.id as u64, 6)?;
    buffer.write_bit(packet.active)?;

    let bytes = buffer.into_bytes(false)?;
    let mut buffer = BitBuffer::from_bytes(bytes);
    let deserialized = TestPacket { id: buffer.read_bits(6)? as u8, active: buffer.read_bit()? };

    assert_eq!(packet, deserialized);
    Ok(())
}

#[test]
fn test_primitive_types() -> Result<(), BitError> {
    let test_u8: u8 = 255;
    let test_u16: u16 = 65535;
    let test_u32: u32 = 0xDEADBEEF;
    let test_bool = true;
    let test_f32: f32 = 3.14159;

    let mut buffer = BitBuffer::new();
    test_u8.bit_serialize(&mut buffer)?;
    let bytes = buffer.into_bytes(false)?;
    let mut buffer = BitBuffer::from_bytes(bytes);
    assert_eq!(u8::bit_deserialize(&mut buffer)?, test_u8);

    let mut buffer = BitBuffer::new();
    test_u16.bit_serialize(&mut buffer)?;
    let bytes = buffer.into_bytes(false)?;
    let mut buffer = BitBuffer::from_bytes(bytes);
    assert_eq!(u16::bit_deserialize(&mut buffer)?, test_u16);

    let mut buffer = BitBuffer::new();
    test_u32.bit_serialize(&mut buffer)?;
    let bytes = buffer.into_bytes(false)?;
    let mut buffer = BitBuffer::from_bytes(bytes);
    assert_eq!(u32::bit_deserialize(&mut buffer)?, test_u32);

    let mut buffer = BitBuffer::new();
    test_bool.bit_serialize(&mut buffer)?;
    let bytes = buffer.into_bytes(false)?;
    let mut buffer = BitBuffer::from_bytes(bytes);
    assert_eq!(bool::bit_deserialize(&mut buffer)?, test_bool);

    // A float travels as the 32 bits of its IEEE 754 representation.
    let mut buffer = BitBuffer::new();
    test_f32.to_bits().bit_serialize(&mut buffer)?;
    let bytes = buffer.into_bytes(false)?;
    let mut buffer = BitBuffer::from_bytes(bytes);
    assert_eq!(f32::from_bits(u32::bit_deserialize(&mut buffer)?), test_f32);

    Ok(())
}

#[test]
fn test_collections() -> Result<(), BitError> {
    let test_vec = vec![1u8, 2, 3, 4, 5];
    let mut buffer = BitBuffer::new();
    test_vec.bit_serialize(&mut buffer)?;
    let bytes = buffer.into_bytes(false)?;
    let mut buffer = BitBuffer::from_bytes(bytes);
    assert_eq!(Vec::<u8>::bit_deserialize(&mut buffer)?, test_vec);

    let test_string = "Hello, GBNet!".to_string();
    let mut buffer = BitBuffer::new();
    test_string.bit_serialize(&mut buffer)?;
    let bytes = buffer.into_bytes(false)?;
    let mut buffer = BitBuffer::from_bytes(bytes);
    assert_eq!(String::bit_deserialize(&mut buffer)?, test_string);

    let test_array: [u32; 4] = [10, 20, 30, 40];
    let mut buffer = BitBuffer::new();
    test_array.bit_serialize(&mut buffer)?;
    let bytes = buffer.into_bytes(false)?;
    let mut buffer = BitBuffer::from_bytes(bytes);
    assert_eq!(<[u32; 4]>::bit_deserialize(&mut buffer)?, test_array);

    let test_some: Option<u16> = Some(12345);
    let test_none: Option<u16> = None;

    let mut buffer = BitBuffer::new();
    test_some.bit_serialize(&mut buffer)?;
    let bytes = buffer.into_bytes(false)?;
    let mut buffer = BitBuffer::from_bytes(bytes);
    assert_eq!(Option::<u16>::bit_deserialize(&mut buffer)?, test_some);

    let mut buffer = BitBuffer::new();
    test_none.bit_serialize(&mut buffer)?;
    let bytes = buffer.into_bytes(false)?;
    let mut buffer = BitBuffer::from_bytes(bytes);
    assert_eq!(Option::<u16>::bit_deserialize(&mut buffer)?, test_none);

    Ok(())
}

#[derive(Debug, PartialEq)]
struct BitPacked {
    small: u8,
    medium: u8,
    flag: bool,
}

#[test]
fn test_bit_packing() -> Result<(), BitError> {
    let packed = BitPacked { small: 7, medium: 31, flag: true };

    let mut buffer = BitBuffer::new();
    buffer.write_bits(packed.small as u64, 3)?;
    buffer.write_bits(packed.medium as u64, 5)?;
    buffer.write_bits(packed.flag as u64, 1)?;

    assert_eq!(buffer.unpadded_length(), 9);

    let bytes = buffer.into_bytes(false)?;
    let mut buffer = BitBuffer::from_bytes(bytes);
    let deserialized = BitPacked {
        small: buffer.read_bits(3)? as u8,
        medium: buffer.read_bits(5)? as u8,
        flag: buffer.read_bits(1)? != 0,
    };

    assert_eq!(packed, deserialized);
    Ok(())
}

#[test]
fn test_string_serialization() -> Result<(), BitError> {
    let test_string = "Hello, Network! 🚀".to_string();
    assert_eq!(roundtrip(&test_string)?, test_string);
    Ok(())
}

#[test]
fn test_array_serialization() -> Result<(), BitError> {
    let test_array: [u8; 4] = [1, 2, 3, 4];
    assert_eq!(roundtrip(&test_array)?, test_array);
    Ok(())
}

#[test]
fn test_tuple_serialization() -> Result<(), BitError> {
    let test_tuple = (42u8, true, 1337u16);
    assert_eq!(roundtrip(&test_tuple)?, test_tuple);
    Ok(())
}

#[test]
fn test_complex_nested_structures() -> Result<(), BitError> {
    let nested_data: Vec<Vec<(String, [u8; 2])>> = vec![
        vec![("first".to_string(), [1, 2]), ("second".to_string(), [3, 4])],
        vec![("third".to_string(), [5, 6])],
    ];
    assert_eq!(roundtrip(&nested_data)?, nested_data);
    Ok(())
}

#[test]
fn test_option_variants() -> Result<(), BitError> {
    let options: Vec<Option<String>> =
        vec![None, Some("test".to_string()), None, Some("another".to_string())];
    assert_eq!(roundtrip(&options)?, options);
    Ok(())
}

#[test]
fn test_empty_collections() -> Result<(), BitError> {
    let empty_vec: Vec<String> = vec![];
    assert_eq!(roundtrip(&empty_vec)?, empty_vec);

    let empty_string = String::new();
    assert_eq!(roundtrip(&empty_string)?, empty_string);
    Ok(())
}

#[test]
fn test_large_arrays() -> Result<(), BitError> {
    let large_array: [u16; 32] = [0; 32];
    assert_eq!(roundtrip(&large_array)?, large_array);
    Ok(())
}

#[test]
fn bit_order_is_most_significant_first() -> Result<(), BitError> {
    let mut buffer = BitBuffer::new();
    buffer.write_bits(0b101, 3)?;
    buffer.write_bit(true)?;
    assert_eq!(buffer.unpadded_length(), 4);
    assert_eq!(buffer.to_bit_string(4), "1011");
    let bytes = buffer.into_bytes(true)?;
    assert_eq!(bytes, vec![0b1011_0000]);
    Ok(())
}

#[test]
fn bit_string_groups_bytes() -> Result<(), BitError> {
    let mut buffer = BitBuffer::new();
    0xA5u8.bit_serialize(&mut buffer)?;
    true.bit_serialize(&mut buffer)?;
    assert_eq!(buffer.to_bit_string(9), "10100101 1");
    Ok(())
}

#[test]
fn reading_past_the_end_fails() {
    let mut buffer = BitBuffer::from_bytes(vec![0xFF]);
    assert_eq!(buffer.read_bits(8).unwrap(), 0xFF);
    assert_eq!(buffer.read_bit().unwrap_err(), BitError::UnexpectedEof);
}

#[test]
fn too_many_bits_at_once_is_invalid_input() {
    let mut buffer = BitBuffer::new();
    assert_eq!(buffer.write_bits(1, 65).unwrap_err(), BitError::InvalidInput);
    let mut reader = BitBuffer::from_bytes(vec![0; 16]);
    assert_eq!(reader.read_bits(65).unwrap_err(), BitError::InvalidInput);
}

#[test]
fn vec_longer_than_its_prefix_is_refused() {
    let long = vec![0u8; 65536];
    let mut buffer = BitBuffer::new();
    assert_eq!(long.bit_serialize(&mut buffer).unwrap_err(), BitError::InvalidData);
}

#[test]
fn invalid_utf8_is_invalid_data() -> Result<(), BitError> {
    let mut buffer = BitBuffer::new();
    vec![0xFFu8, 0xFE].bit_serialize(&mut buffer)?;
    let bytes = buffer.into_bytes(false)?;
    let mut reader = BitBuffer::from_bytes(bytes);
    assert_eq!(String::bit_deserialize(&mut reader).unwrap_err(), BitError::InvalidData);
    Ok(())
}

#[test]
fn signed_values_roundtrip() -> Result<(), BitError> {
    assert_eq!(roundtrip(&-5i8)?, -5i8);
    assert_eq!(roundtrip(&-300i16)?, -300i16);
    assert_eq!(roundtrip(&i32::MIN)?, i32::MIN);
    assert_eq!(roundtrip(&i64::MAX)?, i64::MAX);
    assert_eq!(roundtrip(&(1u8, 2u16, 3u32, 4u64))?, (1u8, 2u16, 3u32, 4u64));
    Ok(())
}

fn byte_roundtrip<T: ByteAlignedSerialize + ByteAlignedDeserialize>(value: &T) -> (Vec<u8>, T) {
    let mut bytes = Vec::new();
    value.byte_aligned_serialize(&mut bytes).unwrap();
    let mut reader = ByteReader::new(bytes.clone());
    let back = T::byte_aligned_deserialize(&mut reader).unwrap();
    assert_eq!(reader.position(), bytes.len());
    (bytes, back)
}

#[test]
fn byte_aligned_integers_are_little_endian() {
    let (bytes, back) = byte_roundtrip(&0x1234u16);
    assert_eq!(bytes, vec![0x34, 0x12]);
    assert_eq!(back, 0x1234);
    let (bytes, back) = byte_roundtrip(&0xDEADBEEFu32);
    assert_eq!(bytes, vec![0xEF, 0xBE, 0xAD, 0xDE]);
    assert_eq!(back, 0xDEADBEEF);
    let (bytes, back) = byte_roundtrip(&0x0102030405060708u64);
    assert_eq!(bytes, vec![8, 7, 6, 5, 4, 3, 2, 1]);
    assert_eq!(back, 0x0102030405060708);
    let (bytes, back) = byte_roundtrip(&-2i16);
    assert_eq!(bytes, vec![0xFE, 0xFF]);
    assert_eq!(back, -2);
    let (bytes, back) = byte_roundtrip(&-1i8);
    assert_eq!(bytes, vec![0xFF]);
    assert_eq!(back, -1);
}

#[test]
fn byte_aligned_composites() {
    let (bytes, back) = byte_roundtrip(&"hé".to_string());
    assert_eq!(bytes, vec![3, 0, 0, 0, b'h', 0xC3, 0xA9]);
    assert_eq!(back, "hé");
    let (bytes, back) = byte_roundtrip(&vec![1u16, 2]);
    assert_eq!(bytes, vec![2, 0, 0, 0, 1, 0, 2, 0]);
    assert_eq!(back, vec![1, 2]);
    let (bytes, back) = byte_roundtrip(&Some(true));
    assert_eq!(bytes, vec![1, 1]);
    assert_eq!(back, Some(true));
    let (bytes, back) = byte_roundtrip(&None::<u32>);
    assert_eq!(bytes, vec![0]);
    assert_eq!(back, None);
    let (bytes, back) = byte_roundtrip(&[7u8, 8, 9]);
    assert_eq!(bytes, vec![7, 8, 9]);
    assert_eq!(back, [7, 8, 9]);
    let (_, back) = byte_roundtrip(&(1u8, -1i32, 5u64, false));
    assert_eq!(back, (1u8, -1i32, 5u64, false));
}

#[test]
fn byte_aligned_errors() {
    let mut reader = ByteReader::new(vec![1]);
    assert_eq!(u16::byte_aligned_deserialize(&mut reader).unwrap_err(), BitError::UnexpectedEof);
    assert_eq!(reader.position(), 0);
    let mut reader = ByteReader::new(vec![5, 0, 0, 0, b'a']);
    assert_eq!(String::byte_aligned_deserialize(&mut reader).unwrap_err(), BitError::UnexpectedEof);
    let mut reader = ByteReader::new(vec![1, 0, 0, 0, 0xFF]);
    assert_eq!(String::byte_aligned_deserialize(&mut reader).unwrap_err(), BitError::InvalidData);
    let mut reader = ByteReader::new(vec![2, 0, 0, 0, 9]);
    assert_eq!(Vec::<u8>::byte_aligned_deserialize(&mut reader).unwrap_err(), BitError::UnexpectedEof);
    let mut reader = ByteReader::new(vec![]);
    assert_eq!(bool::byte_aligned_deserialize(&mut reader).unwrap_err(), BitError::UnexpectedEof);
}

#[test]
fn byte_aligned_bool_reads_any_nonzero_as_true() {
    let mut reader = ByteReader::new(vec![0, 7]);
    assert_eq!(bool::byte_aligned_deserialize(&mut reader).unwrap(), false);
    assert_eq!(bool::byte_aligned_deserialize(&mut reader).unwrap(), true);
}

#[test]
fn written_bytes_same_with_or_without_padding() -> Result<(), BitError> {
    let mut a = BitBuffer::new();
    let mut b = BitBuffer::new();
    for buffer in [&mut a, &mut b] {
        buffer.write_bits(0b1011, 4)?;
        buffer.write_bit(true)?;
        buffer.write_bits(0x3FF, 10)?;
        buffer.write_bits(5, 13)?;
    }
    // 28 bits take 4 bytes.
    let padded = a.into_bytes(true)?;
    let unpadded = b.into_bytes(false)?;
    assert_eq!(padded, unpadded);
    assert_eq!(padded.len(), 4);
    assert_eq!(padded, vec![0b1011_1111, 0b1111_1110, 0b0000_0000, 0b0101_0000]);
    assert_eq!(BitBuffer::new().into_bytes(true)?, Vec::<u8>::new());
    Ok(())
}

#[test]
fn written_fields_read_back_as_low_bits() -> Result<(), BitError> {
    let values: [u64; 4] = [0x1FF, 3, u64::MAX, 0xABCD];
    let widths: [usize; 4] = [4, 2, 64, 16];
    let mut buffer = BitBuffer::new();
    for i in 0..4 {
        buffer.write_bits(values[i], widths[i])?;
    }
    let mut reader = BitBuffer::from_bytes(buffer.into_bytes(false)?);
    assert_eq!(reader.read_bits(4)?, 0xF);
    assert_eq!(reader.read_bits(2)?, 3);
    assert_eq!(reader.read_bits(64)?, u64::MAX);
    assert_eq!(reader.read_bits(16)?, 0xABCD);
    assert_eq!(BitRead::bit_pos(&reader), 86);
    Ok(())
}

use tmod_extract::container::{read_header, ContainerHeader};
use tmod_extract::error::ExtractError;
use tmod_extract::fields::{read_bytes, read_i32_le, read_string, read_u32_le};
use tmod_extract::varint::{encode_7bit_length, read_7bit_length};

fn round_trip(n: u32) {
    let mut bytes = encode_7bit_length(n);
    let len = bytes.len();
    bytes.push(0xAB);
    assert_eq!(read_7bit_length(&bytes, 0), Ok((n, len)));
}

#[test]
fn length_round_trip_boundaries() {
    for n in [0u32, 1, 127, 128, 16383, 16384, 2_097_151, 2_097_152, (1 << 28) - 1] {
        round_trip(n);
    }
}

#[test]
fn length_round_trip_full_width() {
    for n in [1u32 << 28, u32::MAX - 1, u32::MAX] {
        round_trip(n);
    }
}

#[test]
fn length_encodings_exact() {
    assert_eq!(encode_7bit_length(0), vec![0x00]);
    assert_eq!(encode_7bit_length(127), vec![0x7F]);
    assert_eq!(encode_7bit_length(128), vec![0x80, 0x01]);
    assert_eq!(encode_7bit_length(16383), vec![0xFF, 0x7F]);
    assert_eq!(encode_7bit_length(16384), vec![0x80, 0x80, 0x01]);
    assert_eq!(encode_7bit_length(u32::MAX), vec![0xFF, 0xFF, 0xFF, 0xFF, 0x0F]);
}

#[test]
fn length_decode_at_offset() {
    let bytes = vec![0x00, 0x00, 0xAC, 0x02, 0x99];
    assert_eq!(read_7bit_length(&bytes, 2), Ok((300, 4)));
}

#[test]
fn length_truncated() {
    assert_eq!(read_7bit_length(&[], 0), Err(ExtractError::Truncated));
    assert_eq!(read_7bit_length(&[0x80, 0x80], 0), Err(ExtractError::Truncated));
    assert_eq!(read_7bit_length(&[0x01], 5), Err(ExtractError::Truncated));
}

#[test]
fn length_too_many_groups() {
    let bytes = vec![0x80, 0x80, 0x80, 0x80, 0x80, 0x00];
    assert_eq!(read_7bit_length(&bytes, 0), Err(ExtractError::LengthOverflow));
}

#[test]
fn length_exceeds_32_bits() {
    let bytes = vec![0xFF, 0xFF, 0xFF, 0xFF, 0x10];
    assert_eq!(read_7bit_length(&bytes, 0), Err(ExtractError::LengthOverflow));
}

#[test]
fn little_endian_integers() {
    let bytes = vec![0x78, 0x56, 0x34, 0x12, 0xFF, 0xFF, 0xFF, 0xFF, 0x00, 0x00, 0x00, 0x80];
    assert_eq!(read_u32_le(&bytes, 0), Ok((0x1234_5678, 4)));
    assert_eq!(read_i32_le(&bytes, 4), Ok((-1, 8)));
    assert_eq!(read_u32_le(&bytes, 4), Ok((u32::MAX, 8)));
    assert_eq!(read_i32_le(&bytes, 8), Ok((i32::MIN, 12)));
    assert_eq!(read_i32_le(&bytes, 9), Err(ExtractError::Truncated));
}

#[test]
fn raw_bytes() {
    let bytes = vec![1u8, 2, 3, 4, 5];
    assert_eq!(read_bytes(&bytes, 1, 3), Ok((vec![2, 3, 4], 4)));
    assert_eq!(read_bytes(&bytes, 5, 0), Ok((vec![], 5)));
    assert_eq!(read_bytes(&bytes, 3, 3), Err(ExtractError::Truncated));
}

#[test]
fn strings_decode() {
    let mut bytes = vec![6u8];
    bytes.extend_from_slice("héllo".as_bytes());
    assert_eq!(read_string(&bytes, 0), Ok(("héllo".to_string(), 7)));
    assert_eq!(read_string(&[0x00], 0), Ok((String::new(), 1)));
}

#[test]
fn strings_invalid_utf8() {
    let bytes = vec![0x02, 0xC3, 0x28];
    assert_eq!(read_string(&bytes, 0), Err(ExtractError::InvalidUtf8));
}

#[test]
fn strings_truncated() {
    let bytes = vec![0x04, b'a', b'b'];
    assert_eq!(read_string(&bytes, 0), Err(ExtractError::Truncated));
}

#[test]
fn header_hex_fields() {
    let header = ContainerHeader {
        format_version: "1.4".to_string(),
        hash: vec![0x00, 0x0F, 0xA0, 0xFF],
        signature: vec![0x12, 0xAB],
        data_len: 0,
        name: String::new(),
        version: String::new(),
        entry_count: 0,
    };
    assert_eq!(header.hash_hex(), "000fa0ff");
    assert_eq!(header.signature_hex(), "12ab");
}

#[test]
fn header_too_short_for_magic() {
    assert!(matches!(read_header(b"TMO"), Err(ExtractError::Truncated)));
}

#[test]
fn usage_errors() {
    assert!(ExtractError::NoInputFile.is_usage_error());
    assert!(ExtractError::NoOutputDirectory.is_usage_error());
    assert!(!ExtractError::BadMagic.is_usage_error());
    assert!(!ExtractError::Truncated.is_usage_error());
}

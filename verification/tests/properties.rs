use cbor::decoder::{decode, MAX_NESTED_DEPTH};
use cbor::{CborError, CborType};

/// A chain of `depth` singleton-array heads closed by one unsigned integer.
fn nested_arrays(depth: usize) -> Vec<u8> {
    let mut bytes = vec![0x81; depth];
    bytes.push(0x00);
    bytes
}

#[test]
fn test_empty_input() {
    let bytes: Vec<u8> = Vec::new();
    assert_eq!(decode(&bytes).unwrap_err(), CborError::TruncatedInput);
}

#[test]
fn test_decode_is_idempotent() {
    let bytes: Vec<u8> = vec![0x83, 0x01, 0x82, 0x02, 0x03, 0x82, 0x04, 0x05];
    let first = decode(&bytes);
    let second = decode(&bytes);
    assert_eq!(first, second);

    let bytes: Vec<u8> = vec![0xa4, 0x01, 0x02, 0x02, 0x03, 0x01, 0x03, 0x04, 0x04];
    let first = decode(&bytes);
    let second = decode(&bytes);
    assert_eq!(first.unwrap_err(), second.unwrap_err());
}

#[test]
fn test_nesting_at_depth_limit() {
    let bytes = nested_arrays(MAX_NESTED_DEPTH);
    let mut expected = CborType::Integer(0);
    for _ in 0..MAX_NESTED_DEPTH {
        expected = CborType::Array(vec![expected]);
    }
    assert_eq!(decode(&bytes).unwrap(), expected);
}

#[test]
fn test_nesting_beyond_depth_limit() {
    let bytes = nested_arrays(MAX_NESTED_DEPTH + 1);
    assert_eq!(decode(&bytes).unwrap_err(), CborError::MalformedInput);
}

#[test]
fn test_trailing_bytes_ignored() {
    // decode validates "at least one item": bytes after it are ignored.
    let bytes: Vec<u8> = vec![0x01, 0x02];
    assert_eq!(decode(&bytes).unwrap(), CborType::Integer(1));
}

#[test]
fn test_reserved_additional_info() {
    // Additional information 28 to 30 is reserved, 31 is the unsupported
    // indefinite-length marker; all are malformed under major types 0 to 6.
    for info in 28..32 {
        for major in 0..7 {
            let bytes = vec![(major << 5) | info];
            assert_eq!(decode(&bytes).unwrap_err(), CborError::MalformedInput);
        }
    }
}

#[test]
fn test_truncated_byte_string() {
    let bytes: Vec<u8> = vec![0x44, 0x01, 0x02, 0x03];
    assert_eq!(decode(&bytes).unwrap_err(), CborError::TruncatedInput);
}

#[test]
fn test_nested_map_keys() {
    // {[]: 1, [2]: {}} — composite keys are ordered and kept distinct.
    let bytes: Vec<u8> = vec![0xa2, 0x80, 0x01, 0x81, 0x02, 0xa0];
    let expected = CborType::Mapping(vec![
        (CborType::Array(vec![]), CborType::Integer(1)),
        (
            CborType::Array(vec![CborType::Integer(2)]),
            CborType::Mapping(vec![]),
        ),
    ]);
    assert_eq!(decode(&bytes).unwrap(), expected);
}

#[test]
fn test_map_key_order_is_sorted() {
    // {3: 4, 1: 2} decodes with its pairs ordered by key, not by arrival.
    let bytes: Vec<u8> = vec![0xa2, 0x03, 0x04, 0x01, 0x02];
    let expected = CborType::Mapping(vec![
        (CborType::Integer(1), CborType::Integer(2)),
        (CborType::Integer(3), CborType::Integer(4)),
    ]);
    assert_eq!(decode(&bytes).unwrap(), expected);
}

#[test]
fn test_duplicate_composite_map_key() {
    // {[1]: 2, [1]: 3} repeats a composite key.
    let bytes: Vec<u8> = vec![0xa2, 0x81, 0x01, 0x02, 0x81, 0x01, 0x03];
    assert_eq!(decode(&bytes).unwrap_err(), CborError::DuplicateMapKey);
}

#[test]
fn test_tag_in_array() {
    let bytes: Vec<u8> = vec![0x82, 0xc1, 0x00, 0xf6];
    let expected = CborType::Array(vec![
        CborType::Tag(1, Box::new(CborType::Integer(0))),
        CborType::Null,
    ]);
    assert_eq!(decode(&bytes).unwrap(), expected);
}

#[test]
fn test_negative_integer_boundary() {
    // Argument 2^63 - 1 is the largest that still fits a signed 64-bit result.
    let bytes: Vec<u8> = vec![0x3b, 0x7f, 0xff, 0xff, 0xff, 0xff, 0xff, 0xff, 0xff];
    assert_eq!(decode(&bytes).unwrap(), CborType::SignedInteger(i64::MIN));

    let bytes: Vec<u8> = vec![0x3b, 0x80, 0x00, 0x00, 0x00, 0x00, 0x00, 0x00, 0x00];
    assert_eq!(
        decode(&bytes).unwrap_err(),
        CborError::InputValueOutOfRange
    );
}

//! Scalar round trips: each value comes back unchanged and its encoding
//! uses the minimal number of bytes; overlong and overflowing encodings
//! are rejected.

use byteframe::error::Error;
use byteframe::{Deserializer, Serializer};

fn round_trip(n: u64, expected_len: usize) {
    let mut ser = Serializer::new();
    let written = ser.write_u64(n).unwrap();
    assert_eq!(expected_len, written);
    assert_eq!(expected_len, ser.value().len());
    let mut de = Deserializer::new(ser.value());
    assert_eq!(n, de.read_u64().unwrap());
}

#[test]
fn varint_round_trip_zero() {
    round_trip(0, 1);
}

#[test]
fn varint_round_trip_one() {
    round_trip(1, 1);
}

#[test]
fn varint_round_trip_127() {
    round_trip(127, 1);
}

#[test]
fn varint_round_trip_128() {
    round_trip(128, 2);
}

#[test]
fn varint_round_trip_16384() {
    round_trip(16384, 3);
}

#[test]
fn varint_round_trip_two_to_the_63() {
    round_trip(1u64 << 63, 10);
}

#[test]
fn varint_round_trip_u64_max() {
    round_trip(u64::MAX, 10);
}

#[test]
fn varint_concrete_encodings() {
    let mut ser = Serializer::new();
    ser.write_u64(300).unwrap();
    assert_eq!(vec![0xAC, 0x02], ser.value().to_vec());

    let mut ser = Serializer::new();
    ser.write_u64(0).unwrap();
    assert_eq!(vec![0x00], ser.value().to_vec());
}

#[test]
fn varint_accepts_non_minimal_padding() {
    // a zero payload group with the continuation flag still decodes
    let bytes: [u8; 2] = [0x80, 0x00];
    let mut de = Deserializer::new(&bytes);
    assert_eq!(0, de.read_u64().unwrap());
}

#[test]
fn varint_rejects_truncated() {
    let bytes: [u8; 2] = [0x80, 0x80];
    let mut de = Deserializer::new(&bytes);
    let err = de.read_u64().unwrap_err();
    assert!(matches!(err, Error::InvalidSize(_)));
}

#[test]
fn varint_rejects_empty() {
    let bytes: [u8; 0] = [];
    let mut de = Deserializer::new(&bytes);
    assert!(de.read_u64().is_err());
}

#[test]
fn varint_rejects_more_than_ten_bytes() {
    // ten continuation bytes would force an eleventh byte
    let mut bytes = vec![0x80u8; 10];
    bytes.push(0x01);
    let mut de = Deserializer::new(&bytes);
    let err = de.read_u64().unwrap_err();
    assert!(matches!(err, Error::InvalidSize(_)));

    // even when the payload value itself is zero
    let mut bytes = vec![0x80u8; 10];
    bytes.push(0x00);
    let mut de = Deserializer::new(&bytes);
    assert!(de.read_u64().is_err());
}

#[test]
fn varint_rejects_overflow() {
    // nine full groups then a terminator worth 2^63 * 127: above u64::MAX
    let mut bytes = vec![0xFFu8; 9];
    bytes.push(0x7F);
    let mut de = Deserializer::new(&bytes);
    let err = de.read_u64().unwrap_err();
    assert!(matches!(err, Error::InvalidSize(_)));

    // the largest value that still fits decodes fine
    let mut bytes = vec![0xFFu8; 9];
    bytes.push(0x01);
    let mut de = Deserializer::new(&bytes);
    assert_eq!(u64::MAX, de.read_u64().unwrap());
}

//! Framed arrays and collection streams: exact wire bytes, truncation
//! failures at every offset, duplicate handling, and the exact-length read.

use byteframe::collections::{ByteMap, ByteSet};
use byteframe::error::Error;
use byteframe::{tools, Deserializer, Serializer};

#[test]
fn framed_array_concrete_bytes() {
    let mut ser = Serializer::new();
    let written = ser.write_vec(b"azerty").unwrap();
    assert_eq!(7, written);
    assert_eq!(vec![0x06, b'a', b'z', b'e', b'r', b't', b'y'], ser.value().to_vec());

    let mut ser = Serializer::new();
    let written = ser.write_vec(b"").unwrap();
    assert_eq!(1, written);
    assert_eq!(vec![0x00], ser.value().to_vec());
}

#[test]
fn sequence_concrete_bytes() {
    let vectors = vec![vec![1u8, 2, 3, 4], vec![5, 6, 7, 8, 9]];
    let encoded = tools::serialize_bytes_vectors(&vectors).unwrap();
    assert_eq!(vec![0x02, 0x04, 1, 2, 3, 4, 0x05, 5, 6, 7, 8, 9], encoded);
    assert_eq!(12, encoded.len());
}

#[test]
fn empty_sequence_round_trip() {
    let vectors: Vec<Vec<u8>> = vec![];
    let encoded = tools::serialize_bytes_vectors(&vectors).unwrap();
    assert_eq!(vec![0x00], encoded);
    let decoded = tools::deserialize_bytes_vectors(&encoded).unwrap();
    assert!(decoded.is_empty());
}

#[test]
fn sequence_with_empty_entries_round_trip() {
    let vectors = vec![vec![], vec![42u8], vec![]];
    let encoded = tools::serialize_bytes_vectors(&vectors).unwrap();
    let decoded = tools::deserialize_bytes_vectors(&encoded).unwrap();
    assert_eq!(vectors, decoded);
}

#[test]
fn truncated_sequence_fails_at_every_offset() {
    let vectors = vec![vec![1u8, 2, 3, 4], vec![], vec![5, 6, 7, 8, 9, 200]];
    let encoded = tools::serialize_bytes_vectors(&vectors).unwrap();
    for cut in 0..encoded.len() {
        let r = tools::deserialize_bytes_vectors(&encoded[..cut]);
        let err = r.expect_err("a truncated stream must not decode");
        assert!(matches!(err, Error::InvalidSize(_)));
    }
}

#[test]
fn truncated_after_one_complete_entry_fails() {
    // a count of two followed by only one complete framed array
    let bytes: [u8; 3] = [0x02, 0x01, 0xAB];
    let err = tools::deserialize_bytes_vectors(&bytes).unwrap_err();
    assert!(matches!(err, Error::InvalidSize(_)));
}

#[test]
fn frame_declaring_more_than_remains_fails() {
    let bytes: [u8; 3] = [0x05, 1, 2];
    let mut de = Deserializer::new(&bytes);
    assert!(de.read_vec().is_err());
}

#[test]
fn truncated_mapping_fails_at_every_offset() {
    let mut map = ByteMap::new();
    map.insert(vec![1u8, 2], vec![3u8, 4, 5]);
    map.insert(vec![9u8], vec![]);
    let encoded = tools::serialize_bytes_hashmap(&map).unwrap();
    for cut in 0..encoded.len() {
        assert!(tools::deserialize_bytes_hashmap(&encoded[..cut]).is_err());
    }
}

#[test]
fn truncated_set_fails_at_every_offset() {
    let mut set = ByteSet::new();
    set.insert(vec![1u8, 2, 3]);
    set.insert(vec![]);
    set.insert(vec![7u8]);
    let encoded = tools::serialize_bytes_hashset(&set).unwrap();
    for cut in 0..encoded.len() {
        assert!(tools::deserialize_bytes_hashset(&encoded[..cut]).is_err());
    }
}

#[test]
fn mapping_duplicate_key_last_wins() {
    // two entries under the key `k`: the value `b` must survive
    let bytes: [u8; 9] = [0x02, 0x01, b'k', 0x01, b'a', 0x01, b'k', 0x01, b'b'];
    let decoded = tools::deserialize_bytes_hashmap(&bytes).unwrap();
    let mut expected = ByteMap::new();
    expected.insert(vec![b'k'], vec![b'b']);
    assert_eq!(expected, decoded);
}

#[test]
fn set_duplicates_collapse() {
    let bytes: [u8; 7] = [0x02, 0x02, 8, 9, 0x02, 8, 9];
    let decoded = tools::deserialize_bytes_hashset(&bytes).unwrap();
    let mut expected = ByteSet::new();
    expected.insert(vec![8u8, 9]);
    assert_eq!(expected, decoded);
}

#[test]
fn set_insert_reports_growth() {
    let mut set = ByteSet::new();
    assert!(set.insert(vec![1u8]));
    assert!(!set.insert(vec![1u8]));
    assert_eq!(1, set.len());
}

#[test]
fn mapping_insert_overwrites_in_place() {
    let mut map = ByteMap::new();
    map.insert(vec![1u8], vec![10u8]);
    map.insert(vec![2u8], vec![20u8]);
    map.insert(vec![1u8], vec![30u8]);
    assert_eq!(2, map.len());
    let encoded = tools::serialize_bytes_hashmap(&map).unwrap();
    // first entry keeps its place and carries the new value
    assert_eq!(vec![0x02, 0x01, 1, 0x01, 30, 0x01, 2, 0x01, 20], encoded);
}

#[test]
fn read_exact_width() {
    let bytes: [u8; 5] = [10, 20, 30, 40, 50];
    let mut de = Deserializer::new(&bytes);
    let head = de.read_array(2).unwrap();
    assert_eq!(vec![10u8, 20], head);
    let tail = de.read_array(3).unwrap();
    assert_eq!(vec![30u8, 40, 50], tail);
    assert!(de.read_array(1).is_err());
}

#[test]
fn read_usize_and_raw_write() {
    let mut ser = Serializer::new();
    ser.write_usize(5).unwrap();
    ser.write_array(&[9u8, 8, 7, 6, 5]).unwrap();
    let mut de = Deserializer::new(ser.value());
    assert_eq!(5, de.read_usize().unwrap());
    assert_eq!(vec![9u8, 8, 7, 6, 5], de.read_array(5).unwrap());
}

#[test]
fn finalize_yields_the_written_bytes() {
    let mut ser = Serializer::new();
    ser.write_vec(b"xy").unwrap();
    let snapshot = ser.value().to_vec();
    let owned = ser.finalize();
    assert_eq!(snapshot, owned);
    assert_eq!(vec![0x02, b'x', b'y'], owned);
}

#[test]
fn default_serializers_start_empty() {
    let ser = Serializer::default();
    assert!(ser.value().is_empty());
    let ser = byteframe::bytes::Serializer::default();
    assert!(ser.value().is_empty());
}

use kvlog::entry::{Entry, DELETED, HEADER_SIZE, LIVE};
use kvlog::error::StoreError;

fn clock_seconds() -> u32 {
    std::time::SystemTime::now()
        .duration_since(std::time::UNIX_EPOCH)
        .unwrap()
        .as_secs() as u32
}

#[test]
fn test_encode_decode_roundtrip_standard() {
    let key = "my-key".to_string();
    let value = vec![1, 2, 3];

    let mut entry = Entry::new(key.clone(), value.clone());
    let encoded = entry.encode().unwrap();
    let decoded_entry = Entry::<String>::decode(encoded, 0).unwrap();

    assert_eq!(decoded_entry.key, key);
    assert_eq!(decoded_entry.value.value, value);
    assert_eq!(decoded_entry.value.tombstone, entry.value.tombstone);
}

#[test]
fn test_encode_decode_roundtrip_standard_preserving_timestamp() {
    let key = "my-key".to_string();
    let value = vec![1, 2, 3];
    let timestamp = clock_seconds();

    let mut entry = Entry::new_preserving_timestamp(key.clone(), value.clone(), timestamp);
    let encoded = entry.encode().unwrap();
    let decoded_entry = Entry::<String>::decode(encoded, 0).unwrap();

    assert_eq!(decoded_entry.key, key);
    assert_eq!(decoded_entry.value.value, value);
    assert_eq!(decoded_entry.value.tombstone, entry.value.tombstone);
    assert_eq!(decoded_entry.timestamp, entry.timestamp);
}

#[test]
fn test_encode_decode_roundtrip_deleted() {
    let key = "deleted-key".to_string();

    let mut entry = Entry::new_deleted_entry(key.clone());
    let encoded = entry.encode().unwrap();
    let decoded_entry = Entry::<String>::decode(encoded, 0).unwrap();

    assert_eq!(decoded_entry.key, key);
    assert_eq!(decoded_entry.value.tombstone, entry.value.tombstone);
}

#[test]
fn test_decode_insufficient_data() {
    let short_data = vec![0, 1, 2, 3];
    let result = Entry::<String>::decode(short_data, 0);
    assert!(result.is_err());
}

#[test]
fn encode_at_writes_the_exact_frame() {
    let entry = Entry::new("ab".to_string(), vec![7, 8]);
    let bytes = entry.encode_at(0x01020304).unwrap();
    assert_eq!(
        bytes,
        vec![4, 3, 2, 1, 2, 0, 0, 0, 3, 0, 0, 0, b'a', b'b', 7, 8, LIVE]
    );
}

#[test]
fn tombstone_frame_is_empty_valued_and_flagged() {
    let entry = Entry::new_deleted_entry("k".to_string());
    let bytes = entry.encode_at(5).unwrap();
    assert_eq!(bytes, vec![5, 0, 0, 0, 1, 0, 0, 0, 1, 0, 0, 0, b'k', DELETED]);
    let decoded = Entry::<String>::decode(bytes, 0).unwrap();
    assert!(decoded.is_deleted());
    assert!(decoded.value.value.is_empty());
    assert_eq!(decoded.timestamp, 5);
}

#[test]
fn tombstone_drops_the_previous_value() {
    let mut live = Entry::new("k".to_string(), vec![1, 2, 3, 4]);
    let live_bytes = live.encode().unwrap();
    let mut deleted = Entry::new_deleted_entry("k".to_string());
    let deleted_bytes = deleted.encode().unwrap();
    assert!(deleted_bytes.len() < live_bytes.len());
    let decoded = Entry::<String>::decode(deleted_bytes, 0).unwrap();
    assert_eq!(decoded.value.tombstone, DELETED);
    assert!(decoded.value.value.is_empty());
}

#[test]
fn empty_key_and_value_round_trip() {
    let mut entry = Entry::new(String::new(), Vec::new());
    let bytes = entry.encode().unwrap();
    assert_eq!(bytes.len(), HEADER_SIZE + 1);
    let decoded = Entry::<String>::decode(bytes, 0).unwrap();
    assert_eq!(decoded.key, "");
    assert!(decoded.value.value.is_empty());
    assert!(!decoded.is_deleted());
}

#[test]
fn encode_stamps_zero_timestamp_with_the_clock() {
    let before = clock_seconds();
    let mut entry = Entry::new("k".to_string(), vec![1]);
    let bytes = entry.encode().unwrap();
    let decoded = Entry::<String>::decode(bytes, 0).unwrap();
    assert!(decoded.timestamp >= before);
    assert_eq!(entry.timestamp, 0);
}

#[test]
fn decode_at_an_offset() {
    let entry = Entry::new("key".to_string(), vec![9, 9]);
    let mut content = vec![0xAA, 0xBB, 0xCC];
    content.extend_from_slice(&entry.encode_at(42).unwrap());
    let decoded = Entry::<String>::decode(content, 3).unwrap();
    assert_eq!(decoded.key, "key");
    assert_eq!(decoded.value.value, vec![9, 9]);
    assert_eq!(decoded.timestamp, 42);
}

#[test]
fn decode_rejects_truncated_frame() {
    let entry = Entry::new("key".to_string(), vec![1, 2, 3]);
    let mut bytes = entry.encode_at(1).unwrap();
    bytes.pop();
    assert_eq!(
        Entry::<String>::decode(bytes, 0).err(),
        Some(StoreError::CorruptFrame)
    );
}

#[test]
fn decode_rejects_zero_value_length() {
    let bytes = vec![0, 0, 0, 0, 0, 0, 0, 0, 0, 0, 0, 0, 0];
    assert_eq!(
        Entry::<String>::decode(bytes, 0).err(),
        Some(StoreError::CorruptFrame)
    );
}

#[test]
fn decode_rejects_unknown_tombstone_byte() {
    let bytes = vec![0, 0, 0, 0, 0, 0, 0, 0, 1, 0, 0, 0, 2];
    assert_eq!(
        Entry::<String>::decode(bytes, 0).err(),
        Some(StoreError::CorruptFrame)
    );
}

#[test]
fn decode_rejects_offset_past_end() {
    let entry = Entry::new("k".to_string(), vec![]);
    let bytes = entry.encode_at(1).unwrap();
    assert_eq!(
        Entry::<String>::decode(bytes, 100).err(),
        Some(StoreError::CorruptFrame)
    );
}

#[test]
fn decode_reports_key_that_is_not_utf8() {
    let bytes = vec![0, 0, 0, 0, 1, 0, 0, 0, 1, 0, 0, 0, 0xFF, 0];
    assert_eq!(
        Entry::<String>::decode(bytes, 0).err(),
        Some(StoreError::KeySerializationFailure)
    );
}

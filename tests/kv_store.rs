use kvlog::error::StoreError;
use kvlog::kv_store::KVStore;
use kvlog::segment::{parse_segment_file_name, segment_file_name, Segment};

/// Segment files kept in memory, by id.
struct Disk {
    files: Vec<(u64, Vec<u8>)>,
}

impl Disk {
    fn new() -> Disk {
        Disk { files: Vec::new() }
    }

    fn file(&mut self, id: u64) -> &mut Vec<u8> {
        let at = match self.files.iter().position(|(i, _)| *i == id) {
            Some(at) => at,
            None => {
                self.files.push((id, Vec::new()));
                self.files.len() - 1
            }
        };
        &mut self.files[at].1
    }
}

fn put(store: &mut KVStore<String>, disk: &mut Disk, key: String, value: Vec<u8>) -> Result<(), StoreError> {
    let pending = store.prepare_put(key, value)?;
    disk.file(pending.segment_id()).extend_from_slice(pending.bytes());
    let written = pending.bytes().len();
    store.commit_write(pending, written)?;
    Ok(())
}

fn delete(store: &mut KVStore<String>, disk: &mut Disk, key: String) -> Result<(), StoreError> {
    let pending = store.prepare_delete(key)?;
    disk.file(pending.segment_id()).extend_from_slice(pending.bytes());
    let written = pending.bytes().len();
    store.commit_write(pending, written)?;
    Ok(())
}

fn get(store: &KVStore<String>, disk: &mut Disk, key: String) -> Option<Vec<u8>> {
    let loc = store.locate(key)?;
    let file = disk.file(loc.file_id);
    let start = loc.offset as usize;
    let bytes = file[start..start + loc.entry_length as usize].to_vec();
    Some(store.read_value(loc, bytes).unwrap())
}

#[test]
fn test_new_kv_store() {
    let kv_store = KVStore::<String>::new(1024);
    assert_eq!(kv_store.segments.sealed_count(), 0);
}

#[test]
fn test_put_single_entry() {
    let mut disk = Disk::new();
    let mut kv_store = KVStore::<String>::new(1024);
    let key = String::from("key1");
    let value = vec![1, 2, 3];

    let result = put(&mut kv_store, &mut disk, key.clone(), value.clone());
    assert!(result.is_ok());

    let retrived_value = get(&kv_store, &mut disk, key);
    assert_eq!(retrived_value, Some(value));
}

#[test]
fn test_put_multiple_entry() {
    let mut disk = Disk::new();
    let mut kv_store = KVStore::<String>::new(1024);
    let key = String::from("key1");
    let value = vec![1, 2, 3];

    let key2 = String::from("key2");
    let value2 = vec![1, 2, 3, 5];

    let result = put(&mut kv_store, &mut disk, key.clone(), value.clone());
    assert!(result.is_ok());

    let result = put(&mut kv_store, &mut disk, key2.clone(), value2.clone());
    assert!(result.is_ok());

    let retrived_value = get(&kv_store, &mut disk, key);
    assert_eq!(retrived_value, Some(value));

    let retrived_value = get(&kv_store, &mut disk, key2);
    assert_eq!(retrived_value, Some(value2));
}

#[test]
fn test_new_kv_non_existence() {
    let mut disk = Disk::new();
    let kv_store = KVStore::<String>::new(1024);

    let retrived_value = get(&kv_store, &mut disk, "non-existence_key".to_string());
    assert_eq!(retrived_value, None);
}

#[test]
fn test_put_override_entry() {
    let mut disk = Disk::new();
    let mut kv_store = KVStore::<String>::new(1024);
    let key = String::from("key1");
    let value = vec![1, 2, 3];

    let value2 = vec![1, 2, 3, 5];

    let result = put(&mut kv_store, &mut disk, key.clone(), value.clone());
    assert!(result.is_ok());

    let result = put(&mut kv_store, &mut disk, key.clone(), value2.clone());
    assert!(result.is_ok());

    let retrived_value = get(&kv_store, &mut disk, key);
    assert_eq!(retrived_value, Some(value2));
}

#[test]
fn test_delete_key() {
    let mut disk = Disk::new();
    let mut kv_store = KVStore::<String>::new(1024);

    let key = "key-to-delete".to_string();
    let value = vec![10, 20, 30];

    put(&mut kv_store, &mut disk, key.clone(), value.clone()).unwrap();
    let retrieved_value = get(&kv_store, &mut disk, key.clone());
    assert_eq!(retrieved_value, Some(value));

    let delete_result = delete(&mut kv_store, &mut disk, key.clone());
    assert!(delete_result.is_ok());

    let retrieved_value_after_delete = get(&kv_store, &mut disk, key);
    assert_eq!(retrieved_value_after_delete, None);
}

#[test]
fn test_segment_rollover() {
    let mut disk = Disk::new();
    let max_segment_size = 30;
    let mut kv_store = KVStore::<String>::new(max_segment_size);

    let key1 = "key1".to_string();
    let value1 = vec![1, 2, 3, 4, 5, 6, 7, 8, 9, 10, 11, 12, 13, 1];
    let key2 = "key2".to_string();
    let value2 = vec![11, 12, 13, 14, 15, 16, 17, 18, 19, 20];

    put(&mut kv_store, &mut disk, key1.clone(), value1.clone()).unwrap();

    assert_eq!(kv_store.segments.sealed_count(), 0);

    put(&mut kv_store, &mut disk, key2.clone(), value2.clone()).unwrap();

    assert_eq!(kv_store.segments.sealed_count(), 1);

    let retrieved_value1 = get(&kv_store, &mut disk, key1);

    assert_eq!(retrieved_value1, Some(value1));

    let retrieved_value2 = get(&kv_store, &mut disk, key2);
    assert_eq!(retrieved_value2, Some(value2));
}

#[test]
fn oversized_first_entry_lands_whole_in_one_segment() {
    let mut disk = Disk::new();
    let mut store = KVStore::<String>::new(30);
    let first_id = store.segments.active_segment_id();
    put(&mut store, &mut disk, "k".to_string(), vec![0; 40]).unwrap();
    assert_eq!(store.segments.active_segment_id(), first_id);
    assert_eq!(disk.file(first_id).len(), 12 + 1 + 40 + 1);
    let loc = store.locate("k".to_string()).unwrap();
    assert_eq!(loc.file_id, first_id);
    assert_eq!(loc.offset, 0);
    assert_eq!(loc.entry_length, 54);
}

#[test]
fn rollover_gives_strictly_larger_ids() {
    let mut disk = Disk::new();
    let mut store = KVStore::<String>::new(1);
    let mut last = store.segments.active_segment_id();
    for i in 0..5u8 {
        put(&mut store, &mut disk, format!("k{}", i), vec![i]).unwrap();
        let now = store.segments.active_segment_id();
        if i > 0 {
            assert!(now > last);
        }
        last = now;
    }
    assert_eq!(store.segments.sealed_count(), 4);
    for i in 0..5u8 {
        assert_eq!(get(&store, &mut disk, format!("k{}", i)), Some(vec![i]));
    }
}

#[test]
fn delete_of_absent_key_still_appends_a_tombstone() {
    let mut disk = Disk::new();
    let mut store = KVStore::<String>::new(1024);
    let id = store.segments.active_segment_id();
    delete(&mut store, &mut disk, "ghost".to_string()).unwrap();
    assert_eq!(disk.file(id).len(), 12 + 5 + 1);
    assert_eq!(get(&store, &mut disk, "ghost".to_string()), None);
}

#[test]
fn short_write_is_reported_and_changes_nothing() {
    let mut store = KVStore::<String>::new(1024);
    let pending = store.prepare_put("k".to_string(), vec![1, 2]).unwrap();
    let short = pending.bytes().len() - 1;
    assert_eq!(store.commit_write(pending, short), Err(StoreError::ShortWrite));
    assert!(store.locate("k".to_string()).is_none());
}

#[test]
fn write_to_a_segment_that_is_not_active_is_refused() {
    let mut store = KVStore::<String>::new(1024);
    let mut pending = store.prepare_put("k".to_string(), vec![1]).unwrap();
    pending.segment_id = pending.segment_id + 1;
    let n = pending.bytes().len();
    assert_eq!(store.commit_write(pending, n), Err(StoreError::UnknownSegment));
}

#[test]
fn read_of_unknown_segment_is_refused() {
    let mut disk = Disk::new();
    let mut store = KVStore::<String>::new(1024);
    put(&mut store, &mut disk, "k".to_string(), vec![1]).unwrap();
    let mut loc = store.locate("k".to_string()).unwrap();
    loc.file_id = loc.file_id + 7;
    assert_eq!(store.read_value(loc, vec![0; 15]), Err(StoreError::UnknownSegment));
}

#[test]
fn short_read_is_a_corrupt_frame() {
    let mut disk = Disk::new();
    let mut store = KVStore::<String>::new(1024);
    put(&mut store, &mut disk, "k".to_string(), vec![1]).unwrap();
    let loc = store.locate("k".to_string()).unwrap();
    let mut bytes = disk.file(loc.file_id).clone();
    bytes.pop();
    assert_eq!(store.read_value(loc, bytes), Err(StoreError::CorruptFrame));
}

#[test]
fn recovery_restores_live_and_deleted_keys() {
    let mut disk = Disk::new();
    let mut store = KVStore::<String>::new(30);
    put(&mut store, &mut disk, "a".to_string(), vec![1; 20]).unwrap();
    put(&mut store, &mut disk, "b".to_string(), vec![2; 20]).unwrap();
    put(&mut store, &mut disk, "a".to_string(), vec![3; 5]).unwrap();
    delete(&mut store, &mut disk, "b".to_string()).unwrap();
    put(&mut store, &mut disk, "c".to_string(), vec![4]).unwrap();
    assert!(store.segments.sealed_count() >= 1);

    let mut found = disk.files.clone();
    found.reverse();
    let mut reopened = KVStore::<String>::recover(30, found).unwrap();
    assert_eq!(reopened.segments.sealed_count(), disk.files.len() - 1);
    assert_eq!(
        reopened.segments.active_segment_id(),
        disk.files.iter().map(|(i, _)| *i).max().unwrap()
    );
    assert_eq!(get(&reopened, &mut disk, "a".to_string()), Some(vec![3; 5]));
    assert_eq!(get(&reopened, &mut disk, "b".to_string()), None);
    assert_eq!(get(&reopened, &mut disk, "c".to_string()), Some(vec![4]));

    put(&mut reopened, &mut disk, "d".to_string(), vec![5]).unwrap();
    assert_eq!(get(&reopened, &mut disk, "d".to_string()), Some(vec![5]));
    assert_eq!(get(&reopened, &mut disk, "a".to_string()), Some(vec![3; 5]));
}

#[test]
fn recovery_of_nothing_is_an_empty_store() {
    let store = KVStore::<String>::recover(1024, Vec::new()).unwrap();
    assert!(store.locate("a".to_string()).is_none());
    assert_eq!(store.segments.sealed_count(), 0);
}

#[test]
fn recovery_refuses_a_torn_file() {
    let mut disk = Disk::new();
    let mut store = KVStore::<String>::new(1024);
    put(&mut store, &mut disk, "a".to_string(), vec![1, 2, 3]).unwrap();
    let mut found = disk.files.clone();
    found[0].1.pop();
    assert_eq!(
        KVStore::<String>::recover(1024, found).err(),
        Some(StoreError::CorruptFrame)
    );
}

#[test]
fn test_new_segment() {
    let segment = Segment::new_segment(1);
    let name = segment_file_name(segment.file_id);

    assert_eq!(segment.file_id, 1);
    assert!(String::from_utf8(name).unwrap().contains("1_segment.data"));
}

#[test]
fn test_append_and_read_single_entry() {
    let mut segment = Segment::new_segment(10);

    let mut entry = kvlog::entry::Entry::new("hello".to_string(), vec![1, 2, 3]);
    let bytes = entry.encode().unwrap();
    let response = segment.append(&bytes, bytes.len()).unwrap();

    assert_eq!(response.file_id, 10);
    assert_eq!(response.offset, 0);

    let read_entry: kvlog::entry::Entry<String> = segment
        .read(response.entry_length as usize, bytes.clone())
        .unwrap();

    assert_eq!(read_entry.key, "hello");
    assert_eq!(read_entry.value.value, vec![1, 2, 3]);
}

#[test]
fn segment_file_names_round_trip() {
    assert_eq!(segment_file_name(0), b"0_segment.data".to_vec());
    assert_eq!(segment_file_name(1700000000), b"1700000000_segment.data".to_vec());
    assert_eq!(parse_segment_file_name(b"1700000000_segment.data"), Some(1700000000));
    assert_eq!(parse_segment_file_name(&segment_file_name(u64::MAX)), Some(u64::MAX));
    assert_eq!(parse_segment_file_name(b"18446744073709551616_segment.data"), None);
    assert_eq!(parse_segment_file_name(b"_segment.data"), None);
    assert_eq!(parse_segment_file_name(b"12_segment.dat"), None);
    assert_eq!(parse_segment_file_name(b"1x_segment.data"), None);
}

#[test]
fn recovery_points_keys_at_their_latest_frames() {
    let mut disk = Disk::new();
    let mut store = KVStore::<String>::new(30);
    put(&mut store, &mut disk, "a".to_string(), vec![1; 20]).unwrap();
    put(&mut store, &mut disk, "a".to_string(), vec![2; 20]).unwrap();
    put(&mut store, &mut disk, "a".to_string(), vec![3]).unwrap();
    let before = store.locate("a".to_string()).unwrap();
    let reopened = KVStore::<String>::recover(30, disk.files.clone()).unwrap();
    assert_eq!(reopened.locate("a".to_string()), Some(before));
}

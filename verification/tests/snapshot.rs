use arrow::array::{Array, StringArray};
use arrow::datatypes::DataType;
use arrow::ipc::reader::FileReader;
use peer_cache::protocol::handle_request;
use peer_cache::snapshot::{
    column_fits, encode_snapshot, encoded, find_in_batches, has_frame, snapshot_path, BatchRead,
    Snapshot, SnapshotError, COLUMN_LIMIT, KEY_FIELD, VALUE_FIELD,
};
use peer_cache::store::CacheStore;
use std::io::Cursor;

#[test]
fn snapshot_path_is_named_after_the_port() {
    assert_eq!(snapshot_path(8080), "node_8080_cache.arrow");
    assert_eq!(snapshot_path(0), "node_0_cache.arrow");
    assert_eq!(snapshot_path(65535), "node_65535_cache.arrow");
}

#[test]
fn schema_fields_are_key_and_value() {
    assert_eq!(KEY_FIELD, "key");
    assert_eq!(VALUE_FIELD, "value");
    assert_eq!(COLUMN_LIMIT, i32::MAX as usize);
}

#[test]
fn snapshot_round_trip() {
    let mut store = CacheStore::new();
    handle_request(&mut store, "SET k1=v1");
    handle_request(&mut store, "SET k2=v2");
    let bytes = encode_snapshot(&store.snapshot()).unwrap();
    assert!(has_frame(&bytes));

    let reader = FileReader::try_new(Cursor::new(bytes), None).unwrap();
    let schema = reader.schema();
    assert_eq!(schema.fields().len(), 2);
    assert_eq!(schema.field(0).name(), "key");
    assert_eq!(schema.field(1).name(), "value");
    assert_eq!(schema.field(0).data_type(), &DataType::Utf8);
    assert_eq!(schema.field(1).data_type(), &DataType::Utf8);
    assert!(!schema.field(0).is_nullable());
    assert!(!schema.field(1).is_nullable());

    let mut pairs: Vec<(String, String)> = Vec::new();
    for batch in reader {
        let batch = batch.unwrap();
        let keys = batch.column(0).as_any().downcast_ref::<StringArray>().unwrap();
        let values = batch.column(1).as_any().downcast_ref::<StringArray>().unwrap();
        for i in 0..keys.len() {
            pairs.push((keys.value(i).to_string(), values.value(i).to_string()));
        }
    }
    pairs.sort();
    assert_eq!(
        pairs,
        vec![("k1".to_string(), "v1".to_string()), ("k2".to_string(), "v2".to_string())]
    );
}

#[test]
fn empty_snapshot_round_trip() {
    let store = CacheStore::new();
    let bytes = encode_snapshot(&store.snapshot()).unwrap();
    assert!(has_frame(&bytes));
    let reader = FileReader::try_new(Cursor::new(bytes), None).unwrap();
    let mut rows = 0;
    for batch in reader {
        rows += batch.unwrap().num_rows();
    }
    assert_eq!(rows, 0);
}

#[test]
fn read_back_snapshot_answers_lookups() {
    let mut store = CacheStore::new();
    store.set("key0".to_string(), "value0".to_string());
    store.set("clé".to_string(), "valeur ü".to_string());
    let bytes = encode_snapshot(&store.snapshot()).unwrap();
    let reader = FileReader::try_new(Cursor::new(bytes), None).unwrap();
    let mut found = None;
    for batch in reader {
        let batch = batch.unwrap();
        let keys = batch.column(0).as_any().downcast_ref::<StringArray>().unwrap();
        let values = batch.column(1).as_any().downcast_ref::<StringArray>().unwrap();
        let keys: Vec<String> = keys.iter().map(|k| k.unwrap().to_string()).collect();
        let values: Vec<String> = values.iter().map(|v| v.unwrap().to_string()).collect();
        let read_back = Snapshot::from_columns(keys, values).unwrap();
        if let Some(value) = read_back.lookup("clé") {
            found = Some(value.clone());
        }
        let batches = vec![BatchRead::Rows(read_back)];
        assert_eq!(find_in_batches(&batches, "key0"), Some(&"value0".to_string()));
        assert_eq!(find_in_batches(&batches, "key1"), None);
    }
    assert_eq!(found, Some("valeur ü".to_string()));
}

#[test]
fn batches_are_searched_in_order() {
    let first = Snapshot::of_columns(vec!["a".to_string()], vec!["1".to_string()]);
    let second = Snapshot::of_columns(
        vec!["b".to_string(), "a".to_string()],
        vec!["2".to_string(), "3".to_string()],
    );
    let batches = vec![BatchRead::NotText, BatchRead::Rows(first), BatchRead::Rows(second)];
    assert_eq!(find_in_batches(&batches, "a"), Some(&"1".to_string()));
    assert_eq!(find_in_batches(&batches, "b"), Some(&"2".to_string()));
    assert_eq!(find_in_batches(&batches, "c"), None);
    assert_eq!(find_in_batches(&Vec::new(), "a"), None);
}

#[test]
fn failed_batch_ends_the_search() {
    let first = Snapshot::of_columns(vec!["a".to_string()], vec!["1".to_string()]);
    let last = Snapshot::of_columns(vec!["b".to_string()], vec!["2".to_string()]);
    let batches = vec![BatchRead::Rows(first), BatchRead::Failed, BatchRead::Rows(last)];
    assert_eq!(find_in_batches(&batches, "a"), Some(&"1".to_string()));
    assert_eq!(find_in_batches(&batches, "b"), None);
}

#[test]
fn has_frame_tests_both_ends() {
    assert!(has_frame(&b"ARROW1ARROW1".to_vec()));
    assert!(has_frame(&b"ARROW1\0\0xxxxARROW1".to_vec()));
    assert!(!has_frame(&b"ARROW1".to_vec()));
    assert!(!has_frame(&b"ARROW1ARROW".to_vec()));
    assert!(!has_frame(&b"ARROW1xxxxxxARROW2".to_vec()));
    assert!(!has_frame(&b"arrow1xxxxxxARROW1".to_vec()));
    assert!(!has_frame(&Vec::new()));
}

#[test]
fn from_columns_needs_equal_lengths() {
    assert!(Snapshot::from_columns(vec!["a".to_string()], Vec::new()).is_none());
    let snapshot =
        Snapshot::from_columns(vec!["a".to_string()], vec!["1".to_string()]).unwrap();
    assert_eq!(snapshot.len(), 1);
    let same = Snapshot::of_columns(vec!["a".to_string()], vec!["1".to_string()]);
    assert_eq!(same.keys(), snapshot.keys());
    assert_eq!(same.values(), snapshot.values());
}

#[test]
fn lookup_finds_the_first_row_of_a_key() {
    let snapshot = Snapshot::from_columns(
        vec!["a".to_string(), "b".to_string(), "a".to_string()],
        vec!["1".to_string(), "2".to_string(), "3".to_string()],
    )
    .unwrap();
    assert_eq!(snapshot.lookup("a"), Some(&"1".to_string()));
    assert_eq!(snapshot.lookup("b"), Some(&"2".to_string()));
    assert_eq!(snapshot.lookup("c"), None);
}

#[test]
fn column_fits_counts_bytes() {
    assert!(column_fits(&Vec::new()));
    assert!(column_fits(&vec!["é".repeat(1000), "x".to_string()]));
}

#[test]
fn oversized_snapshot_is_refused() {
    let half = "x".repeat(0x4000_0000);
    let keys = vec!["a".to_string(), "b".to_string()];
    let values = vec![half.clone(), half];
    assert!(!column_fits(&values));
    let snapshot = Snapshot::from_columns(keys, values).unwrap();
    assert_eq!(encode_snapshot(&snapshot), Err(SnapshotError::TooLarge));
}

#[test]
fn codec_answers_are_carried_through() {
    assert_eq!(encoded(Ok(vec![1, 2, 3])), Ok(vec![1, 2, 3]));
    assert_eq!(
        encoded(Err("Ipc error: closed".to_string())),
        Err(SnapshotError::Codec("Ipc error: closed".to_string()))
    );
}

use catalog_mirror::consumer::classify;
use catalog_mirror::consumer::IngestDecision;
use catalog_mirror::consumer::retry_write;
use catalog_mirror::consumer::IngestStats;
use catalog_mirror::consumer::StreamEvent;
use catalog_mirror::consumer::ingest_step;
use catalog_mirror::store::Store;

fn record(tcin: &str, version: u32, status: &str) -> Vec<u8> {
    format!(
        "{{\"tcin\":\"{}\",\"version\":{},\"status\":\"{}\",\"source_system\":\"s\",\"source_timestamp\":\"t\",\"created_timestamp\":\"t\"}}",
        tcin, version, status
    )
    .into_bytes()
}

#[test]
fn raw_round_trip() {
    let mut store = Store::new();
    let key = b"123:1".to_vec();
    let value = record("123", 1, "APPROVED");
    store.write(&key, &value);
    assert_eq!(store.read_raw(&key), Some(&value));
}

#[test]
fn raw_keeps_undecodable_values_byte_for_byte() {
    let mut store = Store::new();
    let key = b"odd".to_vec();
    let value = b"not a record".to_vec();
    let projected = store.write(&key, &value);
    assert!(!projected);
    assert_eq!(store.read_raw(&key), Some(&value));
    assert_eq!(store.read_projection(&key), None);
}

#[test]
fn projection_matches_decoded_value() {
    let mut store = Store::new();
    let key = b"123:1".to_vec();
    let value = record("123", 1, "UNPUBLISHED");
    let projected = store.write(&key, &value);
    assert!(projected);
    let got = store.read_projection(&key).expect("projection present");
    let p = catalog_mirror::codec::parse_projection(got).expect("projection decodes");
    assert_eq!(p.tcin, b"123".to_vec());
    assert_eq!(p.version, 1);
    assert_eq!(p.status, catalog_mirror::record::Status::Unpublished);
}

#[test]
fn double_write_leaves_state_of_single_write() {
    let mut once = Store::new();
    let mut twice = Store::new();
    let key = b"k".to_vec();
    let value = record("5", 2, "INITIATED");
    once.write(&key, &value);
    twice.write(&key, &value);
    twice.write(&key, &value);
    assert_eq!(once.read_raw(&key), twice.read_raw(&key));
    assert_eq!(once.scan_projection(), twice.scan_projection());
}

#[test]
fn overwrite_keeps_last_value_only() {
    let mut store = Store::new();
    let key = b"k".to_vec();
    let first = record("5", 1, "APPROVED");
    let second = record("5", 2, "UNPUBLISHED");
    store.write(&key, &first);
    store.write(&key, &second);
    assert_eq!(store.read_raw(&key), Some(&second));
    assert_eq!(store.read_projection(&key), Some(&second));
    assert_eq!(store.scan_projection().len(), 1);
}

#[test]
fn undecodable_overwrite_still_lands_in_raw() {
    let mut store = Store::new();
    let key = b"k".to_vec();
    let good = record("5", 1, "APPROVED");
    let bad = b"garbage".to_vec();
    store.write(&key, &good);
    store.write(&key, &bad);
    assert_eq!(store.read_raw(&key), Some(&bad));
}

#[test]
fn absent_keys_read_as_not_found() {
    let store = Store::new();
    assert_eq!(store.read_raw(&b"nope".to_vec()), None);
    assert_eq!(store.read_projection(&b"nope".to_vec()), None);
}

#[test]
fn scan_is_ordered_by_key() {
    let mut store = Store::new();
    for key in [b"d".to_vec(), b"a".to_vec(), b"c".to_vec(), b"b".to_vec()] {
        store.write(&key, &record("1", 1, "APPROVED"));
    }
    let keys: Vec<Vec<u8>> = store.scan_projection().iter().map(|e| e.0.clone()).collect();
    assert_eq!(keys, vec![b"a".to_vec(), b"b".to_vec(), b"c".to_vec(), b"d".to_vec()]);
}

#[test]
fn message_without_key_changes_nothing() {
    let mut store = Store::new();
    let mut stats = IngestStats::new();
    let stored = ingest_step(
        &mut store,
        &mut stats,
        StreamEvent::Message { key: None, value: Some(record("1", 1, "APPROVED")) },
    );
    assert!(!stored);
    assert_eq!(stats.dropped, 1);
    assert!(store.scan_projection().is_empty());
    assert_eq!(store.read_raw(&b"1".to_vec()), None);
}

#[test]
fn message_without_value_changes_nothing() {
    let mut store = Store::new();
    let mut stats = IngestStats::new();
    let key = b"1:1".to_vec();
    let stored = ingest_step(
        &mut store,
        &mut stats,
        StreamEvent::Message { key: Some(key.clone()), value: None },
    );
    assert!(!stored);
    assert_eq!(stats.dropped, 1);
    assert_eq!(store.read_raw(&key), None);
    assert!(store.scan_projection().is_empty());
}

#[test]
fn empty_poll_and_failure_only_touch_counters() {
    let mut store = Store::new();
    let mut stats = IngestStats::new();
    assert!(!ingest_step(&mut store, &mut stats, StreamEvent::Empty));
    assert_eq!(stats.poll_failures, 0);
    assert!(!ingest_step(&mut store, &mut stats, StreamEvent::Failure));
    assert_eq!(stats.poll_failures, 1);
    assert_eq!(stats.dropped, 0);
    assert!(store.scan_projection().is_empty());
}

#[test]
fn well_formed_message_is_stored() {
    let mut store = Store::new();
    let mut stats = IngestStats::new();
    let key = b"9:1".to_vec();
    let value = record("9", 1, "UNPUBLISHED");
    let stored = ingest_step(
        &mut store,
        &mut stats,
        StreamEvent::Message { key: Some(key.clone()), value: Some(value.clone()) },
    );
    assert!(stored);
    assert_eq!(stats.stored, 1);
    assert_eq!(store.read_raw(&key), Some(&value));
}

#[test]
fn reconcile_treats_raw_as_ground_truth() {
    let mut store = Store::new();
    let a = b"a".to_vec();
    let b = b"b".to_vec();
    let good_a = record("1", 1, "UNPUBLISHED");
    let good_b = record("2", 1, "APPROVED");
    let bad = b"opaque bytes".to_vec();
    store.write(&a, &good_a);
    store.write(&b, &good_b);
    store.write(&b, &bad);
    store.reconcile();
    assert_eq!(store.read_projection(&a), Some(&good_a));
    assert_eq!(store.read_raw(&b), Some(&bad));
    assert_eq!(store.read_projection(&b), Some(&good_b));
    let before = store.scan_projection().clone();
    store.reconcile();
    assert_eq!(store.scan_projection(), &before);
}

#[test]
fn write_retries_are_bounded() {
    assert!(retry_write(0));
    assert!(retry_write(2));
    assert!(!retry_write(3));
    assert!(!retry_write(u64::MAX));
}

#[test]
fn classify_maps_each_event() {
    assert!(matches!(classify(StreamEvent::Empty), IngestDecision::Ignore));
    assert!(matches!(classify(StreamEvent::Failure), IngestDecision::Report));
    assert!(matches!(
        classify(StreamEvent::Message { key: None, value: None }),
        IngestDecision::Drop
    ));
    let k = b"k".to_vec();
    let v = b"v".to_vec();
    match classify(StreamEvent::Message { key: Some(k.clone()), value: Some(v.clone()) }) {
        IngestDecision::Persist { key, value } => {
            assert_eq!(key, k);
            assert_eq!(value, v);
        }
        _ => panic!("a whole message is persisted"),
    }
}

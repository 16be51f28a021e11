use catalog_mirror::query::audit;
use catalog_mirror::query::filter_entries;
use catalog_mirror::query::key_to_text;
use catalog_mirror::record::Status;
use catalog_mirror::store::Store;

fn record(tcin: &str, version: u32, status: &str) -> Vec<u8> {
    format!(
        "{{\"tcin\":\"{}\",\"version\":{},\"status\":\"{}\",\"source_system\":\"s\",\"source_timestamp\":\"t\",\"created_timestamp\":\"t\"}}",
        tcin, version, status
    )
    .into_bytes()
}

#[test]
fn filter_keeps_exactly_the_wanted_status_in_key_order() {
    let mut store = Store::new();
    store.write(&b"D".to_vec(), &record("4", 1, "UNPUBLISHED"));
    store.write(&b"A".to_vec(), &record("1", 1, "APPROVED"));
    store.write(&b"C".to_vec(), &record("3", 1, "UNPUBLISHED"));
    store.write(&b"B".to_vec(), &record("2", 1, "INITIATED"));
    let (keys, corrupt) = filter_entries(store.scan_projection(), Status::Unpublished);
    assert_eq!(keys, vec![b"C".to_vec(), b"D".to_vec()]);
    assert_eq!(corrupt, 0);
    let (approved, _) = filter_entries(store.scan_projection(), Status::Approved);
    assert_eq!(approved, vec![b"A".to_vec()]);
}

#[test]
fn one_corrupt_entry_is_counted_and_the_rest_kept() {
    let entries = vec![
        (b"a".to_vec(), record("1", 1, "UNPUBLISHED")),
        (b"b".to_vec(), b"corrupt bytes".to_vec()),
        (b"c".to_vec(), record("3", 1, "UNPUBLISHED")),
        (b"d".to_vec(), record("4", 1, "UNPUBLISHED")),
    ];
    let (keys, corrupt) = filter_entries(&entries, Status::Unpublished);
    assert_eq!(keys, vec![b"a".to_vec(), b"c".to_vec(), b"d".to_vec()]);
    assert_eq!(corrupt, 1);
}

#[test]
fn ingest_then_query_scenario() {
    let mut store = Store::new();
    store.write(
        &b"123:1".to_vec(),
        &b"{\"tcin\":\"123\",\"version\":1,\"status\":\"UNPUBLISHED\",\"source_system\":\"s\",\"source_timestamp\":\"t\",\"created_timestamp\":\"t\"}".to_vec(),
    );
    let (keys, corrupt) = audit(&store, Status::Unpublished);
    assert!(keys.contains(&b"123:1".to_vec()));
    assert_eq!(corrupt, 0);
    store.write(&b"123:2".to_vec(), &record("123", 2, "APPROVED"));
    let (keys, _) = audit(&store, Status::Unpublished);
    assert!(keys.contains(&b"123:1".to_vec()));
    assert!(!keys.contains(&b"123:2".to_vec()));
}

#[test]
fn printable_keys_pass_through_as_text() {
    assert_eq!(key_to_text(&b"123:1".to_vec()), b"123:1".to_vec());
}

#[test]
fn unprintable_keys_fall_back_to_hex() {
    assert_eq!(key_to_text(&vec![0x01, 0xff, 0x4a]), b"01ff4a".to_vec());
    assert_eq!(key_to_text(&vec![]), b"".to_vec());
}

#[test]
fn audit_emits_text_identifiers() {
    let mut store = Store::new();
    store.write(&vec![0x00, 0xab], &record("1", 1, "UNPUBLISHED"));
    let (keys, _) = audit(&store, Status::Unpublished);
    assert_eq!(keys, vec![b"00ab".to_vec()]);
}

use catalog_mirror::codec::parse_projection;
use catalog_mirror::record::Status;

fn decode(s: &str) -> Option<(Vec<u8>, u32, Status)> {
    parse_projection(&s.as_bytes().to_vec()).map(|p| (p.tcin, p.version, p.status))
}

#[test]
fn full_record_decodes_to_projection() {
    let v = decode(
        "{\"tcin\":\"123\",\"version\":1,\"status\":\"UNPUBLISHED\",\"source_system\":\"s\",\"source_timestamp\":\"t\",\"created_timestamp\":\"t\"}",
    );
    let (tcin, version, status) = v.expect("a full record decodes");
    assert_eq!(tcin, b"123".to_vec());
    assert_eq!(version, 1);
    assert_eq!(status, Status::Unpublished);
}

#[test]
fn member_order_does_not_matter() {
    let v = decode("{\"status\":\"APPROVED\",\"tcin\":\"77\",\"version\":4}");
    let (tcin, version, status) = v.expect("order-independent decode");
    assert_eq!(tcin, b"77".to_vec());
    assert_eq!(version, 4);
    assert_eq!(status, Status::Approved);
}

#[test]
fn whitespace_is_tolerated() {
    let v = decode(" {\t\"tcin\" : \"a b\" ,\n \"version\": 0 , \"status\" : \"INITIATED\" } \n");
    let (tcin, version, status) = v.expect("whitespace-tolerant decode");
    assert_eq!(tcin, b"a b".to_vec());
    assert_eq!(version, 0);
    assert_eq!(status, Status::Initiated);
}

#[test]
fn missing_member_is_rejected() {
    assert!(decode("{\"tcin\":\"1\",\"version\":2}").is_none());
    assert!(decode("{\"tcin\":\"1\",\"status\":\"APPROVED\"}").is_none());
    assert!(decode("{\"version\":2,\"status\":\"APPROVED\"}").is_none());
    assert!(decode("{}").is_none());
}

#[test]
fn unknown_status_is_rejected() {
    assert!(decode("{\"tcin\":\"1\",\"version\":2,\"status\":\"RETIRED\"}").is_none());
    assert!(decode("{\"tcin\":\"1\",\"version\":2,\"status\":\"unpublished\"}").is_none());
}

#[test]
fn wrongly_typed_members_are_rejected() {
    assert!(decode("{\"tcin\":1,\"version\":2,\"status\":\"APPROVED\"}").is_none());
    assert!(decode("{\"tcin\":\"1\",\"version\":\"2\",\"status\":\"APPROVED\"}").is_none());
    assert!(decode("{\"tcin\":\"1\",\"version\":2,\"status\":3}").is_none());
}

#[test]
fn version_fits_thirty_two_bits() {
    let v = decode("{\"tcin\":\"1\",\"version\":4294967295,\"status\":\"APPROVED\"}");
    assert_eq!(v.expect("largest version").1, 4294967295);
    assert!(decode("{\"tcin\":\"1\",\"version\":4294967296,\"status\":\"APPROVED\"}").is_none());
}

#[test]
fn first_of_repeated_members_counts() {
    let v = decode("{\"tcin\":\"first\",\"tcin\":\"second\",\"version\":1,\"status\":\"APPROVED\"}");
    assert_eq!(v.expect("repeated member").0, b"first".to_vec());
}

#[test]
fn malformed_text_is_rejected() {
    assert!(decode("").is_none());
    assert!(decode("not an object").is_none());
    assert!(decode("{\"tcin\":\"1\",\"version\":1,\"status\":\"APPROVED\"").is_none());
    assert!(decode("{\"tcin\":\"1\",\"version\":1,\"status\":\"APPROVED\"} x").is_none());
    assert!(decode("{\"tcin\":\"a\\\"b\",\"version\":1,\"status\":\"APPROVED\"}").is_none());
    assert!(decode("{\"tcin\" \"1\",\"version\":1,\"status\":\"APPROVED\"}").is_none());
}

#[test]
fn extra_members_are_read_past() {
    let v = decode("{\"note\":\"x\",\"tcin\":\"9\",\"count\":12,\"version\":3,\"status\":\"UNPUBLISHED\"}");
    let (tcin, version, status) = v.expect("extra members ignored");
    assert_eq!(tcin, b"9".to_vec());
    assert_eq!(version, 3);
    assert_eq!(status, Status::Unpublished);
}

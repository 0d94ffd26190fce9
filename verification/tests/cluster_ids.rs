//! Cluster ids.
use yotepack::cluster::{scan_disk_cluster_id, ClusterId, CLUSTER_ID_FILENAME};
use yotepack::errors::StorageError;

#[test]
fn test_cluster_id_roundtrip() {
    let id = ClusterId::generate();
    let contents = id.write_to();
    let read = ClusterId::read_from(Some(contents.as_str()), "/disk").unwrap().unwrap();
    assert_eq!(id, read);
}

#[test]
fn test_cluster_id_missing() {
    let result = ClusterId::read_from(None, "/disk").unwrap();
    assert!(result.is_none());
}

#[test]
fn test_scan_disk_generates_on_missing() {
    let choice = scan_disk_cluster_id(None, &None, 0, ClusterId::generate()).unwrap();
    assert!(choice.write);
    let contents = choice.id.write_to();
    let read = ClusterId::read_from(Some(contents.as_str()), "/disk_0").unwrap().unwrap();
    assert_eq!(choice.id, read);
}

#[test]
fn test_scan_disk_accepts_existing() {
    let existing = ClusterId::generate();
    let fresh = ClusterId::generate();
    let choice = scan_disk_cluster_id(Some(existing), &Some(existing), 0, fresh).unwrap();
    assert_eq!(choice.id, existing);
    assert!(!choice.write);
}

#[test]
fn test_scan_disk_rejects_mismatch() {
    let on_disk = ClusterId::generate();
    let expected = ClusterId::generate();
    let result = scan_disk_cluster_id(Some(on_disk), &Some(expected), 0, ClusterId::generate());
    assert!(result.is_err());
}

#[test]
fn a_replaced_disk_gets_the_expected_id() {
    let expected = ClusterId(7);
    let choice = scan_disk_cluster_id(None, &Some(expected), 3, ClusterId(9)).unwrap();
    assert_eq!(choice.id, expected);
    assert!(choice.write);
}

#[test]
fn the_text_of_an_id_is_that_of_a_uuid() {
    let id = ClusterId(0x0123456789abcdef0123456789abcdef);
    assert_eq!(id.text(), "01234567-89ab-cdef-0123-456789abcdef");
    assert_eq!(ClusterId::parse("01234567-89AB-cdef-0123-456789abcdef"), Ok(id));
    assert!(ClusterId::parse("not an id").is_err());
    assert_eq!(CLUSTER_ID_FILENAME, ".cluster_id");
    let padded = format!("  {}\n\n", id.text());
    assert_eq!(ClusterId::read_from(Some(padded.as_str()), "/d").unwrap(), Some(id));
    assert!(matches!(
        ClusterId::read_from(Some("junk"), "/d"),
        Err(StorageError::Transient(_))
    ));
}

#[test]
fn a_mismatch_names_both_ids() {
    let error = ClusterId(1).validate(&Some(ClusterId(2)), 4).unwrap_err();
    assert_eq!(
        error.message(),
        "cluster ID mismatch on disk 4: expected=00000000-0000-0000-0000-000000000002, \
         actual=00000000-0000-0000-0000-000000000001"
    );
    assert!(ClusterId(1).validate(&None, 4).is_ok());
}

#[test]
fn a_generated_id_is_that_of_a_random_uuid() {
    for _ in 0..100 {
        let text = ClusterId::generate().text();
        let chars: Vec<char> = text.chars().collect();
        assert_eq!(chars[14], '4');
        assert!("89ab".contains(chars[19]));
    }
    assert_ne!(ClusterId::generate(), ClusterId::generate());
}

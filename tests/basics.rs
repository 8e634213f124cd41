use index_resolver::error::{Code, IndexResolverError};
use index_resolver::index_uid::{is_uid_char, is_valid_index_uid, MAX_INDEX_UID_LEN};
use index_resolver::is_empty_db;
use index_resolver::registry::UuidRegistry;

#[test]
fn empty_db_when_missing() {
    assert!(is_empty_db(false, None));
    assert!(is_empty_db(false, Some(3)));
}

#[test]
fn empty_db_when_directory_has_no_entries() {
    assert!(is_empty_db(true, Some(0)));
}

#[test]
fn non_empty_db_when_directory_has_entries() {
    assert!(!is_empty_db(true, Some(1)));
}

#[test]
fn empty_db_when_listing_fails() {
    assert!(is_empty_db(true, None));
}

#[test]
fn uid_chars() {
    assert!(is_uid_char('a'));
    assert!(is_uid_char('Z'));
    assert!(is_uid_char('7'));
    assert!(is_uid_char('-'));
    assert!(is_uid_char('_'));
    assert!(!is_uid_char(' '));
    assert!(!is_uid_char('.'));
    assert!(!is_uid_char('é'));
}

#[test]
fn valid_uids() {
    assert!(is_valid_index_uid("movies"));
    assert!(is_valid_index_uid("movies_2-fr"));
    assert!(is_valid_index_uid(&"a".repeat(MAX_INDEX_UID_LEN)));
}

#[test]
fn invalid_uids() {
    assert!(!is_valid_index_uid(""));
    assert!(!is_valid_index_uid("my movies"));
    assert!(!is_valid_index_uid("movies!"));
    assert!(!is_valid_index_uid("café"));
    assert!(!is_valid_index_uid(&"a".repeat(MAX_INDEX_UID_LEN + 1)));
}

#[test]
fn error_codes() {
    let cases = vec![
        (IndexResolverError::IndexError(Code::DocumentNotFound, "x".to_string()), Code::DocumentNotFound),
        (IndexResolverError::IndexAlreadyExists("a".to_string()), Code::IndexAlreadyExists),
        (IndexResolverError::UnexistingIndex("a".to_string()), Code::IndexNotFound),
        (IndexResolverError::ExistingPrimaryKey, Code::PrimaryKeyAlreadyPresent),
        (IndexResolverError::Internal("io".to_string()), Code::Internal),
        (IndexResolverError::UuidAlreadyExists(7), Code::CreateIndex),
        (IndexResolverError::Milli(Code::MissingPrimaryKey, "m".to_string()), Code::MissingPrimaryKey),
        (IndexResolverError::BadlyFormatted("a b".to_string()), Code::InvalidIndexUid),
    ];
    for (e, c) in cases {
        assert_eq!(e.error_code(), c);
    }
}

#[test]
fn registry_insert_get_list() {
    let mut r = UuidRegistry::new();
    assert_eq!(r.insert("a", 1), Ok(()));
    assert_eq!(r.insert("b", 2), Ok(()));
    assert_eq!(r.get("a"), Ok(1));
    assert_eq!(r.get("b"), Ok(2));
    assert_eq!(r.get("c"), Err(IndexResolverError::UnexistingIndex("c".to_string())));
    assert_eq!(r.list(), vec![("a".to_string(), 1), ("b".to_string(), 2)]);
    assert_eq!(r.len(), 2);
}

#[test]
fn registry_insert_refuses_taken_name_and_uuid() {
    let mut r = UuidRegistry::new();
    assert_eq!(r.insert("a", 1), Ok(()));
    assert_eq!(r.insert("a", 2), Err(IndexResolverError::IndexAlreadyExists("a".to_string())));
    assert_eq!(r.insert("b", 1), Err(IndexResolverError::UuidAlreadyExists(1)));
    assert_eq!(r.list(), vec![("a".to_string(), 1)]);
}

#[test]
fn registry_remove_retires_uuid() {
    let mut r = UuidRegistry::new();
    assert_eq!(r.insert("a", 1), Ok(()));
    assert_eq!(r.remove("a"), Ok(1));
    assert_eq!(r.remove("a"), Err(IndexResolverError::UnexistingIndex("a".to_string())));
    assert!(r.is_used(1));
    assert_eq!(r.insert("a", 1), Err(IndexResolverError::UuidAlreadyExists(1)));
    assert_eq!(r.insert("a", 2), Ok(()));
    assert_eq!(r.get("a"), Ok(2));
}

#[test]
fn registry_rename() {
    let mut r = UuidRegistry::new();
    assert_eq!(r.insert("a", 1), Ok(()));
    assert_eq!(r.insert("b", 2), Ok(()));
    assert_eq!(r.rename("a", "b"), Err(IndexResolverError::IndexAlreadyExists("b".to_string())));
    assert_eq!(r.rename("z", "y"), Err(IndexResolverError::UnexistingIndex("z".to_string())));
    assert_eq!(r.rename("a", "c"), Ok(()));
    assert_eq!(r.list(), vec![("c".to_string(), 1), ("b".to_string(), 2)]);
}

use index_resolver::error::IndexResolverError;
use index_resolver::resolver::IndexResolver;

fn names(r: &IndexResolver) -> Vec<(String, u128)> {
    r.list_indexes().into_iter().map(|i| (i.name, i.uuid)).collect()
}

#[test]
fn second_create_of_a_name_fails() {
    let mut r = IndexResolver::new();
    assert_eq!(r.create_index_with("foo", 1, None, Ok(())), Ok(1));
    assert_eq!(
        r.create_index_with("foo", 2, None, Ok(())),
        Err(IndexResolverError::IndexAlreadyExists("foo".to_string()))
    );
    assert_eq!(
        r.create_index("foo", None),
        Err(IndexResolverError::IndexAlreadyExists("foo".to_string()))
    );
    assert_eq!(names(&r), vec![("foo".to_string(), 1)]);
}

#[test]
fn many_creates_of_one_name_one_success() {
    let mut r = IndexResolver::new();
    let mut ok = 0;
    for _ in 0..10 {
        match r.create_index("foo", None) {
            Ok(_) => ok += 1,
            Err(e) => assert_eq!(e, IndexResolverError::IndexAlreadyExists("foo".to_string())),
        }
    }
    assert_eq!(ok, 1);
}

#[test]
fn failed_allocation_leaves_nothing() {
    let mut r = IndexResolver::new();
    assert_eq!(
        r.create_index_with("foo", 1, Some("id".to_string()), Err("disk full".to_string())),
        Err(IndexResolverError::Internal("disk full".to_string()))
    );
    assert!(r.list_indexes().is_empty());
    assert_eq!(r.get_index("foo").err(), Some(IndexResolverError::UnexistingIndex("foo".to_string())));
    assert_eq!(r.create_index_with("foo", 1, None, Ok(())), Ok(1));
}

#[test]
fn uuid_collision_leaves_nothing() {
    let mut r = IndexResolver::new();
    assert_eq!(r.create_index_with("a", 1, None, Ok(())), Ok(1));
    assert_eq!(
        r.create_index_with("b", 1, None, Ok(())),
        Err(IndexResolverError::UuidAlreadyExists(1))
    );
    assert_eq!(names(&r), vec![("a".to_string(), 1)]);
}

#[test]
fn name_reuse_after_delete_gets_new_uuid() {
    let mut r = IndexResolver::new();
    let first = r.create_index("foo", None).unwrap();
    assert_eq!(r.delete_index("foo"), Ok(first));
    let second = r.create_index("foo", None).unwrap();
    assert_ne!(first, second);
    assert_eq!(r.get_index("foo").unwrap().uuid, second);
}

#[test]
fn deleted_uuid_is_never_reused() {
    let mut r = IndexResolver::new();
    assert_eq!(r.create_index_with("foo", 5, None, Ok(())), Ok(5));
    assert_eq!(r.delete_index("foo"), Ok(5));
    assert_eq!(
        r.create_index_with("foo", 5, None, Ok(())),
        Err(IndexResolverError::UuidAlreadyExists(5))
    );
    assert_eq!(r.create_index_with("foo", 6, None, Ok(())), Ok(6));
}

#[test]
fn primary_key_is_set_once() {
    let mut r = IndexResolver::new();
    r.create_index_with("foo", 1, None, Ok(())).unwrap();
    assert_eq!(r.get_index("foo").unwrap().primary_key, None);
    assert_eq!(r.set_primary_key("foo", "a".to_string()), Ok(()));
    assert_eq!(
        r.set_primary_key("foo", "b".to_string()),
        Err(IndexResolverError::ExistingPrimaryKey)
    );
    assert_eq!(r.set_primary_key("foo", "a".to_string()), Ok(()));
    assert_eq!(r.get_index("foo").unwrap().primary_key, Some("a".to_string()));
}

#[test]
fn primary_key_given_at_creation() {
    let mut r = IndexResolver::new();
    r.create_index_with("foo", 1, Some("id".to_string()), Ok(())).unwrap();
    assert_eq!(r.get_index("foo").unwrap().primary_key, Some("id".to_string()));
    assert_eq!(
        r.set_primary_key("foo", "other".to_string()),
        Err(IndexResolverError::ExistingPrimaryKey)
    );
}

#[test]
fn set_primary_key_of_missing_index() {
    let mut r = IndexResolver::new();
    assert_eq!(
        r.set_primary_key("nope", "a".to_string()),
        Err(IndexResolverError::UnexistingIndex("nope".to_string()))
    );
}

#[test]
fn get_after_delete_fails() {
    let mut r = IndexResolver::new();
    r.create_index_with("foo", 1, None, Ok(())).unwrap();
    assert_eq!(r.get_index("foo").unwrap().uuid, 1);
    assert_eq!(r.delete_index("foo"), Ok(1));
    assert_eq!(r.get_index("foo").err(), Some(IndexResolverError::UnexistingIndex("foo".to_string())));
    assert_eq!(r.delete_index("foo"), Err(IndexResolverError::UnexistingIndex("foo".to_string())));
}

#[test]
fn listing_after_creates_and_deletes() {
    let mut r = IndexResolver::new();
    for (i, n) in ["a", "b", "c", "d", "e"].iter().enumerate() {
        assert_eq!(r.create_index_with(n, i as u128 + 10, None, Ok(())), Ok(i as u128 + 10));
    }
    assert_eq!(r.delete_index("b"), Ok(11));
    assert_eq!(r.delete_index("d"), Ok(13));
    assert_eq!(
        names(&r),
        vec![("a".to_string(), 10), ("c".to_string(), 12), ("e".to_string(), 14)]
    );
}

#[test]
fn malformed_names_are_rejected() {
    let mut r = IndexResolver::new();
    let long = "x".repeat(401);
    for bad in ["", "foo bar", "foo/bar", "ïndex", long.as_str()] {
        assert_eq!(
            r.create_index_with(bad, 1, None, Ok(())),
            Err(IndexResolverError::BadlyFormatted(bad.to_string()))
        );
        assert_eq!(
            r.create_index(bad, None),
            Err(IndexResolverError::BadlyFormatted(bad.to_string()))
        );
    }
    assert!(r.list_indexes().is_empty());
    assert_eq!(r.create_index_with("ok", 1, None, Ok(())), Ok(1));
}

#[test]
fn get_or_create_existing_ignores_primary_key() {
    let mut r = IndexResolver::new();
    r.create_index_with("foo", 1, Some("id".to_string()), Ok(())).unwrap();
    let h = r.get_or_create_index_with("foo", 2, Some("other".to_string()), Ok(())).unwrap();
    assert_eq!(h.uuid, 1);
    assert_eq!(h.primary_key, Some("id".to_string()));
    assert_eq!(r.list_indexes().len(), 1);
}

#[test]
fn get_or_create_missing_creates() {
    let mut r = IndexResolver::new();
    let h = r.get_or_create_index_with("foo", 2, Some("pk".to_string()), Ok(())).unwrap();
    assert_eq!(h.uuid, 2);
    assert_eq!(h.primary_key, Some("pk".to_string()));
    let again = r.get_or_create_index("foo", None).unwrap();
    assert_eq!(again.uuid, 2);
    let fresh = r.get_or_create_index("bar", None).unwrap();
    assert_ne!(fresh.uuid, 2);
}

#[test]
fn get_or_create_reports_failures() {
    let mut r = IndexResolver::new();
    assert_eq!(
        r.get_or_create_index_with("foo", 2, None, Err("no space".to_string())).err(),
        Some(IndexResolverError::Internal("no space".to_string()))
    );
    assert_eq!(
        r.get_or_create_index("a b", None).err(),
        Some(IndexResolverError::BadlyFormatted("a b".to_string()))
    );
    assert!(r.list_indexes().is_empty());
}

#[test]
fn rename_moves_binding() {
    let mut r = IndexResolver::new();
    r.create_index_with("old", 1, Some("id".to_string()), Ok(())).unwrap();
    r.create_index_with("other", 2, None, Ok(())).unwrap();
    assert_eq!(
        r.rename_index("old", "bad name"),
        Err(IndexResolverError::BadlyFormatted("bad name".to_string()))
    );
    assert_eq!(
        r.rename_index("old", "other"),
        Err(IndexResolverError::IndexAlreadyExists("other".to_string()))
    );
    assert_eq!(
        r.rename_index("nope", "new"),
        Err(IndexResolverError::UnexistingIndex("nope".to_string()))
    );
    assert_eq!(r.rename_index("old", "new"), Ok(()));
    let h = r.get_index("new").unwrap();
    assert_eq!(h.uuid, 1);
    assert_eq!(h.primary_key, Some("id".to_string()));
    assert!(r.get_index("old").is_err());
    r.create_index_with("old", 3, None, Ok(())).unwrap();
    assert_eq!(
        names(&r),
        vec![("new".to_string(), 1), ("other".to_string(), 2), ("old".to_string(), 3)]
    );
}

#[test]
fn random_uuids_differ() {
    let mut r = IndexResolver::new();
    let a = r.create_index("a", None).unwrap();
    let b = r.create_index("b", None).unwrap();
    assert_ne!(a, b);
}

#[test]
fn retired_uuid_rolls_back_new_storage() {
    let mut r = IndexResolver::new();
    assert_eq!(r.create_index_with("a", 5, None, Ok(())), Ok(5));
    assert_eq!(r.delete_index("a"), Ok(5));
    assert_eq!(
        r.create_index_with("b", 5, Some("id".to_string()), Ok(())),
        Err(IndexResolverError::UuidAlreadyExists(5))
    );
    assert!(r.list_indexes().is_empty());
    assert_eq!(r.create_index_with("b", 6, None, Ok(())), Ok(6));
    assert_eq!(r.get_index("b").unwrap().primary_key, None);
}

#[test]
fn allocation_failure_is_reported_with_its_cause() {
    let mut r = IndexResolver::new();
    assert_eq!(r.create_index_with("a", 5, None, Ok(())), Ok(5));
    assert_eq!(r.delete_index("a"), Ok(5));
    assert_eq!(
        r.create_index_with("b", 5, None, Err("read-only".to_string())),
        Err(IndexResolverError::Internal("read-only".to_string()))
    );
    assert_eq!(
        r.create_index_with("c", 7, None, Ok(())),
        Ok(7)
    );
    assert_eq!(
        r.create_index_with("d", 7, None, Err("read-only".to_string())),
        Err(IndexResolverError::UuidAlreadyExists(7))
    );
}

#[test]
fn first_create_on_new_resolver_succeeds() {
    let mut r = IndexResolver::new();
    assert!(r.create_index("foo", None).is_ok());
    let mut r = IndexResolver::new();
    assert!(r.get_or_create_index("foo", None).is_ok());
}

#[test]
fn failed_storage_removal_keeps_index() {
    let mut r = IndexResolver::new();
    assert_eq!(r.create_index_with("foo", 3, None, Ok(())), Ok(3));
    assert_eq!(
        r.delete_index_with("foo", Err("busy".to_string())),
        Err(IndexResolverError::Internal("busy".to_string()))
    );
    assert_eq!(r.get_index("foo").unwrap().uuid, 3);
    assert_eq!(
        r.delete_index_with("nope", Err("busy".to_string())),
        Err(IndexResolverError::UnexistingIndex("nope".to_string()))
    );
    assert_eq!(r.delete_index_with("foo", Ok(())), Ok(3));
    assert!(r.list_indexes().is_empty());
}

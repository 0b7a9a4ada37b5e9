//! The in-memory object store, and the decisions of the local one.
use otmp::hash::Sha256;
use otmp::local_store::{
    check_unchanged, deletes, grown, head_version, metadata_for, on_create_head, on_replace_head,
    FileFacts, LocalObjectStore, RangeMoment,
};
use otmp::storage::{
    validate_range_request, ConditionalWriteOutcome, InMemoryObjectStore, InjectedConditional,
    ObjectMetadata, ObjectVersion, StorageError, StoredRange,
};

fn key(text: &str) -> String {
    text.to_string()
}

#[test]
fn a_read_gives_back_what_was_created() {
    let mut store = InMemoryObjectStore::new();
    let created = store.create(&key("a"), b"bytes".to_vec(), None).unwrap();
    assert_eq!(created.length, 5);
    assert_eq!(created.sha256, Sha256::digest(b"bytes"));
    let object = store.read(&key("a")).unwrap();
    assert_eq!(object.bytes, b"bytes");
    assert_eq!(object.version, created.version);
    assert_eq!(store.read_count(), 1);
    assert!(matches!(store.read(&key("b")), Err(StorageError::NotFound(k)) if k == "b"));
    assert_eq!(store.read_count(), 2);
    assert_eq!(store.listing_count(), 0);
}

#[test]
fn objects_are_immutable_and_bounded() {
    let mut store = InMemoryObjectStore::new();
    assert!(matches!(
        store.create(&key("a"), vec![0; 5], Some(4)),
        Err(StorageError::MaximumLengthExceeded)
    ));
    store.create(&key("a"), vec![0; 4], Some(4)).unwrap();
    assert!(matches!(
        store.create(&key("a"), vec![1; 4], None),
        Err(StorageError::ImmutableConflict(_))
    ));
    assert_eq!(store.read(&key("a")).unwrap().bytes, vec![0; 4]);
}

#[test]
fn one_of_two_writers_wins_the_head() {
    let mut store = InMemoryObjectStore::new();
    let first = match store.create_head(b"one") {
        ConditionalWriteOutcome::Applied { new_version } => new_version,
        other => panic!("{other:?}"),
    };
    assert!(matches!(
        store.create_head(b"other"),
        ConditionalWriteOutcome::Conflict { current_version: Some(_) }
    ));
    assert!(matches!(
        store.replace_head(&first, b"two"),
        ConditionalWriteOutcome::Applied { .. }
    ));
    assert!(matches!(
        store.replace_head(&first, b"three"),
        ConditionalWriteOutcome::Conflict { .. }
    ));
    assert_eq!(store.read(&key("_otmp/HEAD")).unwrap().bytes, b"two");
}

#[test]
fn injected_faults_answer_the_next_conditional_writes() {
    let mut store = InMemoryObjectStore::new();
    store.inject_conditional(InjectedConditional::Conflict);
    store.inject_conditional(InjectedConditional::IndeterminateBefore);
    store.inject_conditional(InjectedConditional::IndeterminateAfter);
    assert!(matches!(
        store.create_head(b"one"),
        ConditionalWriteOutcome::Conflict { current_version: None }
    ));
    assert!(matches!(
        store.create_head(b"one"),
        ConditionalWriteOutcome::Indeterminate { .. }
    ));
    assert!(store.read(&key("_otmp/HEAD")).is_err());
    assert!(matches!(
        store.create_head(b"one"),
        ConditionalWriteOutcome::Indeterminate { .. }
    ));
    assert_eq!(store.read(&key("_otmp/HEAD")).unwrap().bytes, b"one");
}

#[test]
fn ranges_are_pinned_to_one_revision() {
    let mut store = InMemoryObjectStore::new();
    store.create(&key("a"), b"0123456789".to_vec(), None).unwrap();
    let pinned = store.stat(&key("a")).unwrap();
    assert_eq!(pinned.length, 10);
    let range = store.read_range(&key("a"), 2..5, &pinned).unwrap();
    assert_eq!(range.bytes, b"234");
    range.validate(&pinned, &(2..5)).unwrap();
    assert!(range.validate(&pinned, &(2..6)).is_err());
    assert!(store.read_range(&key("a"), 2..11, &pinned).is_err());
    store.replace_object_for_test(&key("a"), b"0123456789".to_vec());
    assert!(matches!(
        store.read_range(&key("a"), 2..5, &pinned),
        Err(StorageError::VerificationFailed(_))
    ));
}

#[test]
fn range_requests_stay_within_the_object() {
    let metadata = ObjectMetadata { length: 10, version: ObjectVersion::from_opaque(key("v")) };
    validate_range_request(&metadata, &(0..10)).unwrap();
    assert!(validate_range_request(&metadata, &(0..11)).is_err());
    assert!(validate_range_request(&metadata, &std::ops::Range { start: 5, end: 4 }).is_err());
    let short = StoredRange { bytes: vec![0; 2], range: 0..3, metadata: metadata.clone() };
    assert!(short.validate(&metadata, &(0..3)).is_err());
}

#[test]
fn deletion_asks_for_the_version() {
    let mut store = InMemoryObjectStore::new();
    let created = store.create(&key("a"), b"one".to_vec(), None).unwrap();
    let other = ObjectVersion::from_sha256(Sha256::digest(b"two"));
    assert!(!store.delete_if_version(&key("a"), &other).unwrap());
    assert!(store.delete_if_version(&key("a"), &created.version).unwrap());
    assert!(!store.delete_if_version(&key("a"), &created.version).unwrap());
}

#[test]
fn readable_objects_are_confirmed_by_digest_and_length() {
    let mut store = InMemoryObjectStore::new();
    let created = store.create(&key("a"), b"one".to_vec(), None).unwrap();
    let version = store.confirm_readable(&key("a"), Sha256::digest(b"one"), 3).unwrap();
    assert_eq!(version, created.version);
    let error = store.confirm_readable(&key("a"), Sha256::digest(b"one"), 4).unwrap_err();
    assert_eq!(error.message(), "stored object failed exact byte verification: object verification failed for a");
    assert!(store.confirm_readable(&key("a"), Sha256::digest(b"two"), 3).is_err());
}

#[test]
fn storage_errors_have_codes() {
    let all = [
        (StorageError::NotFound(key("a")), "OTMP_OBJECT_NOT_FOUND", false),
        (StorageError::ImmutableConflict(key("a")), "OTMP_IMMUTABLE_OBJECT_CONFLICT", false),
        (StorageError::UnsafeKey(key("a")), "OTMP_UNSAFE_URI", false),
        (StorageError::MaximumLengthExceeded, "OTMP_FINGERPRINT_MISMATCH", false),
        (StorageError::VerificationFailed(key("a")), "OTMP_FINGERPRINT_MISMATCH", false),
        (StorageError::Io(key("a")), "OTMP_STORAGE_ERROR", true),
        (StorageError::Injected(key("a")), "OTMP_STORAGE_ERROR", true),
        (StorageError::Unsupported(key("a")), "OTMP_STORAGE_ERROR", false),
    ];
    for (error, code, retryable) in all {
        assert_eq!(error.code(), code);
        assert_eq!(error.retryable(), retryable);
    }
    assert_eq!(StorageError::NotFound(key("a")).message(), "object not found: a");
}

#[test]
fn content_versions_are_lowercase_digests() {
    let version = ObjectVersion::from_sha256(Sha256::digest(b""));
    assert_eq!(
        version.as_opaque(),
        "e3b0c44298fc1c149afbf4c8996fb92427ae41e4649b934ca495991b7852b855"
    );
}

#[test]
fn local_paths_lie_below_the_root() {
    let store = LocalObjectStore::new(key("/tables/t"));
    assert_eq!(store.root(), "/tables/t");
    assert_eq!(store.path("_otmp/HEAD"), "/tables/t/_otmp/HEAD");
}

#[test]
fn a_local_file_that_changed_is_not_read_on() {
    let facts = |modified_nanos: u32| FileFacts {
        device: 1,
        inode: 2,
        length: 10,
        modified_seconds: 3,
        modified_nanos,
        changed_seconds: -4,
        changed_nanos: 5,
    };
    let before = metadata_for(&facts(1));
    assert_eq!(before.length, 10);
    assert_eq!(before.version.as_opaque(), "otmp-local-range-v1:1:2:10:3:1:-4:5");
    check_unchanged(&metadata_for(&facts(1)), &before, RangeMoment::Before).unwrap();
    assert!(check_unchanged(&metadata_for(&facts(2)), &before, RangeMoment::During).is_err());
}

#[test]
fn local_copies_stop_at_their_maximum() {
    assert_eq!(grown(4, 3, Some(7)).unwrap(), 7);
    assert!(matches!(grown(4, 4, Some(7)), Err(StorageError::MaximumLengthExceeded)));
    assert_eq!(grown(4, 4, None).unwrap(), 8);
    assert!(grown(u64::MAX, 1, None).is_err());
}

#[test]
fn local_heads_change_only_from_the_expected_version() {
    let one = head_version(b"one");
    assert_eq!(one, ObjectVersion::from_sha256(Sha256::digest(b"one")));
    assert!(on_create_head(false, None).is_none());
    assert!(matches!(
        on_create_head(true, Some(b"one".to_vec())),
        Some(ConditionalWriteOutcome::Conflict { current_version: Some(v) }) if v == one
    ));
    assert!(on_replace_head(Some(b"one".to_vec()), &one).is_none());
    assert!(matches!(
        on_replace_head(Some(b"two".to_vec()), &one),
        Some(ConditionalWriteOutcome::Conflict { current_version: Some(_) })
    ));
    assert!(matches!(
        on_replace_head(None, &one),
        Some(ConditionalWriteOutcome::Conflict { current_version: None })
    ));
    assert!(deletes(Some(b"one".to_vec()), &one));
    assert!(!deletes(Some(b"two".to_vec()), &one));
    assert!(!deletes(None, &one));
}

#[test]
fn faults_are_met_in_the_order_of_their_injection() {
    let mut store = InMemoryObjectStore::new();
    store.inject_conditional(InjectedConditional::Conflict);
    assert!(matches!(store.create_head(b"a"), ConditionalWriteOutcome::Conflict { .. }));
    store.inject_conditional(InjectedConditional::IndeterminateBefore);
    store.inject_conditional(InjectedConditional::Conflict);
    assert!(matches!(store.create_head(b"a"), ConditionalWriteOutcome::Indeterminate { .. }));
    assert!(matches!(store.create_head(b"a"), ConditionalWriteOutcome::Conflict { .. }));
    assert!(matches!(store.create_head(b"a"), ConditionalWriteOutcome::Applied { .. }));
    assert_eq!(store.read_count(), 0);
    assert!(store.read(&key("_otmp/HEAD")).is_ok());
    assert!(store.read(&key("absent")).is_err());
    assert_eq!(store.read_count(), 2);
}

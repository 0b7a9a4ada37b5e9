//! Append requests: what is refused, what identifies them, and what they commit.
use otmp::append::{
    derived_summary, staged_match_result, timestamp_ms, validate_request_against,
    validate_request_for_write, validate_staged, AppendFile, AppendRequest, AppendResult,
    CommittedFile, FileFormat, FileMetric, SourceFingerprint, VerifiedStagedFile,
};
use otmp::catalog::RefType;
use otmp::documents::commit_body;
use otmp::error::RuntimeError;
use otmp::hash::{Id, Sha256};
use otmp::intent::{logical_intent, InitializeRequest};
use otmp::schema::{Field, LogicalType, PrimitiveType, Schema, TypeKind};
use otmp::storage::ObjectVersion;
use otmp::value::{find_member, same_value, text, CanonicalValue, Member};

fn field(field_id: u32) -> Field {
    Field {
        field_id,
        name: format!("f{field_id}"),
        required: true,
        field_type: LogicalType {
            kind: TypeKind::Primitive(PrimitiveType { text: "int64".to_string(), float: false }),
            children: vec![],
        },
        doc: None,
        initial_default: None,
        write_default: None,
    }
}

fn file(path: &str, content: &[u8]) -> AppendFile {
    AppendFile {
        source_path: path.to_string(),
        fingerprint: SourceFingerprint {
            sha256: Sha256::digest(content),
            length: content.len() as u64,
        },
        format: FileFormat::Parquet,
        record_count: 3,
        schema_id: 1,
        partition_spec_id: 0,
        sort_order_id: 0,
        partition_values: vec![],
        metrics: vec![],
        metadata: vec![],
    }
}

fn request(files: Vec<AppendFile>) -> AppendRequest {
    AppendRequest::new("key".to_string(), files)
}

fn staged(ordinal: usize, content: &[u8]) -> VerifiedStagedFile {
    VerifiedStagedFile {
        table_id: Id::from_bytes([1; 16]),
        ordinal,
        file_id: Id::from_bytes([40 + ordinal as u8; 16]),
        uri: format!("data/{ordinal}.parquet"),
        version: ObjectVersion::from_sha256(Sha256::digest(content)),
        sha256: Sha256::digest(content),
        length: content.len() as u64,
        format: FileFormat::Parquet,
        object_identity: None,
    }
}

#[test]
fn a_request_is_checked_against_the_schema() {
    let fields = vec![field(1)];
    validate_request_against(&request(vec![file("a", b"one")]), 1, &fields).unwrap();
    for bad in [
        request(vec![]),
        AppendRequest { idempotency_key: String::new(), ..request(vec![file("a", b"one")]) },
        request(vec![AppendFile { schema_id: 2, ..file("a", b"one") }]),
        request(vec![AppendFile { partition_spec_id: 1, ..file("a", b"one") }]),
        request(vec![file("a", b"one"), file("b", b"one")]),
    ] {
        assert!(matches!(
            validate_request_against(&bad, 1, &fields),
            Err(RuntimeError::InvalidAppend(_))
        ));
    }
}

#[test]
fn metrics_name_fields_of_the_schema() {
    let metric = |field_id, nulls| FileMetric {
        field_id,
        column_size_bytes: None,
        value_count: Some(3),
        null_count: Some(nulls),
        nan_count: None,
        distinct_count: None,
        lower_bound: None,
        upper_bound: None,
        reversed: false,
        metadata: vec![],
    };
    let fields = vec![field(1)];
    let with = |metrics| request(vec![AppendFile { metrics, ..file("a", b"one") }]);
    validate_request_against(&with(vec![metric(1, 0)]), 1, &fields).unwrap();
    for bad in [vec![metric(2, 0)], vec![metric(1, 4)], vec![metric(1, 0), metric(1, 0)]] {
        assert!(validate_request_against(&with(bad), 1, &fields).is_err());
    }
    let floating = FileMetric { nan_count: Some(1), ..metric(1, 0) };
    assert!(validate_request_against(&with(vec![floating]), 1, &fields).is_err());
}

#[test]
fn only_branches_are_written() {
    let fields = vec![field(1)];
    let one = request(vec![file("a", b"one")]);
    validate_request_for_write(&one, Some(RefType::Branch), 1, &fields).unwrap();
    assert!(validate_request_for_write(&one, Some(RefType::Tag), 1, &fields).is_err());
    assert!(validate_request_for_write(&one, None, 1, &fields).is_err());
}

#[test]
fn summaries_carry_the_totals() {
    let mut one = request(vec![file("a", b"one"), file("b", b"three")]);
    one.summary.push(Member { key: "note".to_string(), value: text("x") });
    let summary = derived_summary(&one).unwrap();
    let value = |key: &str| find_member(&summary, key).unwrap();
    assert!(same_value(value("added-data-files"), &text("2")));
    assert!(same_value(value("added-records"), &text("6")));
    assert!(same_value(value("added-files-size"), &text("8")));
    assert!(same_value(value("note"), &text("x")));
    let huge = AppendFile { record_count: u64::MAX, ..file("a", b"one") };
    assert!(derived_summary(&request(vec![huge, file("b", b"two")])).is_err());
}

#[test]
fn staged_files_belong_to_their_request() {
    let both = request(vec![file("a", b"one"), file("b", b"two")]);
    let table = Id::from_bytes([1; 16]);
    let files = vec![staged(0, b"one"), staged(1, b"two")];
    validate_staged(&both, &files, table).unwrap();
    assert_eq!(files[1].file_id(), Id::from_bytes([41; 16]));
    assert_eq!(files[1].uri(), "data/1.parquet");
    assert!(matches!(
        validate_staged(&both, &vec![staged(0, b"one")], table),
        Err(RuntimeError::StagingMismatch(_))
    ));
    let swapped = vec![staged(0, b"two"), staged(1, b"one")];
    assert!(validate_staged(&both, &swapped, table).is_err());
    assert!(validate_staged(&both, &files, Id::from_bytes([2; 16])).is_err());
    let result = AppendResult {
        table_version: 1,
        commit_id: Id::from_bytes([3; 16]),
        snapshot_id: Id::from_bytes([4; 16]),
        sequence_number: 1,
        target_ref: "main".to_string(),
        files: vec![
            CommittedFile { file_id: files[0].file_id, uri: files[0].uri.clone() },
            CommittedFile { file_id: files[1].file_id, uri: files[1].uri.clone() },
        ],
    };
    assert!(staged_match_result(&files, &result));
    assert!(!staged_match_result(&vec![staged(0, b"one")], &result));
}

#[test]
fn an_intent_does_not_depend_on_source_paths() {
    let here = logical_intent(&request(vec![file("/tmp/here", b"one")]));
    let there = logical_intent(&request(vec![file("/tmp/there", b"one")]));
    assert!(same_value(&here, &there));
    let other = logical_intent(&request(vec![file("/tmp/here", b"two")]));
    assert!(!same_value(&here, &other));
    let keyed = AppendRequest {
        idempotency_key: "other".to_string(),
        ..request(vec![file("/tmp/here", b"one")])
    };
    assert!(same_value(&here, &logical_intent(&keyed)));
}

#[test]
fn a_commit_is_hashed_without_the_state_it_claims() {
    let member = |key: &str| Member { key: key.to_string(), value: text("x") };
    let document = CanonicalValue::Object(vec![
        member("kind"),
        member("semantic_state_sha256"),
        member("table_id"),
    ]);
    match commit_body(&document).unwrap() {
        CanonicalValue::Object(members) => {
            let keys: Vec<&str> = members.iter().map(|m| m.key.as_str()).collect();
            assert_eq!(keys, vec!["kind", "table_id"]);
        }
        other => panic!("{other:?}"),
    }
    assert!(commit_body(&CanonicalValue::Null).is_err());
}

#[test]
fn times_are_milliseconds() {
    assert_eq!(timestamp_ms(1234).unwrap(), 1234);
    assert!(timestamp_ms(u128::MAX).is_err());
}

#[test]
fn a_table_is_initialized_with_its_schema() {
    let schema = Schema {
        schema_id: 1,
        parent_schema_id: None,
        doc: None,
        fields: vec![field(1)],
        identifier_field_ids: vec![],
    };
    let request = InitializeRequest::new(schema);
    assert_eq!(request.schema.schema_id, 1);
    assert_eq!(request.schema.fields.len(), 1);
}

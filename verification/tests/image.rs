//! Metadata images: the rows of a new table, appends to it, and what validation
//! and the comparison with commits refuse.
use otmp::append::FileFormat;
use otmp::append_rows::{apply_append, AppendImage, ImageFile, ImageMetric};
use otmp::catalog::{RefType, SnapshotRow};
use otmp::catalog_rows::{catalog_from, current_schema, schema_of};
use otmp::changed_rows::apply_changes;
use otmp::error::{ProtocolError, RuntimeError};
use otmp::genesis::{create_genesis, insert_schema, GenesisImage};
use otmp::hash::{Id, Sha256};
use otmp::image::{validate, validate_relational_history, ExpectedImage};
use otmp::projection::{
    idempotency, validate_commit_projection, validate_metadata_projection, validate_projection,
    CommitFacts, CommittedData, CommittedIntent, CommittedMetric, CommittedSnapshot, ParentCommit,
    PropertyChange, PropertyRecord, SummaryEntry,
};
use otmp::publication::{replay, Replay};
use otmp::replay::{apply_metadata, ReplayedCommit};
use otmp::schema::{Field, LogicalType, PrimitiveType, Schema, TypeKind};
use otmp::tables::{
    BoundFacts, FieldRow, ImageRows, MetricFacts, MetricRecord, PartitionFacts, SnapshotRecord,
};
use otmp::transactions::{
    apply_operations, prepare_operations, OperationRequest, Requirement, TransactionRequest,
};

const FEATURES: &str =
    "[\"otmp.core.v2\",\"otmp.data.parquet.v1\",\"otmp.metadata.sqlite3-cow.v1\"]";
const COMMIT_URI: &str = "_otmp/commits/0/018f31f4-2bbd-7e47-a8bd-e5c9b36d8b0b.json";
const APPEND_URI: &str = "_otmp/commits/1/018f31f4-2bbd-7e47-a8bd-e5c9b36d8b11.json";

fn id(text: &str) -> Id {
    let bytes = hex::decode(text.replace('-', "")).unwrap();
    let mut raw = [0u8; 16];
    raw.copy_from_slice(&bytes);
    Id::from_bytes(raw)
}

fn table_id() -> Id {
    id("018f31f4-2bbd-7e47-a8bd-e5c9b36d8b0a")
}

fn genesis_commit() -> Id {
    id("018f31f4-2bbd-7e47-a8bd-e5c9b36d8b0b")
}

fn append_commit() -> Id {
    id("018f31f4-2bbd-7e47-a8bd-e5c9b36d8b11")
}

fn snapshot_id() -> Id {
    id("018f31f4-2bbd-7e47-a8bd-e5c9b36d8b12")
}

fn file_id() -> Id {
    id("018f31f4-2bbd-7e47-a8bd-e5c9b36d8b13")
}

fn primitive(field_id: u32, name: &str, kind: &str) -> Field {
    Field {
        field_id,
        name: name.to_string(),
        required: true,
        field_type: LogicalType {
            kind: TypeKind::Primitive(PrimitiveType { text: kind.to_string(), float: false }),
            children: vec![],
        },
        doc: None,
        initial_default: None,
        write_default: None,
    }
}

fn nested(field_id: u32, name: &str, kind: TypeKind, children: Vec<Field>) -> Field {
    Field {
        field_id,
        name: name.to_string(),
        required: false,
        field_type: LogicalType { kind, children },
        doc: None,
        initial_default: None,
        write_default: None,
    }
}

fn schema() -> Schema {
    Schema {
        schema_id: 1,
        parent_schema_id: None,
        doc: None,
        fields: vec![primitive(1, "id", "int64")],
        identifier_field_ids: vec![1],
    }
}

fn genesis_of(schema: &Schema) -> ImageRows {
    create_genesis(
        &GenesisImage {
            table_id: table_id(),
            created_at_ms: 1,
            semantic_state: Sha256::digest(b"state"),
            commit_id: genesis_commit(),
            commit_hash: Sha256::digest(b"commit"),
            commit_uri: COMMIT_URI.to_string(),
            operation_json: "[]".to_string(),
            result_json: "{}".to_string(),
            intent_hash: Sha256::digest(b"intent"),
            metadata_json: "{}".to_string(),
            reader_features_json: FEATURES.to_string(),
            writer_features_json: FEATURES.to_string(),
        },
        schema,
        &None,
    )
    .unwrap()
}

fn genesis() -> ImageRows {
    genesis_of(&schema())
}

fn features() -> Vec<String> {
    vec![
        "otmp.core.v2".to_string(),
        "otmp.data.parquet.v1".to_string(),
        "otmp.metadata.sqlite3-cow.v1".to_string(),
    ]
}

fn expected() -> ExpectedImage {
    ExpectedImage {
        table_id: table_id(),
        table_version: 0,
        semantic_state: Sha256::digest(b"state"),
        commit_id: genesis_commit(),
        commit_hash: Sha256::digest(b"commit"),
        commit_uri: COMMIT_URI.to_string(),
        reader_features_json: FEATURES.to_string(),
        writer_features_json: FEATURES.to_string(),
        reader_features: features(),
        writer_features: features(),
        previous_semantic_state: None,
    }
}

fn expected_append() -> ExpectedImage {
    ExpectedImage {
        table_version: 1,
        semantic_state: Sha256::digest(b"state one"),
        commit_id: append_commit(),
        commit_hash: Sha256::digest(b"commit one"),
        commit_uri: APPEND_URI.to_string(),
        previous_semantic_state: Some(Sha256::digest(b"state")),
        ..expected()
    }
}

fn partition_values() -> Vec<u8> {
    vec![0x80]
}

fn append_image() -> AppendImage {
    AppendImage {
        table_version: 1,
        created_at_ms: 2,
        semantic_state: Sha256::digest(b"state one"),
        commit_id: append_commit(),
        commit_hash: Sha256::digest(b"commit one"),
        commit_uri: APPEND_URI.to_string(),
        operation_json: "[{\"type\":\"commit_snapshot\"}]".to_string(),
        result_json: "{\"files\":1}".to_string(),
        commit_metadata_json: "{}".to_string(),
        idempotency_key: "append-one".to_string(),
        intent_hash: Sha256::digest(b"intent one"),
        snapshot_id: snapshot_id(),
        parent_snapshot_id: None,
        target_ref: "main".to_string(),
        sequence_number: 1,
        summary_json: "{\"added-data-files\":\"1\"}".to_string(),
        summary: vec![SummaryEntry {
            key: "added-data-files".to_string(),
            value_json: "\"1\"".to_string(),
        }],
        snapshot_metadata_json: "{\"writer\":\"otmp\"}".to_string(),
        files: vec![ImageFile {
            file_id: file_id(),
            uri: "data/one.parquet".to_string(),
            format: FileFormat::Parquet,
            file_size_bytes: 100,
            record_count: 3,
            schema_id: 1,
            partition_spec_id: 0,
            sort_order_id: 0,
            partition_values_cbor: partition_values(),
            partition_hash: Sha256::digest(b"partition"),
            content_sha256: Sha256::digest(b"content"),
            metrics: vec![],
            metadata_json: "{}".to_string(),
        }],
    }
}

fn accepted_partition() -> PartitionFacts {
    PartitionFacts {
        uri_problem: None,
        tuple_problem: None,
        tuple_empty: true,
        hash: Sha256::digest(b"partition"),
    }
}

fn append_projection() -> (ImageRows, CommitFacts) {
    let mut rows = apply_append(genesis(), &append_image()).unwrap();
    rows.partitions.push(accepted_partition());
    let commit = CommitFacts {
        table_version: 1,
        commit_id: append_commit(),
        created_at_ms: 2,
        operations_json: "[{\"type\":\"commit_snapshot\"}]".to_string(),
        metadata_json: "{}".to_string(),
        intents: vec![CommittedIntent {
            key: "append-one".to_string(),
            intent_sha256: Sha256::digest(b"intent one"),
            result_json: "{\"files\":1}".to_string(),
        }],
        parent: Some(ParentCommit {
            table_version: 0,
            uri: COMMIT_URI.to_string(),
            sha256: Sha256::digest(b"commit"),
            is_commit: true,
        }),
        snapshots: vec![CommittedSnapshot {
            target_ref: "main".to_string(),
            snapshot_id: snapshot_id(),
            parent_snapshot_id: None,
            sequence_number: 1,
            schema_id: 1,
            partition_spec_id: 0,
            sort_order_id: 0,
            operation: "append".to_string(),
            summary_json: "{\"added-data-files\":\"1\"}".to_string(),
            summary: Some(vec![SummaryEntry {
                key: "added-data-files".to_string(),
                value_json: "\"1\"".to_string(),
            }]),
            metadata_json: "{\"writer\":\"otmp\"}".to_string(),
            added_files: vec![CommittedData {
                file_id: file_id(),
                uri: "data/one.parquet".to_string(),
                object_identity: None,
                file_format: "parquet".to_string(),
                file_size_bytes: 100,
                record_count: 3,
                schema_id: 1,
                partition_spec_id: 0,
                sort_order_id: 0,
                content_sha256: Sha256::digest(b"content"),
                partition_values_cbor: partition_values(),
                partition_hash: Sha256::digest(b"partition"),
                metrics: vec![],
                metadata_json: "{}".to_string(),
            }],
            removed_file_ids: vec![],
            scan_projection: false,
        }],
    };
    (rows, commit)
}

fn projection_error(rows: &ImageRows, commit: &CommitFacts) -> String {
    validate_commit_projection(rows, commit, Ok(())).unwrap_err().message()
}

fn zero() -> Sha256 {
    Sha256::from_bytes([0; 32])
}

#[test]
fn a_new_table_is_valid_and_so_is_an_append_to_it() {
    validate(&genesis(), &expected()).unwrap();
    let (rows, commit) = append_projection();
    validate(&rows, &expected_append()).unwrap();
    validate_commit_projection(&rows, &commit, Ok(())).unwrap();
}

#[test]
fn validation_rejects_foreign_key_damage() {
    let mut rows = genesis();
    rows.schemas[0].identifiers.push(99);
    rows.foreign_key_errors = 1;
    let error = validate(&rows, &expected()).unwrap_err();
    assert!(error.message().contains("foreign_key_check"));
}

#[test]
fn validation_rejects_normalized_child_rows_under_a_primitive() {
    let mut rows = genesis();
    rows.schemas[0].fields.push(FieldRow {
        parent: Some(1),
        ordinal: 0,
        field: primitive(2, "orphan", "int64"),
    });
    let error = validate(&rows, &expected()).unwrap_err();
    assert!(error.message().contains("normalized field rows"), "{}", error.message());
}

#[test]
fn validation_rejects_a_future_snapshot_in_genesis() {
    let mut rows = genesis();
    let snapshot = id("018f31f4-2bbd-7e47-a8bd-e5c9b36d8b0c");
    rows.snapshots.push(snapshot_record(snapshot, None, 1, 1));
    rows.refs[0].snapshot_id = Some(snapshot);
    let error = validate(&rows, &expected()).unwrap_err();
    assert!(error.message().contains("snapshot, sequence"), "{}", error.message());
}

fn snapshot_record(
    snapshot: Id,
    parent: Option<Id>,
    sequence_number: i64,
    version: i64,
) -> SnapshotRecord {
    SnapshotRecord {
        row: SnapshotRow { snapshot_id: snapshot, parent_snapshot_id: parent, sequence_number },
        schema_id: 1,
        partition_spec_id: 0,
        sort_order_id: 0,
        operation: "append".to_string(),
        committed_table_version: version,
        committed_at_ms: 2,
        scan_root_uri: None,
        scan_root_sha256: None,
        summary_json: "{}".to_string(),
        metadata_json: "{}".to_string(),
    }
}

#[test]
fn profile_history_rejects_ref_shape_and_sequence_allocator_divergence() {
    for tag in [true, false] {
        let (mut rows, _) = append_projection();
        if tag {
            rows.refs[0].ref_type = "tag".to_string();
        } else {
            rows.refs[0].updated_version = 2;
        }
        let error = validate_relational_history(&rows, 1, 1).unwrap_err();
        assert!(error.message().contains("ref invariant"), "{}", error.message());
    }

    let (rows, _) = append_projection();
    validate_relational_history(&rows, 1, 1).unwrap();
    for last_sequence in [0, 2] {
        let error = validate_relational_history(&rows, 1, last_sequence).unwrap_err();
        assert!(error.message().contains("sequence"), "{}", error.message());
    }
}

#[test]
fn profile_history_rejects_truncated_snapshot_ancestry() {
    let (mut rows, _) = append_projection();
    let snapshot = id("018f31f4-2bbd-7e47-a8bd-e5c9b36d8b0e");
    rows.snapshots.push(snapshot_record(snapshot, Some(snapshot), 2, 2));
    rows.refs[0].snapshot_id = Some(snapshot);
    rows.refs[0].updated_version = 2;
    let error = validate_relational_history(&rows, 2, 2).unwrap_err();
    assert!(error.message().contains("ancestry"), "{}", error.message());
}

#[test]
fn commit_projection_rejects_a_parent_reference_that_disagrees_with_history() {
    let (mut rows, commit) = append_projection();
    validate_commit_projection(&rows, &commit, Ok(())).unwrap();
    rows.commits[0].sha256 = zero();
    assert!(projection_error(&rows, &commit).contains("parent commit"));
}

#[test]
fn commit_projection_rejects_snapshot_metadata_divergence() {
    let (mut rows, commit) = append_projection();
    validate_commit_projection(&rows, &commit, Ok(())).unwrap();
    rows.snapshots[0].metadata_json = "{}".to_string();
    assert!(projection_error(&rows, &commit).contains("snapshot metadata"));
}

#[test]
fn commit_projection_rejects_snapshot_from_a_different_table_version() {
    let (mut rows, commit) = append_projection();
    rows.snapshots[0].committed_table_version = 2;
    assert!(projection_error(&rows, &commit).contains("snapshot"));
}

#[test]
fn commit_projection_requires_one_operation_per_relational_snapshot() {
    let (mut rows, commit) = append_projection();
    let extra = id("018f31f4-2bbd-7e47-a8bd-e5c9b36d8b0d");
    let mut record = snapshot_record(extra, Some(snapshot_id()), 2, 1);
    record.summary_json = rows.snapshots[0].summary_json.clone();
    record.metadata_json = rows.snapshots[0].metadata_json.clone();
    rows.snapshots.push(record);
    assert!(projection_error(&rows, &commit).contains("snapshot operations"));
}

#[test]
fn commit_projection_rejects_snapshot_field_divergence() {
    let (mut rows, commit) = append_projection();
    rows.snapshots[0].row.sequence_number = 2;
    assert!(projection_error(&rows, &commit).contains("snapshot"));
}

#[test]
fn commit_projection_rejects_file_descriptor_divergence() {
    let (mut rows, commit) = append_projection();
    rows.files[0].uri = "data/other.parquet".to_string();
    assert!(projection_error(&rows, &commit).contains("file"));
}

#[test]
fn commit_projection_rejects_normalized_summary_divergence() {
    let (mut rows, commit) = append_projection();
    assert_eq!(rows.summaries[0].key, "added-data-files");
    rows.summaries[0].value_json = "\"wrong\"".to_string();
    assert!(projection_error(&rows, &commit).contains("summary"));
}

#[test]
fn commit_projection_rejects_snapshot_change_set_divergence() {
    let (mut rows, commit) = append_projection();
    rows.changes.clear();
    assert!(projection_error(&rows, &commit).contains("file changes"));
}

#[test]
fn commit_projection_rejects_content_hash_divergence() {
    let (mut rows, commit) = append_projection();
    rows.files[0].content_sha256 = Some(zero());
    assert!(projection_error(&rows, &commit).contains("file descriptor"));
}

#[test]
fn commit_projection_rejects_ref_and_metric_divergence() {
    for metric in [false, true] {
        let (mut rows, commit) = append_projection();
        if metric {
            rows.metrics.push(MetricRecord {
                file_id: file_id(),
                field_id: 1,
                column_size_bytes: None,
                value_count: None,
                null_count: None,
                nan_count: None,
                distinct_count: None,
                lower_bound_cbor: None,
                upper_bound_cbor: None,
                bloom_filter_uri: None,
                bloom_filter_sha256: None,
                metadata_json: "{}".to_string(),
            });
            rows.bounds.push(MetricFacts { lower: None, upper: None, reversed: false });
        } else {
            rows.refs[0].updated_version = 2;
        }
        assert!(validate_commit_projection(&rows, &commit, Ok(())).is_err());
    }
}

#[test]
fn validation_names_the_first_damage() {
    let mut rows = genesis();
    rows.integrity = "row 3 missing from index".to_string();
    let error = validate(&rows, &expected()).unwrap_err();
    assert_eq!(error.message(), "table is corrupt: integrity_check: row 3 missing from index");
    assert_eq!(error.code(), "OTMP_CORRUPT_TABLE");

    let mut rows = genesis();
    rows.user_version = 1;
    let error = validate(&rows, &expected()).unwrap_err();
    assert_eq!(error.message(), "table is corrupt: invalid SQLite user_version");

    let mut head = expected();
    head.table_version = 1;
    let error = validate(&genesis(), &head).unwrap_err();
    assert_eq!(error.message(), "table is corrupt: otmp_meta does not match HEAD");

    let mut rows = genesis();
    rows.intents.clear();
    let error = validate(&rows, &expected()).unwrap_err();
    assert_eq!(error.message(), "table is corrupt: commit/idempotency pairing mismatch");

    let mut rows = genesis();
    rows.features.pop();
    let error = validate(&rows, &expected()).unwrap_err();
    assert_eq!(error.message(), "table is corrupt: feature rows do not match feature set");
}

#[test]
fn validation_compares_membership_with_ancestry() {
    let (mut rows, _) = append_projection();
    rows.live.clear();
    let error = validate(&rows, &expected_append()).unwrap_err();
    assert_eq!(
        error.message(),
        "table is corrupt: materialized membership differs from snapshot ancestry"
    );
}

#[test]
fn validation_passes_on_what_the_codecs_find() {
    let (mut rows, _) = append_projection();
    rows.partitions[0].uri_problem = Some(ProtocolError {
        code: "OTMP_INVALID_URI".to_string(),
        message: "relative URI escapes".to_string(),
    });
    let error = validate(&rows, &expected_append()).unwrap_err();
    assert_eq!(error.code(), "OTMP_INVALID_URI");
    assert_eq!(error.message(), "relative URI escapes");
}

#[test]
fn nested_fields_are_stored_and_pass_validation() {
    let mut wide = schema();
    wide.fields.push(nested(
        2,
        "place",
        TypeKind::Struct,
        vec![primitive(3, "x", "int64"), primitive(4, "y", "int64")],
    ));
    wide.fields.push(nested(5, "tags", TypeKind::List, vec![primitive(6, "tag", "string")]));
    let rows = genesis_of(&wide);
    let stored: Vec<(Option<u32>, u32, u32)> = rows.schemas[0]
        .fields
        .iter()
        .map(|row| (row.parent, row.ordinal, row.field.field_id))
        .collect();
    assert_eq!(
        stored,
        vec![
            (None, 0, 1),
            (None, 1, 2),
            (Some(2), 0, 3),
            (Some(2), 1, 4),
            (None, 2, 5),
            (Some(5), 0, 6),
        ]
    );
    validate(&rows, &expected()).unwrap();
}

#[test]
fn the_parts_of_a_mapping_are_stored_one_by_one() {
    let mapped = Schema {
        fields: vec![nested(
            1,
            "counts",
            TypeKind::Mapping,
            vec![primitive(2, "key", "string"), primitive(3, "value", "int64")],
        )],
        ..schema()
    };
    let record = insert_schema(&mapped, 0).unwrap();
    let stored: Vec<(Option<u32>, u32, u32)> =
        record.fields.iter().map(|row| (row.parent, row.ordinal, row.field.field_id)).collect();
    assert_eq!(stored, vec![(None, 0, 1), (Some(1), 0, 2), (Some(1), 0, 3)]);
}

#[test]
fn an_append_needs_the_next_version_and_one_branch() {
    let mut image = append_image();
    image.table_version = 2;
    let error = apply_append(genesis(), &image).unwrap_err();
    assert_eq!(error.message(), "table is corrupt: candidate parent version mismatch");

    let mut image = append_image();
    image.target_ref = "other".to_string();
    let error = apply_append(genesis(), &image).unwrap_err();
    assert_eq!(error.message(), "table is corrupt: candidate parent has no unique main branch");

    let mut image = append_image();
    image.files[0].record_count = u64::MAX;
    let error = apply_append(genesis(), &image).unwrap_err();
    assert!(matches!(error, RuntimeError::InvalidAppend(_)));
    assert_eq!(
        error.message(),
        "append request is invalid: record count exceeds SQLite INTEGER"
    );
}

#[test]
fn an_append_stores_its_metrics_and_its_intent() {
    let mut image = append_image();
    image.files[0].metrics.push(ImageMetric {
        field_id: 1,
        column_size_bytes: Some(10),
        value_count: Some(3),
        null_count: Some(0),
        nan_count: None,
        distinct_count: None,
        lower_bound_cbor: Some(vec![1]),
        upper_bound_cbor: Some(vec![9]),
        metadata_json: "{}".to_string(),
    });
    let rows = apply_append(genesis(), &image).unwrap();
    assert_eq!(rows.metrics.len(), 1);
    assert_eq!(rows.metrics[0].value_count, Some(3));
    assert_eq!(rows.metrics[0].upper_bound_cbor, Some(vec![9]));
    assert_eq!(rows.intents.len(), 2);
    assert_eq!(rows.intents[1].key, "append-one");
    assert_eq!(rows.refs[0].snapshot_id, Some(snapshot_id()));
    assert_eq!(rows.live[0].added_snapshot_id, snapshot_id());
    assert_eq!(rows.meta.last_sequence_number, 1);

    let (_, mut commit) = append_projection();
    commit.snapshots[0].added_files[0].metrics.push(CommittedMetric {
        field_id: 1,
        column_size_bytes: Some(10),
        value_count: Some(3),
        null_count: Some(0),
        nan_count: None,
        distinct_count: None,
        lower_bound_cbor: Some(vec![1]),
        upper_bound_cbor: Some(vec![9]),
        metadata_json: "{}".to_string(),
    });
    validate_commit_projection(&rows, &commit, Ok(())).unwrap();
    commit.snapshots[0].added_files[0].metrics[0].upper_bound_cbor = Some(vec![8]);
    assert!(validate_commit_projection(&rows, &commit, Ok(())).is_err());
}

#[test]
fn property_changes_are_compared_with_their_rows() {
    let rows = vec![PropertyRecord {
        key: "owner".to_string(),
        value_json: "\"a\"".to_string(),
        updated_version: 3,
    }];
    let update = |value: &str| PropertyChange {
        updates: vec![SummaryEntry {
            key: "owner".to_string(),
            value_json: value.to_string(),
        }],
        removals: vec![],
    };
    validate_metadata_projection(&rows, &vec![update("\"a\"")], 3).unwrap();
    let error = validate_metadata_projection(&rows, &vec![update("\"b\"")], 3).unwrap_err();
    assert_eq!(
        error.message(),
        "table is corrupt: metadata operation differs from relational projection"
    );
    assert!(validate_metadata_projection(&rows, &vec![update("\"a\"")], 4).is_err());
    let removal = PropertyChange { updates: vec![], removals: vec!["owner".to_string()] };
    assert!(validate_metadata_projection(&rows, &vec![removal], 3).is_err());
}

fn second_commit() -> ReplayedCommit {
    ReplayedCommit {
        table_version: 2,
        created_at_ms: 3,
        semantic_state: Sha256::digest(b"state two"),
        commit_id: id("018f31f4-2bbd-7e47-a8bd-e5c9b36d8b22"),
        commit_hash: Sha256::digest(b"commit two"),
        commit_uri: "two".to_string(),
        operation_json: "[]".to_string(),
        result_json: "{\"refs\":2}".to_string(),
        metadata_json: "{}".to_string(),
        idempotency_key: "two".to_string(),
        intent_hash: Sha256::digest(b"intent two"),
    }
}

fn expected_second() -> ExpectedImage {
    ExpectedImage {
        table_version: 2,
        semantic_state: Sha256::digest(b"state two"),
        commit_id: id("018f31f4-2bbd-7e47-a8bd-e5c9b36d8b22"),
        commit_hash: Sha256::digest(b"commit two"),
        commit_uri: "two".to_string(),
        previous_semantic_state: Some(Sha256::digest(b"state one")),
        ..expected()
    }
}

fn transact(
    rows: ImageRows,
    requirements: Vec<Requirement>,
    operations: Vec<OperationRequest>,
) -> ImageRows {
    let catalog = catalog_from(&rows, vec![], vec![1]).unwrap();
    let request = TransactionRequest {
        idempotency_key: "two".to_string(),
        requirements,
        operations,
        commit_metadata: vec![],
    };
    let shown: Vec<String> =
        request.requirements.iter().map(|one| format!("{one:?}")).collect();
    prepare_operations(&catalog, &request, &shown, &None).unwrap();
    let changes = apply_operations(&catalog, &request.operations, 2).unwrap();
    let changed = apply_changes(rows, &request.operations, &changes).unwrap();
    apply_metadata(changed, second_commit()).unwrap()
}

#[test]
fn a_transaction_leaves_a_valid_image() {
    let (rows, _) = append_projection();
    let requirements = vec![
        Requirement::RefAbsent { name: "dev".to_string() },
        Requirement::RefAbsent { name: "v1".to_string() },
        Requirement::SnapshotExists { snapshot_id: snapshot_id() },
        Requirement::CurrentSchemaIs { schema_id: 1 },
        Requirement::SchemaIdAbsent { schema_id: 2 },
        Requirement::FieldIdsAbsent { field_ids: vec![2] },
    ];
    let operations = vec![
        OperationRequest::CreateRef {
            operation_id: "a".to_string(),
            name: "dev".to_string(),
            ref_type: RefType::Branch,
            snapshot_id: Some(snapshot_id()),
        },
        OperationRequest::CreateRef {
            operation_id: "b".to_string(),
            name: "v1".to_string(),
            ref_type: RefType::Tag,
            snapshot_id: Some(snapshot_id()),
        },
        OperationRequest::AddSchema {
            operation_id: "c".to_string(),
            schema: Schema {
                schema_id: 2,
                parent_schema_id: Some(1),
                doc: None,
                fields: vec![
                    primitive(1, "id", "int64"),
                    Field { required: false, ..primitive(2, "note", "string") },
                ],
                identifier_field_ids: vec![1],
            },
        },
        OperationRequest::SetCurrentSchema { operation_id: "d".to_string(), schema_id: 2 },
    ];
    let after = transact(rows, requirements, operations);
    validate(&after, &expected_second()).unwrap();
    let dev: Vec<_> = after.live.iter().filter(|l| l.ref_name == "dev").collect();
    assert_eq!(dev.len(), 1);
    assert_eq!(dev[0].file_id, file_id());
    assert_eq!(dev[0].added_snapshot_id, snapshot_id());
    assert_eq!((dev[0].data_sequence_number, dev[0].file_sequence_number), (1, 1));
    assert!(!after.live.iter().any(|l| l.ref_name == "v1"));
    let tag = after.refs.iter().find(|r| r.name == "v1").unwrap();
    assert_eq!((tag.ref_type.as_str(), tag.created_version), ("tag", 2));
    assert_eq!(after.meta.current_schema_id, 2);
    assert_eq!(after.schemas.len(), 2);
    assert_eq!(after.schemas[1].created_version, 2);
    assert_eq!(after.commits[2].parent_table_version, Some(1));
    let intent = after.intents.last().unwrap();
    assert_eq!((intent.key.as_str(), intent.table_version), ("two", 2));
    assert_eq!(intent.intent, Sha256::digest(b"intent two"));
    assert_eq!(intent.result_json, "{\"refs\":2}");
}

#[test]
fn moved_and_dropped_refs_leave_a_valid_image() {
    let (mut rows, _) = append_projection();
    let mut dev = apply_changes(
        rows,
        &vec![],
        &vec![otmp::transactions::RowChange::InsertRef {
            name: "dev".to_string(),
            ref_type: RefType::Branch,
            snapshot_id: None,
            version: 1,
        }],
    )
    .unwrap();
    dev.refs.push(otmp::tables::RefRecord {
        name: "gone".to_string(),
        ref_type: "tag".to_string(),
        snapshot_id: Some(snapshot_id()),
        created_version: 1,
        updated_version: 1,
    });
    rows = dev;
    validate(&rows, &expected_append()).unwrap();
    let requirements = vec![
        Requirement::RefExists { name: "dev".to_string(), ref_type: RefType::Branch },
        Requirement::RefSnapshotIs { name: "dev".to_string(), snapshot_id: None },
        Requirement::SnapshotExists { snapshot_id: snapshot_id() },
        Requirement::RefExists { name: "gone".to_string(), ref_type: RefType::Tag },
        Requirement::RefSnapshotIs {
            name: "gone".to_string(),
            snapshot_id: Some(snapshot_id()),
        },
    ];
    let operations = vec![
        OperationRequest::ReplaceRef {
            operation_id: "a".to_string(),
            name: "dev".to_string(),
            snapshot_id: snapshot_id(),
        },
        OperationRequest::DropRef { operation_id: "b".to_string(), name: "gone".to_string() },
    ];
    let after = transact(rows, requirements, operations);
    validate(&after, &expected_second()).unwrap();
    let names: Vec<&str> = after.refs.iter().map(|r| r.name.as_str()).collect();
    assert_eq!(names, vec!["main", "dev"]);
    assert_eq!(after.refs[1].snapshot_id, Some(snapshot_id()));
    assert_eq!((after.refs[1].created_version, after.refs[1].updated_version), (1, 2));
    assert_eq!(after.live.iter().filter(|l| l.ref_name == "dev").count(), 1);
    assert_eq!(after.live.iter().filter(|l| l.ref_name == "main").count(), 1);
}

#[test]
fn a_commit_of_its_own_rows_leaves_a_valid_image() {
    let (rows, _) = append_projection();
    let after = apply_metadata(rows, second_commit()).unwrap();
    validate(&after, &expected_second()).unwrap();
    let (rows, _) = append_projection();
    let far = ReplayedCommit { table_version: u64::MAX, ..second_commit() };
    assert!(apply_metadata(rows, far).is_err());
}

#[test]
fn stored_schemas_are_read_back() {
    let wide = Schema {
        schema_id: 7,
        parent_schema_id: Some(1),
        doc: Some("wide".to_string()),
        fields: vec![
            primitive(1, "id", "int64"),
            nested(2, "parts", TypeKind::Struct, vec![primitive(3, "a", "string")]),
        ],
        identifier_field_ids: vec![1],
    };
    let mut record = insert_schema(&wide, 4).unwrap();
    let read = schema_of(&record).unwrap();
    assert_eq!(format!("{read:?}"), format!("{wide:?}"));
    record.fields[0].ordinal = 5;
    assert_eq!(
        schema_of(&record).unwrap_err().message(),
        "table is corrupt: field ordinals are not unique and contiguous"
    );
    record.fields[0].ordinal = 0;
    record.parent_schema_id = Some(-1);
    assert_eq!(
        schema_of(&record).unwrap_err().message(),
        "table is corrupt: invalid parent schema ID"
    );
    record.schema_id = 1 << 40;
    assert_eq!(schema_of(&record).unwrap_err().message(), "table is corrupt: invalid schema ID");
}

#[test]
fn a_catalog_shows_the_rows_of_its_image() {
    let (mut rows, _) = append_projection();
    let catalog = catalog_from(&rows, vec![], vec![1]).unwrap();
    assert_eq!(catalog.refs.len(), 1);
    assert_eq!(catalog.refs[0].name, "main");
    assert_eq!(catalog.refs[0].snapshot_id, Some(snapshot_id()));
    assert_eq!(catalog.snapshots[0].snapshot_id, snapshot_id());
    assert_eq!(catalog.schema_ids, vec![1]);
    assert_eq!(catalog.field_ids, vec![1]);
    assert_eq!(catalog.current_schema.fields[0].name, "id");
    let problem = |rows: &ImageRows| catalog_from(rows, vec![], vec![]).unwrap_err().message();
    rows.meta.default_sort_order_id = -1;
    assert_eq!(problem(&rows), "table is corrupt: invalid sort order ID");
    rows.meta.default_partition_spec_id = -1;
    assert_eq!(problem(&rows), "table is corrupt: invalid partition spec ID");
    rows.meta.current_schema_id = 9;
    assert_eq!(problem(&rows), "table is corrupt: metadata defaults do not exist");
    assert!(current_schema(&rows).is_err());
    rows.schemas[0].schema_id = -1;
    assert_eq!(problem(&rows), "table is corrupt: invalid schema ID");
    rows.refs[0].ref_type = "twig".to_string();
    assert_eq!(problem(&rows), "table is corrupt: invalid ref type");
}

#[test]
fn a_metadata_commit_projects_itself() {
    let (rows, _) = append_projection();
    let after = apply_metadata(rows, second_commit()).unwrap();
    let mut facts = CommitFacts {
        table_version: 2,
        commit_id: second_commit().commit_id,
        created_at_ms: 3,
        operations_json: "[]".to_string(),
        metadata_json: "{}".to_string(),
        intents: vec![CommittedIntent {
            key: "two".to_string(),
            intent_sha256: Sha256::digest(b"intent two"),
            result_json: "{\"refs\":2}".to_string(),
        }],
        parent: Some(ParentCommit {
            table_version: 1,
            uri: APPEND_URI.to_string(),
            sha256: Sha256::digest(b"commit one"),
            is_commit: true,
        }),
        snapshots: vec![],
    };
    validate_commit_projection(&after, &facts, Ok(())).unwrap();
    facts.intents[0].result_json = "{}".to_string();
    assert!(validate_commit_projection(&after, &facts, Ok(())).is_err());
}

fn good_bound() -> BoundFacts {
    BoundFacts { undecodable: None, problem: None, accepted: true, null: false, nan: false }
}

fn broken() -> Option<ProtocolError> {
    Some(ProtocolError { code: "OTMP_INVALID_CBOR".to_string(), message: "broken".to_string() })
}

fn image_with_bounds(lower: BoundFacts, upper: BoundFacts, reversed: bool) -> ImageRows {
    let mut image = append_image();
    image.files[0].metrics.push(ImageMetric {
        field_id: 1,
        column_size_bytes: None,
        value_count: None,
        null_count: None,
        nan_count: None,
        distinct_count: None,
        lower_bound_cbor: Some(vec![1]),
        upper_bound_cbor: Some(vec![9]),
        metadata_json: "{}".to_string(),
    });
    let mut rows = apply_append(genesis(), &image).unwrap();
    rows.partitions.push(accepted_partition());
    rows.bounds.push(MetricFacts { lower: Some(lower), upper: Some(upper), reversed });
    rows
}

#[test]
fn both_bounds_are_decoded_before_either_is_judged() {
    validate(&image_with_bounds(good_bound(), good_bound(), false), &expected_append()).unwrap();
    let message = |lower: BoundFacts, upper: BoundFacts, reversed: bool| {
        validate(&image_with_bounds(lower, upper, reversed), &expected_append())
            .unwrap_err()
            .message()
    };
    let refused = || BoundFacts { accepted: false, ..good_bound() };
    let undecodable = || BoundFacts { undecodable: broken(), ..good_bound() };
    assert_eq!(message(refused(), undecodable(), false), "broken");
    assert_eq!(message(undecodable(), refused(), false), "broken");
    let invalid = "table is corrupt: invalid relational metric bound";
    assert_eq!(message(refused(), good_bound(), false), invalid);
    assert_eq!(message(good_bound(), BoundFacts { null: true, ..good_bound() }, false), invalid);
    assert_eq!(
        message(good_bound(), good_bound(), true),
        "table is corrupt: relational metric bounds are reversed"
    );
}

#[test]
fn a_projection_takes_in_the_properties() {
    let (rows, commit) = append_projection();
    let properties = vec![PropertyRecord {
        key: "owner".to_string(),
        value_json: "\"a\"".to_string(),
        updated_version: 1,
    }];
    let change = |value: &str| {
        vec![PropertyChange {
            updates: vec![SummaryEntry {
                key: "owner".to_string(),
                value_json: value.to_string(),
            }],
            removals: vec![],
        }]
    };
    validate_projection(&rows, &properties, &commit, &change("\"a\"")).unwrap();
    assert_eq!(
        validate_projection(&rows, &properties, &commit, &change("\"b\"")).unwrap_err().message(),
        "table is corrupt: metadata operation differs from relational projection"
    );
    let mut other = append_projection().0;
    other.commits[1].metadata_json = "{\"a\":1}".to_string();
    assert!(validate_projection(&other, &properties, &commit, &change("\"a\"")).is_err());
}

#[test]
fn an_append_that_is_sent_again_is_found_by_its_key() {
    let (rows, _) = append_projection();
    let found = |key: &str| idempotency(&rows.intents, &key.to_string()).map(|row| row.intent);
    assert_eq!(
        replay(found("append-one"), Sha256::digest(b"intent one")),
        Replay::Found
    );
    assert_eq!(
        replay(found("append-one"), Sha256::digest(b"another intent")),
        Replay::Conflict
    );
    assert_eq!(replay(found("append-two"), Sha256::digest(b"intent one")), Replay::Absent);
}

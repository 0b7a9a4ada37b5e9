//! Walking retained history: generations, snapshots, files and object references.
use otmp::catalog::{RefRow, RefType, SnapshotRow};
use otmp::documents::{Checkpoint, Generation, MetadataImage, ObjectReference};
use otmp::error::RuntimeError;
use otmp::hash::{Id, Sha256};
use otmp::history::{
    branch_files, collect_snapshot_files, history_entries, note_id, record_file_reference,
    resolve_snapshot, snapshot_files, verification_step, HeadAnchor, SnapshotSelection, TextCodec,
    VerificationScope, VerificationStep,
};
use otmp::pin::{
    after_copy, check_object, check_operations, check_operations_page, check_state_chain,
    metadata_step, object_step, readback_of, rebase_tips, validate_generation_edge, CommitOperations,
    MetadataSelection, ObjectStep, StageStep, WalkStep,
};
use otmp::append::SourceFingerprint;
use otmp::rebase::validate_append_rebase;
use otmp::storage::{CreatedObject, ObjectVersion, StorageError};
use otmp::tables::{ChangeRow, CommitRow, FileRecord, LiveRow, SnapshotRecord};
use otmp::value::{CanonicalValue, Member};
use otmp::verification::{Verification, VerificationPhase};

/// Reads every text as itself, and takes every address.
struct Plain;

impl TextCodec for Plain {
    fn parse(&self, text: &String) -> Result<CanonicalValue, RuntimeError> {
        Ok(CanonicalValue::Text(text.clone()))
    }

    fn check_uri(&self, text: &String) -> Result<(), RuntimeError> {
        if text.starts_with('/') {
            return Err(RuntimeError::Corrupt("absolute address".to_string()));
        }
        Ok(())
    }
}

fn id(n: u8) -> Id {
    Id::from_bytes([n; 16])
}

fn reference(uri: &str, content: &[u8]) -> ObjectReference {
    ObjectReference {
        uri: uri.to_string(),
        sha256: Sha256::digest(content),
        length: Some(content.len() as u64),
        media_type: None,
    }
}

#[test]
fn repeated_file_uris_must_agree_on_hash_and_length() {
    let original = reference("data/one.parquet", b"one");
    let mut references = Vec::new();
    record_file_reference(&mut references, original.clone()).unwrap();
    record_file_reference(&mut references, original.clone()).unwrap();
    assert_eq!(references.len(), 1);
    for conflicting in [
        ObjectReference { sha256: Sha256::digest(b"two"), ..original.clone() },
        ObjectReference { length: Some(4), ..original.clone() },
    ] {
        assert!(matches!(
            record_file_reference(&mut references, conflicting),
            Err(RuntimeError::Corrupt(_))
        ));
    }
    record_file_reference(
        &mut references,
        ObjectReference { uri: "data/two.parquet".to_string(), ..original },
    )
    .unwrap();
    assert_eq!(references.len(), 2);
}

fn generation(number: u8, table_version: u64, state: &[u8]) -> Generation {
    Generation {
        kind: "otmp.metadata-generation".to_string(),
        format_version: 2,
        table_id: id(1),
        table_version,
        generation_id: id(number),
        created_at_ms: 1,
        semantic_state_sha256: Sha256::digest(state),
        semantic_commit: reference("_otmp/commits/0", b"commit"),
        physical_parent: None,
        metadata_image: MetadataImage {
            codec: "sqlite3-cow".to_string(),
            page_size: 4096,
            page_count: 1,
            checkpoint: Checkpoint {
                table_version,
                uri: "_otmp/checkpoints/0".to_string(),
                sha256: Sha256::digest(b"checkpoint"),
                length: 4096,
            },
            page_map: None,
            checkpoint_page_index: None,
            image_root_sha256: Sha256::digest(b"root"),
        },
    }
}

#[test]
fn parsed_generation_graph_rejects_cycles_increases_and_divergence() {
    let child = generation(7, 0, b"state");
    let mut seen = vec![child.generation_id];
    assert!(validate_generation_edge(&child, &child, &mut seen).is_err());
    let mut parent = generation(8, 1, b"state");
    assert!(validate_generation_edge(&child, &parent, &mut Vec::new()).is_err());
    parent.table_version = 0;
    parent.semantic_state_sha256 = Sha256::digest(b"different");
    assert!(validate_generation_edge(&child, &parent, &mut Vec::new()).is_err());
    parent.semantic_state_sha256 = Sha256::digest(b"state");
    let mut walked = vec![child.generation_id];
    validate_generation_edge(&child, &parent, &mut walked).unwrap();
    assert_eq!(walked.len(), 2);
}

#[test]
fn a_walk_ends_at_its_version_or_where_history_does() {
    let parent = Some(reference("_otmp/generations/4", b"four"));
    assert!(matches!(
        metadata_step(MetadataSelection::Current, 5, 5, &parent),
        Ok(WalkStep::Arrived)
    ));
    assert!(matches!(
        metadata_step(MetadataSelection::TableVersion(4), 5, 5, &parent),
        Ok(WalkStep::Load(r)) if r.uri == "_otmp/generations/4"
    ));
    assert!(matches!(
        metadata_step(MetadataSelection::TableVersion(4), 5, 4, &parent),
        Ok(WalkStep::Arrived)
    ));
    assert!(matches!(
        metadata_step(MetadataSelection::TableVersion(6), 5, 5, &parent),
        Err(RuntimeError::MetadataVersionNotFound(6))
    ));
    assert!(matches!(
        metadata_step(MetadataSelection::TableVersion(4), 5, 5, &None),
        Err(RuntimeError::HistoryNotRetained(4))
    ));
}

#[test]
fn objects_are_checked_by_digest_and_length() {
    let bytes = b"object".to_vec();
    check_object(&reference("a", b"object"), &bytes).unwrap();
    assert!(check_object(&reference("a", b"objects"), &bytes).is_err());
    let mut long = reference("a", b"object");
    long.length = Some(7);
    assert!(check_object(&long, &bytes).is_err());
}

fn created(bytes: &[u8]) -> CreatedObject {
    CreatedObject {
        version: ObjectVersion::from_sha256(Sha256::digest(bytes)),
        sha256: Sha256::digest(bytes),
        length: bytes.len() as u64,
    }
}

#[test]
fn a_staged_file_is_read_back_only_if_it_has_its_fingerprint() {
    let fingerprint = SourceFingerprint { sha256: Sha256::digest(b"data"), length: 4 };
    assert!(matches!(after_copy(&fingerprint, &Ok(created(b"data"))), StageStep::ReadBack));
    assert!(matches!(
        after_copy(&fingerprint, &Ok(created(b"date"))),
        StageStep::Remove(RuntimeError::FingerprintMismatch)
    ));
    assert!(matches!(
        after_copy(&fingerprint, &Err(StorageError::MaximumLengthExceeded)),
        StageStep::Fail(RuntimeError::FingerprintMismatch)
    ));
}

#[test]
fn objects_that_exist_already_are_read_back() {
    let (hash, length) = readback_of(Ok(created(b"data")), b"data").unwrap();
    assert_eq!((hash, length), (Sha256::digest(b"data"), 4));
    let existing = Err(StorageError::ImmutableConflict("a".to_string()));
    assert_eq!(readback_of(existing, b"data").unwrap(), (Sha256::digest(b"data"), 4));
    assert!(readback_of(Err(StorageError::Io("x".to_string())), b"data").is_err());
}

#[test]
fn an_append_moves_on_only_along_its_branch() {
    let branch = |tip| Some((RefType::Branch, tip));
    assert!(rebase_tips(&branch(None), &branch(None)).unwrap().is_none());
    let descent = rebase_tips(&branch(Some(id(1))), &branch(Some(id(2)))).unwrap().unwrap();
    assert_eq!(descent.to, id(1));
    assert_eq!(descent.from, Some(id(2)));
    assert!(matches!(
        rebase_tips(&branch(None), &None),
        Err(RuntimeError::SemanticConflict(_))
    ));
}

fn operation(kind: &str) -> CanonicalValue {
    CanonicalValue::Object(vec![Member {
        key: "type".to_string(),
        value: CanonicalValue::Text(kind.to_string()),
    }])
}

#[test]
fn only_some_operations_may_come_between() {
    let name = "main".to_string();
    check_operations(&name, &vec![operation("set_properties")]).unwrap();
    let error = check_operations(&name, &vec![operation("set_current_schema")]).unwrap_err();
    assert!(matches!(error, RuntimeError::SemanticConflict(_)));
    let page = |version, kind| CommitOperations { version, operations: vec![operation(kind)] };
    let both = vec![page(3, "set_properties"), page(4, "set_properties")];
    assert_eq!(check_operations_page(&name, 2, &both).unwrap(), 4);
    assert!(check_operations_page(&name, 3, &both).is_err());
    let gap = vec![page(3, "set_properties"), page(5, "set_properties")];
    assert!(matches!(check_operations_page(&name, 2, &gap), Err(RuntimeError::Corrupt(_))));
    assert!(check_operations_page(&name, 2, &vec![]).is_err());
}

fn record(snapshot: u8, parent: Option<u8>, sequence: i64) -> SnapshotRecord {
    SnapshotRecord {
        row: SnapshotRow {
            snapshot_id: id(snapshot),
            parent_snapshot_id: parent.map(id),
            sequence_number: sequence,
        },
        schema_id: 1,
        partition_spec_id: 0,
        sort_order_id: 0,
        operation: "append".to_string(),
        committed_table_version: sequence,
        committed_at_ms: 10 * sequence,
        scan_root_uri: None,
        scan_root_sha256: None,
        summary_json: "{}".to_string(),
        metadata_json: "{}".to_string(),
    }
}

fn file(number: u8, snapshot: u8, sequence: i64) -> FileRecord {
    FileRecord {
        file_id: id(number),
        file_kind: "data".to_string(),
        uri: format!("data/{number}.parquet"),
        object_identity: None,
        file_format: "parquet".to_string(),
        file_size_bytes: 100,
        record_count: 10,
        schema_id: 1,
        partition_spec_id: 0,
        sort_order_id: Some(0),
        partition_values_cbor: vec![0x80],
        partition_hash: Sha256::digest(b"partition"),
        content_sha256: Some(Sha256::digest(&[number])),
        encryption_metadata: None,
        data_sequence_number: sequence,
        file_sequence_number: sequence,
        created_snapshot_id: id(snapshot),
        created_version: sequence,
        metadata_json: "{}".to_string(),
    }
}

fn change(snapshot: u8, number: u8) -> ChangeRow {
    ChangeRow { snapshot_id: id(snapshot), file_id: id(number), change_kind: "add".to_string() }
}

fn live(number: u8, snapshot: u8, sequence: i64) -> LiveRow {
    LiveRow {
        ref_name: "main".to_string(),
        file_id: id(number),
        added_snapshot_id: id(snapshot),
        data_sequence_number: sequence,
        file_sequence_number: sequence,
    }
}

fn main_branch(tip: Option<Id>) -> Vec<RefRow> {
    vec![RefRow { name: "main".to_string(), ref_type: RefType::Branch, snapshot_id: tip }]
}

#[test]
fn snapshots_are_selected_by_ref_by_identifier_and_by_sequence() {
    let records = vec![record(1, None, 1), record(2, Some(1), 2)];
    let refs = main_branch(Some(id(2)));
    let named = SnapshotSelection::Ref("main".to_string());
    let found = resolve_snapshot(&Plain, &refs, &records, &named).unwrap().unwrap();
    assert_eq!(found.snapshot_id, id(2));
    assert_eq!(found.committed_at_ms, 20);
    let found =
        resolve_snapshot(&Plain, &refs, &records, &SnapshotSelection::SequenceNumber(1)).unwrap();
    assert_eq!(found.unwrap().snapshot_id, id(1));
    assert!(matches!(
        resolve_snapshot(&Plain, &refs, &records, &SnapshotSelection::SnapshotId(id(9))),
        Err(RuntimeError::SnapshotNotFound)
    ));
    let missing = SnapshotSelection::Ref("other".to_string());
    assert!(matches!(
        resolve_snapshot(&Plain, &refs, &records, &missing),
        Err(RuntimeError::RefNotFound(_))
    ));
    assert!(resolve_snapshot(&Plain, &main_branch(None), &records, &named).unwrap().is_none());
}

#[test]
fn a_branch_and_its_snapshot_list_the_same_files() {
    let records = vec![record(1, None, 1), record(2, Some(1), 2)];
    let files = vec![file(5, 1, 1), file(4, 2, 2)];
    let changes = vec![change(1, 5), change(2, 4)];
    let membership = vec![live(5, 1, 1), live(4, 2, 2)];
    let refs = main_branch(Some(id(2)));
    let listed = branch_files(&Plain, &refs, &membership, &files, &"main".to_string()).unwrap();
    let along = snapshot_files(&Plain, &records, &changes, &files, Some(id(2))).unwrap();
    let key = |list: &Vec<otmp::history::LiveFile>| -> Vec<(Id, u64)> {
        let mut keys: Vec<(Id, u64)> =
            list.iter().map(|f| (f.file_id, f.sequence_number)).collect();
        keys.sort_by_key(|k| k.1);
        keys
    };
    assert_eq!(key(&listed), vec![(id(5), 1), (id(4), 2)]);
    assert_eq!(key(&along), key(&listed));
    let early = snapshot_files(&Plain, &records, &changes, &files, Some(id(1))).unwrap();
    assert_eq!(key(&early), vec![(id(5), 1)]);
    assert!(snapshot_files(&Plain, &records, &changes, &files, None).unwrap().is_empty());
}

#[test]
fn retained_files_are_collected_once() {
    let records = vec![record(1, None, 1), record(2, Some(1), 2)];
    let files = vec![file(5, 1, 1), file(4, 2, 2)];
    let changes = vec![change(1, 5), change(2, 4)];
    let refs = main_branch(Some(id(2)));
    let mut snapshots = Vec::new();
    let mut references = Vec::new();
    for _ in 0..2 {
        collect_snapshot_files(
            &Plain,
            VerificationScope::RetainedHistory,
            &refs,
            &records,
            &changes,
            &files,
            &mut snapshots,
            &mut references,
        )
        .unwrap();
    }
    assert_eq!(snapshots.len(), 2);
    assert_eq!(references.len(), 2);
}

#[test]
fn commits_are_listed_with_their_objects() {
    let commits = vec![CommitRow {
        table_version: 0,
        commit_id: id(3),
        parent_table_version: None,
        created_at_ms: 5,
        intent_count: 1,
        semantic_state: Sha256::digest(b"state"),
        uri: "_otmp/commits/0".to_string(),
        sha256: Sha256::digest(b"commit"),
        operation_json: "[]".to_string(),
        result_json: "{}".to_string(),
        metadata_json: "{}".to_string(),
    }];
    let entries = history_entries(&Plain, &commits).unwrap();
    assert_eq!(entries.len(), 1);
    assert_eq!(entries[0].commit_object_uri, "_otmp/commits/0");
    assert_eq!(entries[0].commit_id, id(3));
}

fn head_anchor() -> HeadAnchor {
    HeadAnchor {
        table_id: id(1),
        table_version: 2,
        root_revision: 3,
        semantic_state_sha256: Sha256::digest(b"state"),
    }
}

#[test]
fn a_verification_report_counts_what_was_read() {
    let records = vec![record(1, None, 1), record(2, Some(1), 2)];
    let files = vec![file(5, 1, 1), file(4, 2, 2)];
    let changes = vec![change(1, 5), change(2, 4)];
    let refs = main_branch(Some(id(2)));
    let older = reference("_otmp/generations/1", b"older");
    let newest =
        Generation { physical_parent: Some(older.clone()), ..generation(22, 2, b"two") };
    let oldest = generation(21, 1, b"one");
    let scope = VerificationScope::RetainedHistory;
    let mut checked = Verification::start(scope, head_anchor(), 100, newest.generation_id);
    let step = checked
        .take_rows(&Plain, &newest, id(32), &refs, &records, &changes, &files)
        .unwrap();
    assert!(matches!(step, VerificationStep::Load(found) if found.uri == older.uri));
    assert_eq!(checked.phase, VerificationPhase::Parent);
    checked.take_parent(&newest, &oldest).unwrap();
    let refs = main_branch(Some(id(1)));
    let step = checked
        .take_rows(&Plain, &oldest, id(31), &refs, &records, &changes, &files)
        .unwrap();
    assert!(matches!(step, VerificationStep::FollowCommits));
    for commit in [31, 30, 30] {
        checked.take_commit(id(commit));
    }
    checked.end_commits();
    assert_eq!(checked.references.len(), 2);
    assert_eq!(checked.look(None).unwrap(), ObjectStep::Read);
    checked.count(50);
    let known = (checked.references[1].sha256, checked.references[1].length.unwrap());
    let wrong = checked.look(Some((known.0, known.1 + 1))).unwrap_err();
    assert_eq!(
        wrong.message(),
        format!("table is corrupt: conflicting object reference: {}", checked.references[1].uri)
    );
    assert_eq!(checked.look(Some(known)).unwrap(), ObjectStep::Known);
    let report = checked.finish(7, 300);
    assert!(report.completed);
    assert_eq!(report.scope, scope);
    assert_eq!(report.generations_checked, 2);
    assert_eq!(report.commits_checked, 3);
    assert_eq!(report.snapshots_checked, 2);
    assert_eq!(report.objects_checked, 9);
    assert_eq!(report.bytes_checked, 450);
}

#[test]
fn a_verification_refuses_a_generation_that_it_met() {
    let newest = generation(22, 2, b"two");
    let scope = VerificationScope::RetainedHistory;
    let mut checked = Verification::start(scope, head_anchor(), 100, newest.generation_id);
    let older = reference("_otmp/generations/1", b"older");
    let linked = Generation { physical_parent: Some(older), ..generation(22, 2, b"two") };
    let none = Vec::new();
    checked
        .take_rows(&Plain, &linked, id(32), &Vec::new(), &none, &Vec::new(), &Vec::new())
        .unwrap();
    let again = generation(22, 1, b"one");
    assert!(matches!(checked.take_parent(&linked, &again), Err(RuntimeError::Corrupt(_))));
}

#[test]
fn a_verification_of_the_head_alone_reads_one_generation() {
    let newest = generation(22, 2, b"two");
    let scope = VerificationScope::Current;
    let mut checked = Verification::start(scope, head_anchor(), 100, newest.generation_id);
    let refs = main_branch(None);
    let step = checked
        .take_rows(&Plain, &newest, id(32), &refs, &Vec::new(), &Vec::new(), &Vec::new())
        .unwrap();
    assert!(matches!(step, VerificationStep::Finish));
    let report = checked.finish(0, 0);
    assert_eq!((report.generations_checked, report.objects_checked), (1, 1));
    assert_eq!(report.bytes_checked, 100);
}

#[test]
fn states_chain_from_commit_to_commit() {
    let commit = otmp::documents::SemanticCommit {
        kind: "otmp.semantic-commit".to_string(),
        format_version: 2,
        table_id: id(1),
        table_version: 0,
        parent_table_version: None,
        commit_id: id(2),
        parent_commit: None,
        created_at_ms: 1,
        intents: vec![],
        requirements: vec![],
        operations: vec![],
        required_reader_features_after_commit: vec![],
        required_writer_features_after_commit: vec![],
        previous_semantic_state_sha256: Some(Sha256::digest(b"state")),
        semantic_state_sha256: Sha256::digest(b"next"),
        metadata: CanonicalValue::Object(vec![]),
    };
    check_state_chain(Sha256::digest(b"state"), &commit).unwrap();
    assert!(check_state_chain(Sha256::digest(b"other"), &commit).is_err());
}

/// Reads a text as a list with one operation of that type on the named ref.
struct Listed;

impl TextCodec for Listed {
    fn parse(&self, text: &String) -> Result<CanonicalValue, RuntimeError> {
        let member = |key: &str, value: &str| Member {
            key: key.to_string(),
            value: CanonicalValue::Text(value.to_string()),
        };
        match text.split_once(' ') {
            Some((name, kind)) => Ok(CanonicalValue::Array(vec![CanonicalValue::Object(vec![
                member("ref", name),
                member("type", kind),
            ])])),
            None if text == "unreadable" => Err(RuntimeError::Corrupt("bad text".to_string())),
            None => Ok(CanonicalValue::Text(text.clone())),
        }
    }

    fn check_uri(&self, _text: &String) -> Result<(), RuntimeError> {
        Ok(())
    }
}

fn commit_row(version: i64, operations: &str) -> CommitRow {
    CommitRow {
        table_version: version,
        commit_id: id(version as u8),
        parent_table_version: Some(version - 1),
        created_at_ms: 0,
        intent_count: 1,
        semantic_state: Sha256::digest(b"state"),
        uri: "commit".to_string(),
        sha256: Sha256::digest(b"commit"),
        operation_json: operations.to_string(),
        result_json: "{}".to_string(),
        metadata_json: "{}".to_string(),
    }
}

#[test]
fn an_append_is_rebased_over_compatible_commits_only() {
    let snapshots = vec![
        SnapshotRow { snapshot_id: id(1), parent_snapshot_id: None, sequence_number: 1 },
        SnapshotRow { snapshot_id: id(2), parent_snapshot_id: Some(id(1)), sequence_number: 2 },
        SnapshotRow { snapshot_id: id(3), parent_snapshot_id: None, sequence_number: 3 },
    ];
    let name = "main".to_string();
    let original = Some((RefType::Branch, Some(id(1))));
    let rebase = |tip: u8, commits: Vec<CommitRow>, target: u64| {
        let refs = vec![RefRow {
            name: "main".to_string(),
            ref_type: RefType::Branch,
            snapshot_id: Some(id(tip)),
        }];
        validate_append_rebase(&Listed, &refs, &snapshots, &commits, &name, &original, 1, target)
    };
    let base = || commit_row(1, "main set_current_schema");
    let appended = || commit_row(2, "main commit_snapshot");
    rebase(2, vec![base(), appended(), commit_row(3, "dev drop_ref")], 3).unwrap();
    rebase(1, vec![base()], 1).unwrap();
    let problem = |tip, commits, target| rebase(tip, commits, target).unwrap_err().message();
    assert_eq!(
        problem(3, vec![base(), appended()], 2),
        RuntimeError::SemanticConflict("target is not an append descendant".to_string()).message()
    );
    assert_eq!(
        problem(2, vec![base(), commit_row(2, "main replace_ref")], 2),
        RuntimeError::SemanticConflict("target ref changed during append".to_string()).message()
    );
    assert_eq!(
        problem(2, vec![base(), commit_row(2, "dev set_current_schema")], 2),
        RuntimeError::SemanticConflict("current schema changed during append".to_string())
            .message()
    );
    assert_eq!(
        problem(2, vec![base(), appended()], 3),
        RuntimeError::Corrupt("commit operation history is incomplete".to_string()).message()
    );
    assert_eq!(
        problem(2, vec![base(), commit_row(3, "dev drop_ref")], 3),
        RuntimeError::Corrupt("commit operation history is not contiguous".to_string()).message()
    );
    assert_eq!(
        problem(2, vec![base(), commit_row(2, "text")], 2),
        RuntimeError::Corrupt("commit operations are not a list".to_string()).message()
    );
    assert_eq!(
        problem(2, vec![base(), commit_row(2, "unreadable")], 2),
        RuntimeError::Corrupt("bad text".to_string()).message()
    );
    let removed = validate_append_rebase(
        &Listed,
        &vec![],
        &snapshots,
        &vec![base()],
        &name,
        &original,
        1,
        1,
    );
    assert_eq!(
        removed.unwrap_err().message(),
        RuntimeError::SemanticConflict("append target removed".to_string()).message()
    );
}

#[test]
fn a_verification_goes_back_as_far_as_it_is_asked_to() {
    let parent = Some(reference("_otmp/generations/0", b"parent"));
    assert!(matches!(
        verification_step(VerificationScope::Current, &parent),
        VerificationStep::Finish
    ));
    assert!(matches!(
        verification_step(VerificationScope::RetainedHistory, &parent),
        VerificationStep::Load(r) if r.uri == "_otmp/generations/0"
    ));
    assert!(matches!(
        verification_step(VerificationScope::RetainedHistory, &None),
        VerificationStep::FollowCommits
    ));
    let mut met = vec![id(1)];
    note_id(&mut met, id(2));
    note_id(&mut met, id(1));
    assert_eq!(met, vec![id(1), id(2)]);
}

#[test]
fn an_object_that_was_read_is_not_read_again() {
    let original = reference("data/one.parquet", b"one");
    assert_eq!(object_step(&original, None).unwrap(), ObjectStep::Read);
    let known = Some((Sha256::digest(b"one"), 3));
    assert_eq!(object_step(&original, known).unwrap(), ObjectStep::Known);
    let error = object_step(&original, Some((Sha256::digest(b"two"), 3))).unwrap_err();
    assert_eq!(
        error.message(),
        "table is corrupt: conflicting object reference: data/one.parquet"
    );
}

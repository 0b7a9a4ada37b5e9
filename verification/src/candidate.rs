//! Candidates: a commit, the image that follows from it, and the head that would
//! make them the table's.
use crate::append::{
    derived_summary, invalid_append, number_text, summarizes, summary_check, AppendFile,
    AppendRequest, AppendResult, CommittedFile, FileMetric, MetricBound, VerifiedStagedFile,
};
use crate::checkpoint_index::{
    build, built, index_refused, CheckpointIndexCodec, CheckpointPageIndex,
};
use crate::documents::{
    commit_accepted, copy_texts, object_reference, Checkpoint, DocumentCodec, Generation, Head,
    IntentRecord, MetadataImage, ObjectReference, SemanticCommit,
};
use crate::error::{corrupt, ErrorView, RuntimeError};
use crate::hash::{hex_text, id_text, sha256_of, Id, Sha256};
use crate::page_map::{Artifact, PageMapRoot};
use crate::physical::{
    pages_sorted, persist, persist_error, persisted, ChangedPage, IncrementalImage, PageMapCodec,
    PagePackCodec, Tree,
};
use crate::text::{append_decimal, ascending, decimal, texts_view};
use crate::value::{
    copy_members, copy_value, keys_of, members_view, text, values_view, with_member,
    CanonicalValue, Member, ValueView,
};
use crate::schema::Schema;
use crate::transactions::{operation_ids, TransactionRequest};
use std::sync::Arc;
use vstd::prelude::*;
use vstd::string::*;

verus! {

/// What a candidate takes from the head that it is built on.
#[derive(Debug)]
pub struct ParentFacts {
    pub head: Head,
    pub snapshot_id: Option<Id>,
    pub last_sequence: u64,
    pub image: MetadataImage,
}

pub open spec fn shown(s: Seq<char>) -> ValueView {
    ValueView::Text(s)
}

pub open spec fn number(n: int) -> ValueView {
    ValueView::Text(decimal(n as nat))
}

pub open spec fn count_value(count: Option<u64>) -> ValueView {
    match count {
        None => ValueView::Null,
        Some(n) => number(n as int),
    }
}

pub open spec fn bound_value(bound: Option<MetricBound>) -> ValueView {
    match bound {
        None => ValueView::Null,
        Some(bound) => bound.value@,
    }
}

/// A metric as a commit holds it: counts as decimal texts.
pub open spec fn metric_document(metric: FileMetric) -> ValueView {
    ValueView::Object(
        seq![
            ("column_size_bytes"@, count_value(metric.column_size_bytes)),
            ("distinct_count"@, count_value(metric.distinct_count)),
            ("field_id"@, number(metric.field_id as int)),
            ("lower_bound"@, bound_value(metric.lower_bound)),
            ("metadata"@, ValueView::Object(members_view(metric.metadata@))),
            ("nan_count"@, count_value(metric.nan_count)),
            ("null_count"@, count_value(metric.null_count)),
            ("upper_bound"@, bound_value(metric.upper_bound)),
            ("value_count"@, count_value(metric.value_count)),
        ],
    )
}

pub open spec fn metric_documents(metrics: Seq<FileMetric>) -> Seq<ValueView> {
    Seq::new(metrics.len(), |i: int| metric_document(metrics[i]))
}

/// An added file as a commit holds it.
pub open spec fn file_document(staged: VerifiedStagedFile, file: AppendFile) -> ValueView {
    ValueView::Object(
        seq![
            ("content_sha256"@, shown(hex_text(file.fingerprint.sha256@))),
            ("file_format"@, shown(file.format.spec_text())),
            ("file_id"@, shown(id_text(staged.file_id@))),
            ("file_size_bytes"@, number(file.fingerprint.length as int)),
            ("metadata"@, ValueView::Object(members_view(file.metadata@))),
            ("metrics"@, ValueView::Array(metric_documents(file.metrics@))),
            ("object_identity"@, ValueView::Null),
            ("partition_spec_id"@, number(file.partition_spec_id as int)),
            ("partition_values"@, ValueView::Object(members_view(file.partition_values@))),
            ("record_count"@, number(file.record_count as int)),
            ("schema_id"@, number(file.schema_id as int)),
            ("sort_order_id"@, number(file.sort_order_id as int)),
            ("uri"@, shown(staged.uri@)),
        ],
    )
}

pub open spec fn file_documents(
    staged: Seq<VerifiedStagedFile>,
    files: Seq<AppendFile>,
) -> Seq<ValueView> {
    Seq::new(files.len(), |i: int| file_document(staged[i], files[i]))
}

pub open spec fn id_value(id: Option<Id>) -> ValueView {
    match id {
        None => ValueView::Null,
        Some(id) => shown(id_text(id@)),
    }
}

pub open spec fn snapshot_document(
    request: AppendRequest,
    parent: ParentFacts,
    snapshot_id: Id,
    summary: Seq<(Seq<char>, ValueView)>,
) -> ValueView {
    let file = request.files@[0];
    ValueView::Object(
        seq![
            ("metadata"@, ValueView::Object(members_view(request.snapshot_metadata@))),
            ("operation"@, shown("append"@)),
            ("parent_snapshot_id"@, id_value(parent.snapshot_id)),
            ("partition_spec_id"@, number(file.partition_spec_id as int)),
            ("schema_id"@, number(file.schema_id as int)),
            ("sequence_number"@, number(parent.last_sequence + 1)),
            ("snapshot_id"@, shown(id_text(snapshot_id@))),
            ("sort_order_id"@, number(file.sort_order_id as int)),
            ("summary"@, ValueView::Object(summary)),
        ],
    )
}

/// The one operation of an append.
pub open spec fn append_document(
    request: AppendRequest,
    staged: Seq<VerifiedStagedFile>,
    parent: ParentFacts,
    snapshot_id: Id,
    summary: Seq<(Seq<char>, ValueView)>,
) -> ValueView {
    ValueView::Object(
        seq![
            ("added_files"@, ValueView::Array(file_documents(staged, request.files@))),
            ("operation_id"@, shown("append-main"@)),
            ("rebase_mode"@, shown("append-safe"@)),
            ("removed_file_ids"@, ValueView::Array(Seq::empty())),
            ("scan_projection"@, ValueView::Null),
            ("snapshot"@, snapshot_document(request, parent, snapshot_id, summary)),
            ("target_ref"@, shown(request.target_ref@)),
            ("type"@, shown("commit_snapshot"@)),
        ],
    )
}

pub open spec fn committed_document(file: CommittedFile) -> ValueView {
    ValueView::Object(
        seq![("file_id"@, shown(id_text(file.file_id@))), ("uri"@, shown(file.uri@))],
    )
}

pub open spec fn committed_documents(files: Seq<CommittedFile>) -> Seq<ValueView> {
    Seq::new(files.len(), |i: int| committed_document(files[i]))
}

/// The result of an append as it is stored.
pub open spec fn result_document(result: AppendResult) -> ValueView {
    ValueView::Object(
        seq![
            ("commit_id"@, shown(id_text(result.commit_id@))),
            ("files"@, ValueView::Array(committed_documents(result.files@))),
            ("ref"@, shown(result.target_ref@)),
            ("sequence_number"@, number(result.sequence_number as int)),
            ("snapshot_id"@, shown(id_text(result.snapshot_id@))),
            ("table_version"@, number(result.table_version as int)),
        ],
    )
}

fn number_value(n: u64) -> (v: CanonicalValue)
    ensures
        v@ == number(n as int),
{
    CanonicalValue::Text(number_text(n))
}

fn count_of(count: Option<u64>) -> (v: CanonicalValue)
    ensures
        v@ == count_value(count),
{
    match count {
        None => CanonicalValue::Null,
        Some(n) => number_value(n),
    }
}

fn bound_of(bound: &Option<MetricBound>) -> (v: CanonicalValue)
    ensures
        v@ == bound_value(*bound),
{
    match bound {
        None => CanonicalValue::Null,
        Some(bound) => copy_value(&bound.value),
    }
}

fn no_members() -> (m: Vec<Member>)
    ensures
        members_view(m@) == Seq::<(Seq<char>, ValueView)>::empty(),
{
    let m: Vec<Member> = Vec::new();
    assert(m@ =~= Seq::<Member>::empty());
    m
}

/// A metric of a file, for the commit.
pub fn logical_metric(metric: &FileMetric) -> (v: CanonicalValue)
    ensures
        v@ == metric_document(*metric),
{
    let m = no_members();
    let m = with_member(m, "column_size_bytes", count_of(metric.column_size_bytes));
    let m = with_member(m, "distinct_count", count_of(metric.distinct_count));
    let m = with_member(m, "field_id", number_value(metric.field_id as u64));
    let m = with_member(m, "lower_bound", bound_of(&metric.lower_bound));
    let m = with_member(m, "metadata", CanonicalValue::Object(copy_members(&metric.metadata)));
    let m = with_member(m, "nan_count", count_of(metric.nan_count));
    let m = with_member(m, "null_count", count_of(metric.null_count));
    let m = with_member(m, "upper_bound", bound_of(&metric.upper_bound));
    let m = with_member(m, "value_count", count_of(metric.value_count));
    assert(members_view(m@) =~= metric_document(*metric)->Object_0);
    CanonicalValue::Object(m)
}

proof fn lemma_push_value(items: Seq<CanonicalValue>, v: CanonicalValue)
    ensures
        values_view(items.push(v)) == values_view(items).push(v@),
{
    assert(items.push(v).drop_last() =~= items);
}

/// The metrics of a file, for the commit.
pub fn logical_metrics(metrics: &Vec<FileMetric>) -> (values: Vec<CanonicalValue>)
    ensures
        values_view(values@) == metric_documents(metrics@),
{
    let mut values: Vec<CanonicalValue> = Vec::new();
    let mut i: usize = 0;
    assert(values@ =~= Seq::<CanonicalValue>::empty());
    assert(values_view(values@) =~= metric_documents(metrics@).take(0));
    while i < metrics.len()
        invariant
            i <= metrics@.len(),
            values_view(values@) == metric_documents(metrics@).take(i as int),
        decreases metrics@.len() - i,
    {
        let value = logical_metric(&metrics[i]);
        proof {
            lemma_push_value(values@, value);
        }
        values.push(value);
        i = i + 1;
        assert(values_view(values@) =~= metric_documents(metrics@).take(i as int));
    }
    assert(values_view(values@) =~= metric_documents(metrics@));
    values
}

fn added_file(staged: &VerifiedStagedFile, file: &AppendFile) -> (v: CanonicalValue)
    ensures
        v@ == file_document(*staged, *file),
{
    let m = no_members();
    let m = with_member(
        m,
        "content_sha256",
        CanonicalValue::Text(file.fingerprint.sha256.to_text()),
    );
    let m = with_member(m, "file_format", text(file.format.as_str()));
    let m = with_member(m, "file_id", CanonicalValue::Text(staged.file_id.to_text()));
    let m = with_member(m, "file_size_bytes", number_value(file.fingerprint.length));
    let m = with_member(m, "metadata", CanonicalValue::Object(copy_members(&file.metadata)));
    let m = with_member(m, "metrics", CanonicalValue::Array(logical_metrics(&file.metrics)));
    let m = with_member(m, "object_identity", CanonicalValue::Null);
    let m = with_member(m, "partition_spec_id", number_value(file.partition_spec_id as u64));
    let m = with_member(
        m,
        "partition_values",
        CanonicalValue::Object(copy_members(&file.partition_values)),
    );
    let m = with_member(m, "record_count", number_value(file.record_count));
    let m = with_member(m, "schema_id", number_value(file.schema_id as u64));
    let m = with_member(m, "sort_order_id", number_value(file.sort_order_id as u64));
    let m = with_member(m, "uri", CanonicalValue::Text(staged.uri.clone()));
    assert(members_view(m@) =~= file_document(*staged, *file)->Object_0);
    CanonicalValue::Object(m)
}

fn added_files(staged: &Vec<VerifiedStagedFile>, files: &Vec<AppendFile>) -> (values: Vec<
    CanonicalValue,
>)
    requires
        staged@.len() == files@.len(),
    ensures
        values_view(values@) == file_documents(staged@, files@),
{
    let mut values: Vec<CanonicalValue> = Vec::new();
    let mut i: usize = 0;
    assert(values@ =~= Seq::<CanonicalValue>::empty());
    assert(values_view(values@) =~= file_documents(staged@, files@).take(0));
    while i < files.len()
        invariant
            i <= files@.len(),
            staged@.len() == files@.len(),
            values_view(values@) == file_documents(staged@, files@).take(i as int),
        decreases files@.len() - i,
    {
        let value = added_file(&staged[i], &files[i]);
        proof {
            lemma_push_value(values@, value);
        }
        values.push(value);
        i = i + 1;
        assert(values_view(values@) =~= file_documents(staged@, files@).take(i as int));
    }
    assert(values_view(values@) =~= file_documents(staged@, files@));
    values
}

fn id_of(id: &Option<Id>) -> (v: CanonicalValue)
    ensures
        v@ == id_value(*id),
{
    match id {
        None => CanonicalValue::Null,
        Some(id) => CanonicalValue::Text(id.to_text()),
    }
}

fn append_operation(
    request: &AppendRequest,
    staged: &Vec<VerifiedStagedFile>,
    parent: &ParentFacts,
    snapshot_id: Id,
    summary: &Vec<Member>,
) -> (v: CanonicalValue)
    requires
        request.files@.len() > 0,
        staged@.len() == request.files@.len(),
        parent.last_sequence < u64::MAX,
    ensures
        v@ == append_document(*request, staged@, *parent, snapshot_id, members_view(summary@)),
{
    let file = &request.files[0];
    let m = no_members();
    let m = with_member(
        m,
        "metadata",
        CanonicalValue::Object(copy_members(&request.snapshot_metadata)),
    );
    let m = with_member(m, "operation", text("append"));
    let m = with_member(m, "parent_snapshot_id", id_of(&parent.snapshot_id));
    let m = with_member(m, "partition_spec_id", number_value(file.partition_spec_id as u64));
    let m = with_member(m, "schema_id", number_value(file.schema_id as u64));
    let m = with_member(m, "sequence_number", number_value(parent.last_sequence + 1));
    let m = with_member(m, "snapshot_id", CanonicalValue::Text(snapshot_id.to_text()));
    let m = with_member(m, "sort_order_id", number_value(file.sort_order_id as u64));
    let m = with_member(m, "summary", CanonicalValue::Object(copy_members(summary)));
    assert(members_view(m@) =~= snapshot_document(
        *request,
        *parent,
        snapshot_id,
        members_view(summary@),
    )->Object_0);
    let snapshot = CanonicalValue::Object(m);
    let none: Vec<CanonicalValue> = Vec::new();
    assert(none@ =~= Seq::<CanonicalValue>::empty());
    let m = no_members();
    let m = with_member(
        m,
        "added_files",
        CanonicalValue::Array(added_files(staged, &request.files)),
    );
    let m = with_member(m, "operation_id", text("append-main"));
    let m = with_member(m, "rebase_mode", text("append-safe"));
    let m = with_member(m, "removed_file_ids", CanonicalValue::Array(none));
    let m = with_member(m, "scan_projection", CanonicalValue::Null);
    let m = with_member(m, "snapshot", snapshot);
    let m = with_member(m, "target_ref", CanonicalValue::Text(request.target_ref.clone()));
    let m = with_member(m, "type", text("commit_snapshot"));
    assert(members_view(m@) =~= append_document(
        *request,
        staged@,
        *parent,
        snapshot_id,
        members_view(summary@),
    )->Object_0);
    CanonicalValue::Object(m)
}

fn committed_value(file: &CommittedFile) -> (v: CanonicalValue)
    ensures
        v@ == committed_document(*file),
{
    let m = no_members();
    let m = with_member(m, "file_id", CanonicalValue::Text(file.file_id.to_text()));
    let m = with_member(m, "uri", CanonicalValue::Text(file.uri.clone()));
    assert(members_view(m@) =~= committed_document(*file)->Object_0);
    CanonicalValue::Object(m)
}

/// The result of an append, for storing.
pub fn result_value(result: &AppendResult) -> (v: CanonicalValue)
    ensures
        v@ == result_document(*result),
{
    let files = &result.files;
    let mut values: Vec<CanonicalValue> = Vec::new();
    let mut i: usize = 0;
    assert(values@ =~= Seq::<CanonicalValue>::empty());
    assert(values_view(values@) =~= committed_documents(files@).take(0));
    while i < files.len()
        invariant
            i <= files@.len(),
            values_view(values@) == committed_documents(files@).take(i as int),
        decreases files@.len() - i,
    {
        let value = committed_value(&files[i]);
        proof {
            lemma_push_value(values@, value);
        }
        values.push(value);
        i = i + 1;
        assert(values_view(values@) =~= committed_documents(files@).take(i as int));
    }
    assert(values_view(values@) =~= committed_documents(files@));
    let m = no_members();
    let m = with_member(m, "commit_id", CanonicalValue::Text(result.commit_id.to_text()));
    let m = with_member(m, "files", CanonicalValue::Array(values));
    let m = with_member(m, "ref", CanonicalValue::Text(result.target_ref.clone()));
    let m = with_member(m, "sequence_number", number_value(result.sequence_number));
    let m = with_member(m, "snapshot_id", CanonicalValue::Text(result.snapshot_id.to_text()));
    let m = with_member(m, "table_version", number_value(result.table_version));
    assert(members_view(m@) =~= result_document(*result)->Object_0);
    CanonicalValue::Object(m)
}

pub open spec fn requirement_document(
    kind: Seq<char>,
    key: Seq<char>,
    id: int,
) -> ValueView {
    ValueView::Object(seq![(key, number(id)), ("type"@, shown(kind))])
}

fn requirement(kind: &str, key: &str, id: u64) -> (v: CanonicalValue)
    ensures
        v@ == requirement_document(kind@, key@, id as int),
{
    let m = no_members();
    let m = with_member(m, key, number_value(id));
    let m = with_member(m, "type", text(kind));
    assert(members_view(m@) =~= requirement_document(kind@, key@, id as int)->Object_0);
    CanonicalValue::Object(m)
}

/// What an append requires of the table.
pub open spec fn append_requirements(request: AppendRequest) -> Seq<ValueView> {
    seq![
        requirement_document(
            "current_schema_is"@,
            "schema_id"@,
            request.files@[0].schema_id as int,
        ),
        requirement_document("default_partition_spec_is"@, "partition_spec_id"@, 0),
        requirement_document("default_sort_order_is"@, "sort_order_id"@, 0),
    ]
}

pub open spec fn commit_uri_text(version: u64, id: Id) -> Seq<char> {
    "_otmp/commits/"@ + decimal(version as nat) + "/"@ + id_text(id@) + ".json"@
}

/// The address of a versioned object.
fn versioned_uri(prefix: &str, version: u64, id: Id, suffix: &str) -> (uri: String)
    ensures
        uri@ == prefix@ + decimal(version as nat) + "/"@ + id_text(id@) + suffix@,
{
    let mut uri = prefix.to_owned();
    append_decimal(&mut uri, version);
    uri.append("/");
    uri.append(id.to_text().as_str());
    uri.append(suffix);
    uri
}

/// An append that is ready to be written into an image.
#[derive(Debug)]
pub struct PreparedAppend {
    pub result: AppendResult,
    pub summary: Vec<Member>,
    pub commit: SemanticCommit,
    pub commit_uri: String,
    pub commit_bytes: Vec<u8>,
}

pub open spec fn append_result_is(
    result: AppendResult,
    request: AppendRequest,
    staged: Seq<VerifiedStagedFile>,
    parent: ParentFacts,
    commit_id: Id,
    snapshot_id: Id,
) -> bool {
    &&& result.table_version == parent.head.table_version + 1
    &&& result.commit_id == commit_id
    &&& result.snapshot_id == snapshot_id
    &&& result.sequence_number == parent.last_sequence + 1
    &&& result.target_ref@ == request.target_ref@
    &&& result.files@.len() == staged.len()
    &&& forall|i: int|
        0 <= i < staged.len() ==> (#[trigger] result.files@[i]).file_id == staged[i].file_id
            && result.files@[i].uri@ == staged[i].uri@
}

/// The parts of a commit that follow from the head that it is built on.
pub open spec fn follows_head(
    commit: SemanticCommit,
    head: Head,
    commit_id: Id,
    created_at_ms: i64,
) -> bool {
    &&& commit.kind@ == "otmp.semantic-commit"@
    &&& commit.format_version == 1
    &&& commit.table_id == head.table_id
    &&& commit.table_version == head.table_version + 1
    &&& commit.parent_table_version == Some(head.table_version)
    &&& commit.commit_id == commit_id
    &&& commit.parent_commit == Some(head.semantic_commit)
    &&& commit.created_at_ms == created_at_ms
    &&& commit.required_reader_features_after_commit@ == head.required_reader_features@
    &&& commit.required_writer_features_after_commit@ == head.required_writer_features@
    &&& commit.previous_semantic_state_sha256 == Some(head.semantic_state_sha256)
}

/// The commit's state is the codec's, whatever stood in its place before.
pub open spec fn state_follows<C: DocumentCodec>(
    codec: C,
    previous: Sha256,
    commit: SemanticCommit,
) -> bool {
    exists|draft: SemanticCommit|
        {
            &&& #[trigger] call_ensures(
                C::next_state,
                (&codec, previous, &draft),
                Ok::<Sha256, RuntimeError>(commit.semantic_state_sha256),
            )
            &&& draft == (SemanticCommit {
                semantic_state_sha256: draft.semantic_state_sha256,
                ..commit
            })
        }
}

/// The codec could not say the state of a commit of this shape, or refused to
/// write the commit with its state.
pub open spec fn commit_refused<C: DocumentCodec>(
    codec: C,
    previous: Sha256,
    shape: spec_fn(SemanticCommit) -> bool,
    e: RuntimeError,
) -> bool {
    ||| exists|commit: SemanticCommit| #[trigger]
        call_ensures(
            C::next_state,
            (&codec, previous, &commit),
            Err::<Sha256, RuntimeError>(e),
        ) && shape(commit)
    ||| exists|commit: SemanticCommit| #[trigger]
        call_ensures(C::encode_commit, (&codec, &commit), Err::<Vec<u8>, RuntimeError>(e)) && shape(
            commit,
        ) && state_follows(codec, previous, commit)
}

/// The commit of an append on a parent, but for its state.
pub open spec fn append_shape(
    request: AppendRequest,
    staged: Seq<VerifiedStagedFile>,
    logical_hash: Sha256,
    parent: ParentFacts,
    commit_id: Id,
    snapshot_id: Id,
    created_at_ms: i64,
) -> spec_fn(SemanticCommit) -> bool {
    |commit: SemanticCommit|
        follows_head(commit, parent.head, commit_id, created_at_ms) && exists|
            result: AppendResult,
            summary: Seq<(Seq<char>, ValueView)>,
        |
            {
                &&& append_result_is(result, request, staged, parent, commit_id, snapshot_id)
                &&& summarizes(summary, request)
                &&& #[trigger] append_commit_is(
                    commit,
                    request,
                    staged,
                    logical_hash,
                    parent,
                    result,
                    summary,
                )
            }
}

/// The commit of a metadata transaction on a head, but for its state.
pub open spec fn transaction_shape(
    request: TransactionRequest,
    logical_hash: Sha256,
    head: Head,
    documents: TransactionDocuments,
    commit_id: Id,
    created_at_ms: i64,
) -> spec_fn(SemanticCommit) -> bool {
    |commit: SemanticCommit|
        {
            &&& follows_head(commit, head, commit_id, created_at_ms)
            &&& commit.intents@.len() == 1
            &&& commit.intents@[0].key@ == request.idempotency_key@
            &&& commit.intents@[0].intent_sha256 == logical_hash
            &&& texts_view(commit.intents@[0].operation_ids@) == operation_ids(request.operations@)
            &&& commit.intents@[0].result == documents.result
            &&& commit.requirements == documents.requirements
            &&& commit.operations == documents.operations
            &&& commit.metadata == documents.metadata
        }
}

pub open spec fn append_commit_is(
    commit: SemanticCommit,
    request: AppendRequest,
    staged: Seq<VerifiedStagedFile>,
    logical_hash: Sha256,
    parent: ParentFacts,
    result: AppendResult,
    summary: Seq<(Seq<char>, ValueView)>,
) -> bool {
    &&& commit.intents@.len() == 1
    &&& commit.intents@[0].key@ == request.idempotency_key@
    &&& commit.intents@[0].intent_sha256 == logical_hash
    &&& texts_view(commit.intents@[0].operation_ids@) == seq!["append-main"@]
    &&& commit.intents@[0].result@ == result_document(result)
    &&& values_view(commit.requirements@) == append_requirements(request)
    &&& values_view(commit.operations@) == seq![
        append_document(request, staged, parent, result.snapshot_id, summary),
    ]
    &&& commit.metadata@ == ValueView::Object(members_view(request.commit_metadata@))
}

/// Why an append cannot be prepared at all.
pub open spec fn append_exhausted(request: AppendRequest, parent: ParentFacts) -> Result<
    (),
    ErrorView,
> {
    if parent.head.table_version == u64::MAX {
        Err(invalid_append("table version exhausted"@))
    } else if parent.last_sequence == u64::MAX {
        Err(invalid_append("sequence number exhausted"@))
    } else {
        summary_check(request.files@)
    }
}

/// Prepares the commit of an append on a parent.
pub fn prepare_append<C: DocumentCodec>(
    codec: &C,
    request: &AppendRequest,
    staged: &Vec<VerifiedStagedFile>,
    logical_hash: Sha256,
    parent: &ParentFacts,
    commit_id: Id,
    snapshot_id: Id,
    created_at_ms: i64,
) -> (r: Result<PreparedAppend, RuntimeError>)
    requires
        request.files@.len() > 0,
        staged@.len() == request.files@.len(),
        ascending(keys_of(members_view(request.summary@))),
    ensures
        match r {
            Ok(p) => {
                &&& append_exhausted(*request, *parent) is Ok
                &&& append_result_is(
                    p.result,
                    *request,
                    staged@,
                    *parent,
                    commit_id,
                    snapshot_id,
                )
                &&& summarizes(members_view(p.summary@), *request)
                &&& follows_head(p.commit, parent.head, commit_id, created_at_ms)
                &&& append_commit_is(
                    p.commit,
                    *request,
                    staged@,
                    logical_hash,
                    *parent,
                    p.result,
                    members_view(p.summary@),
                )
                &&& state_follows(*codec, parent.head.semantic_state_sha256, p.commit)
                &&& p.commit_uri@ == commit_uri_text(p.commit.table_version, commit_id)
                &&& call_ensures(
                    C::encode_commit,
                    (codec, &p.commit),
                    Ok::<Vec<u8>, RuntimeError>(p.commit_bytes),
                )
            },
            Err(e) => if append_exhausted(*request, *parent) is Err {
                append_exhausted(*request, *parent) == Err::<(), ErrorView>(e@)
            } else {
                commit_refused(
                    *codec,
                    parent.head.semantic_state_sha256,
                    append_shape(
                        *request,
                        staged@,
                        logical_hash,
                        *parent,
                        commit_id,
                        snapshot_id,
                        created_at_ms,
                    ),
                    e,
                )
            },
        },
{
    let head = &parent.head;
    if head.table_version == u64::MAX {
        return Err(RuntimeError::InvalidAppend("table version exhausted".to_owned()));
    }
    if parent.last_sequence == u64::MAX {
        return Err(RuntimeError::InvalidAppend("sequence number exhausted".to_owned()));
    }
    let table_version: u64 = head.table_version + 1;
    let sequence_number: u64 = parent.last_sequence + 1;
    let mut files: Vec<CommittedFile> = Vec::new();
    let mut i: usize = 0;
    while i < staged.len()
        invariant
            i <= staged@.len(),
            files@.len() == i,
            forall|k: int|
                0 <= k < i ==> (#[trigger] files@[k]).file_id == staged@[k].file_id
                    && files@[k].uri@ == staged@[k].uri@,
        decreases staged@.len() - i,
    {
        files.push(CommittedFile { file_id: staged[i].file_id, uri: staged[i].uri.clone() });
        i = i + 1;
    }
    let result = AppendResult {
        table_version,
        commit_id,
        snapshot_id,
        sequence_number,
        target_ref: request.target_ref.clone(),
        files,
    };
    let summary = match derived_summary(request) {
        Err(e) => {
            return Err(e);
        },
        Ok(summary) => summary,
    };
    let operation = append_operation(request, staged, parent, snapshot_id, &summary);
    let mut operations: Vec<CanonicalValue> = Vec::new();
    proof {
        assert(operations@ =~= Seq::<CanonicalValue>::empty());
        lemma_push_value(operations@, operation);
    }
    operations.push(operation);
    let mut requirements: Vec<CanonicalValue> = Vec::new();
    let a = requirement("current_schema_is", "schema_id", request.files[0].schema_id as u64);
    let b = requirement("default_partition_spec_is", "partition_spec_id", 0);
    let c = requirement("default_sort_order_is", "sort_order_id", 0);
    proof {
        assert(requirements@ =~= Seq::<CanonicalValue>::empty());
        lemma_push_value(requirements@, a);
        lemma_push_value(requirements@.push(a), b);
        lemma_push_value(requirements@.push(a).push(b), c);
    }
    requirements.push(a);
    requirements.push(b);
    requirements.push(c);
    let mut operation_ids: Vec<String> = Vec::new();
    operation_ids.push("append-main".to_owned());
    let mut intents: Vec<IntentRecord> = Vec::new();
    intents.push(
        IntentRecord {
            key: request.idempotency_key.clone(),
            intent_sha256: logical_hash,
            operation_ids,
            result: result_value(&result),
        },
    );
    let mut commit = SemanticCommit {
        kind: "otmp.semantic-commit".to_owned(),
        format_version: 1,
        table_id: head.table_id,
        table_version,
        parent_table_version: Some(head.table_version),
        commit_id,
        parent_commit: Some(head.semantic_commit.clone()),
        created_at_ms,
        intents,
        requirements,
        operations,
        required_reader_features_after_commit: copy_texts(&head.required_reader_features),
        required_writer_features_after_commit: copy_texts(&head.required_writer_features),
        previous_semantic_state_sha256: Some(head.semantic_state_sha256),
        semantic_state_sha256: Sha256 { bytes: [0;32] },
        metadata: CanonicalValue::Object(copy_members(&request.commit_metadata)),
    };
    let ghost draft = commit;
    let ghost shape = append_shape(
        *request,
        staged@,
        logical_hash,
        *parent,
        commit_id,
        snapshot_id,
        created_at_ms,
    );
    proof {
        assert(texts_view(commit.intents@[0].operation_ids@) =~= seq!["append-main"@]);
        assert(values_view(commit.operations@) =~= seq![
            append_document(*request, staged@, *parent, snapshot_id, members_view(summary@)),
        ]);
        assert(values_view(commit.requirements@) =~= append_requirements(*request));
        assert(append_commit_is(
            commit,
            *request,
            staged@,
            logical_hash,
            *parent,
            result,
            members_view(summary@),
        ));
        assert(shape(commit));
    }
    match codec.next_state(head.semantic_state_sha256, &commit) {
        Err(e) => {
            return Err(e);
        },
        Ok(state) => {
            commit.semantic_state_sha256 = state;
        },
    }
    assert(call_ensures(
        C::next_state,
        (codec, head.semantic_state_sha256, &draft),
        Ok::<Sha256, RuntimeError>(commit.semantic_state_sha256),
    ));
    proof {
        assert(append_commit_is(
            commit,
            *request,
            staged@,
            logical_hash,
            *parent,
            result,
            members_view(summary@),
        ));
        assert(shape(commit));
    }
    let commit_bytes: Vec<u8> = match codec.encode_commit(&commit) {
        Err(e) => {
            return Err(e);
        },
        Ok(bytes) => bytes,
    };
    let commit_uri = versioned_uri("_otmp/commits/", table_version, commit_id, ".json");
    Ok(PreparedAppend { result, summary, commit, commit_uri, commit_bytes })
}

/// The media types of the documents that heads refer to.
#[derive(Debug)]
pub struct MediaTypes {
    pub commit: String,
    pub generation: String,
}

/// What a metadata transaction puts into its commit, in the format's own values.
#[derive(Debug)]
pub struct TransactionDocuments {
    pub requirements: Vec<CanonicalValue>,
    pub operations: Vec<CanonicalValue>,
    pub result: CanonicalValue,
    pub metadata: CanonicalValue,
}

/// A commit that is ready to be written into an image.
#[derive(Debug)]
pub struct PreparedCommit {
    pub commit: SemanticCommit,
    pub commit_uri: String,
    pub commit_bytes: Vec<u8>,
}

/// The version that follows a head's.
pub fn next_version(head: &Head) -> (r: Result<u64, RuntimeError>)
    ensures
        match r {
            Ok(version) => version == head.table_version + 1,
            Err(e) => head.table_version == u64::MAX && e@ == ErrorView::InvalidTransaction(
                "version exhausted"@,
            ),
        },
{
    if head.table_version == u64::MAX {
        Err(RuntimeError::InvalidTransaction("version exhausted".to_owned()))
    } else {
        Ok(head.table_version + 1)
    }
}

/// Prepares the commit of a metadata transaction on a head.
pub fn prepare_transaction<C: DocumentCodec>(
    codec: &C,
    request: &TransactionRequest,
    logical_hash: Sha256,
    head: &Head,
    documents: TransactionDocuments,
    commit_id: Id,
    created_at_ms: i64,
) -> (r: Result<PreparedCommit, RuntimeError>)
    ensures
        match r {
            Ok(p) => {
                &&& head.table_version < u64::MAX
                &&& follows_head(p.commit, *head, commit_id, created_at_ms)
                &&& p.commit.intents@.len() == 1
                &&& p.commit.intents@[0].key@ == request.idempotency_key@
                &&& p.commit.intents@[0].intent_sha256 == logical_hash
                &&& texts_view(p.commit.intents@[0].operation_ids@) == operation_ids(
                    request.operations@,
                )
                &&& p.commit.intents@[0].result == documents.result
                &&& p.commit.requirements == documents.requirements
                &&& p.commit.operations == documents.operations
                &&& p.commit.metadata == documents.metadata
                &&& state_follows(*codec, head.semantic_state_sha256, p.commit)
                &&& p.commit_uri@ == commit_uri_text(p.commit.table_version, commit_id)
                &&& call_ensures(
                    C::encode_commit,
                    (codec, &p.commit),
                    Ok::<Vec<u8>, RuntimeError>(p.commit_bytes),
                )
            },
            Err(e) => if head.table_version == u64::MAX {
                e@ == ErrorView::InvalidTransaction("version exhausted"@)
            } else {
                commit_refused(
                    *codec,
                    head.semantic_state_sha256,
                    transaction_shape(
                        *request,
                        logical_hash,
                        *head,
                        documents,
                        commit_id,
                        created_at_ms,
                    ),
                    e,
                )
            },
        },
{
    let table_version: u64 = match next_version(head) {
        Err(e) => {
            return Err(e);
        },
        Ok(version) => version,
    };
    let ghost given = documents;
    let operations = &request.operations;
    let mut ids: Vec<String> = Vec::new();
    let mut i: usize = 0;
    while i < operations.len()
        invariant
            i <= operations@.len(),
            ids@.len() == i,
            forall|k: int| 0 <= k < i ==> (#[trigger] ids@[k])@ == operations@[k].spec_id(),
        decreases operations@.len() - i,
    {
        ids.push(operations[i].id().clone());
        i = i + 1;
    }
    let mut intents: Vec<IntentRecord> = Vec::new();
    assert(texts_view(ids@) =~= operation_ids(operations@));
    intents.push(
        IntentRecord {
            key: request.idempotency_key.clone(),
            intent_sha256: logical_hash,
            operation_ids: ids,
            result: documents.result,
        },
    );
    let mut commit = SemanticCommit {
        kind: "otmp.semantic-commit".to_owned(),
        format_version: 1,
        table_id: head.table_id,
        table_version,
        parent_table_version: Some(head.table_version),
        commit_id,
        parent_commit: Some(head.semantic_commit.clone()),
        created_at_ms,
        intents,
        requirements: documents.requirements,
        operations: documents.operations,
        required_reader_features_after_commit: copy_texts(&head.required_reader_features),
        required_writer_features_after_commit: copy_texts(&head.required_writer_features),
        previous_semantic_state_sha256: Some(head.semantic_state_sha256),
        semantic_state_sha256: Sha256 { bytes: [0;32] },
        metadata: documents.metadata,
    };
    let ghost draft = commit;
    let ghost shape = transaction_shape(
        *request,
        logical_hash,
        *head,
        given,
        commit_id,
        created_at_ms,
    );
    assert(shape(commit));
    match codec.next_state(head.semantic_state_sha256, &commit) {
        Err(e) => {
            return Err(e);
        },
        Ok(state) => {
            commit.semantic_state_sha256 = state;
        },
    }
    assert(call_ensures(
        C::next_state,
        (codec, head.semantic_state_sha256, &draft),
        Ok::<Sha256, RuntimeError>(commit.semantic_state_sha256),
    ));
    assert(shape(commit));
    let commit_bytes: Vec<u8> = match codec.encode_commit(&commit) {
        Err(e) => {
            return Err(e);
        },
        Ok(bytes) => bytes,
    };
    let commit_uri = versioned_uri("_otmp/commits/", table_version, commit_id, ".json");
    Ok(PreparedCommit { commit, commit_uri, commit_bytes })
}

/// How the image of a candidate is published.
#[derive(Debug)]
pub enum ImagePlan {
    /// As changes over the parent's checkpoint.
    Incremental(IncrementalImage),
    /// As a checkpoint of its own.
    Checkpoint,
}

/// A page map is worth it only if it is there and takes less than the image.
pub open spec fn worth_it(image: IncrementalImage, page_count: u64) -> bool {
    image.root is Some && image.reachable_bytes < page_count * 4096
}

/// The codec refuses the commit with this error.
pub open spec fn form_refused<C: DocumentCodec>(
    codec: C,
    commit: SemanticCommit,
    e: RuntimeError,
) -> bool {
    call_ensures(C::validate_commit, (&codec, &commit), Err::<(), RuntimeError>(e))
}

/// Decides whether the changed pages of a candidate are published over the
/// parent's checkpoint or a new checkpoint is due.
pub fn plan_image<C: DocumentCodec + PageMapCodec + PagePackCodec>(
    codec: &C,
    commit: &SemanticCommit,
    tree: Option<&Arc<Tree>>,
    pages: &Vec<ChangedPage>,
    page_count: u64,
) -> (r: Result<ImagePlan, RuntimeError>)
    requires
        tree matches Some(tree) ==> tree.wf(),
        pages_sorted(pages@),
    ensures
        match r {
            Ok(plan) => {
                &&& commit_accepted(*codec, *commit)
                &&& page_count * 4096 <= u64::MAX
                &&& match plan {
                    ImagePlan::Incremental(image) => {
                        &&& persisted(codec, image, tree, pages@, page_count)
                        &&& worth_it(image, page_count)
                    },
                    ImagePlan::Checkpoint => exists|image: IncrementalImage|
                        {
                            &&& #[trigger] persisted(codec, image, tree, pages@, page_count)
                            &&& !worth_it(image, page_count)
                        },
                }
            },
            Err(e) => {
                ||| form_refused(*codec, *commit, e)
                ||| {
                    &&& commit_accepted(*codec, *commit)
                    &&& page_count * 4096 > u64::MAX
                    &&& e@ == ErrorView::Corrupt("candidate image length overflow"@)
                }
                ||| {
                    &&& commit_accepted(*codec, *commit)
                    &&& page_count * 4096 <= u64::MAX
                    &&& persist_error(codec, tree, pages@, page_count, e)
                }
            },
        },
{
    let form = codec.validate_commit(commit);
    if let Err(e) = form {
        return Err(e);
    }
    assert(form is Ok && call_ensures(C::validate_commit, (codec, commit), form));
    if page_count > u64::MAX / 4096 {
        return Err(corrupt("candidate image length overflow"));
    }
    let length: u64 = page_count * 4096;
    match persist(codec, tree, pages.as_slice(), page_count) {
        Err(e) => Err(e),
        Ok(image) => {
            if image.root.is_none() || image.reachable_bytes >= length {
                assert(persisted(codec, image, tree, pages@, page_count));
                assert(!worth_it(image, page_count));
                Ok(ImagePlan::Checkpoint)
            } else {
                Ok(ImagePlan::Incremental(image))
            }
        },
    }
}

/// The image that a candidate is published with.
#[derive(Debug)]
pub enum CandidateImage {
    Incremental(IncrementalImage),
    /// All bytes of the image, and the identity that its object gets.
    Checkpoint { id: Id, bytes: Vec<u8> },
}

/// A candidate: what has to be put, and the head that makes it the table's.
#[derive(Debug)]
pub struct Candidate {
    pub commit_uri: String,
    pub commit_bytes: Vec<u8>,
    pub image_artifacts: Vec<Artifact>,
    pub generation: Generation,
    pub generation_uri: String,
    pub generation_bytes: Vec<u8>,
    pub head: Head,
    pub head_bytes: Vec<u8>,
}

pub open spec fn checkpoint_uri_text(version: u64, id: Id) -> Seq<char> {
    "_otmp/checkpoints/"@ + decimal(version as nat) + "/"@ + id_text(id@) + ".sqlite3"@
}

pub open spec fn generation_uri_text(version: u64, id: Id) -> Seq<char> {
    "_otmp/generations/"@ + decimal(version as nat) + "/"@ + id_text(id@) + ".json"@
}

/// The image as a generation describes it, with the objects that are new.
pub open spec fn image_parts<C: CheckpointIndexCodec>(
    codec: C,
    image: CandidateImage,
    version: u64,
    former: Option<MetadataImage>,
    checkpoint: Checkpoint,
    page_map: Option<PageMapRoot>,
    index: Option<CheckpointPageIndex>,
    artifacts: Seq<Artifact>,
) -> bool {
    match image {
        CandidateImage::Incremental(image) => {
            &&& former matches Some(former) && checkpoint == former.checkpoint && index
                == former.checkpoint_page_index
            &&& page_map == image.root
            &&& artifacts == image.artifacts@
        },
        CandidateImage::Checkpoint { id, bytes } => {
            &&& checkpoint.table_version == version
            &&& checkpoint.uri@ == checkpoint_uri_text(version, id)
            &&& checkpoint.sha256@ == sha256_of(bytes@)
            &&& checkpoint.length == bytes@.len()
            &&& page_map is None
            &&& artifacts.len() > 0
            &&& artifacts.last().uri@ == checkpoint.uri@
            &&& artifacts.last().bytes == bytes
            &&& index matches Some(index) && built(
                codec,
                checkpoint.sha256,
                checkpoint.length,
                4096,
                bytes@,
                index,
                artifacts.drop_last(),
            )
        },
    }
}

/// What a candidate is made of.
pub struct CandidateFacts {
    pub commit: SemanticCommit,
    pub commit_uri: Seq<char>,
    pub commit_bytes: Seq<u8>,
    pub table_id: Id,
    pub reader_features: Seq<String>,
    pub writer_features: Seq<String>,
    pub media: MediaTypes,
    pub former: Option<MetadataImage>,
    pub physical_parent: Option<ObjectReference>,
    pub image: CandidateImage,
    pub page_count: u64,
    pub generation_id: Id,
    pub root_revision: int,
}

/// The facts of a candidate on a parent: the table and its features are the
/// parent head's.
pub open spec fn following(
    parent: ParentFacts,
    commit: SemanticCommit,
    commit_uri: Seq<char>,
    commit_bytes: Seq<u8>,
    media: MediaTypes,
    image: CandidateImage,
    page_count: u64,
    generation_id: Id,
) -> CandidateFacts {
    CandidateFacts {
        commit,
        commit_uri,
        commit_bytes,
        table_id: parent.head.table_id,
        reader_features: parent.head.required_reader_features@,
        writer_features: parent.head.required_writer_features@,
        media,
        former: Some(parent.image),
        physical_parent: Some(parent.head.metadata_generation),
        image,
        page_count,
        generation_id,
        root_revision: parent.head.root_revision + 1,
    }
}

/// The facts of a table's first candidate.
pub open spec fn starting(
    prepared: PreparedCommit,
    media: MediaTypes,
    image: CandidateImage,
    page_count: u64,
    generation_id: Id,
) -> CandidateFacts {
    CandidateFacts {
        commit: prepared.commit,
        commit_uri: prepared.commit_uri@,
        commit_bytes: prepared.commit_bytes@,
        table_id: prepared.commit.table_id,
        reader_features: prepared.commit.required_reader_features_after_commit@,
        writer_features: prepared.commit.required_writer_features_after_commit@,
        media,
        former: None,
        physical_parent: None,
        image,
        page_count,
        generation_id,
        root_revision: 0,
    }
}

/// The generation of a candidate, with the objects of its image that are new.
pub open spec fn generation_is<C: DocumentCodec + CheckpointIndexCodec>(
    codec: C,
    g: Generation,
    artifacts: Seq<Artifact>,
    facts: CandidateFacts,
) -> bool {
    let commit = facts.commit;
    let map_hash = match g.metadata_image.page_map {
        None => None,
        Some(root) => Some(root.sha256),
    };
    &&& g.kind@ == "otmp.metadata-generation"@
    &&& g.format_version == 1
    &&& g.table_id == facts.table_id
    &&& g.table_version == commit.table_version
    &&& g.generation_id == facts.generation_id
    &&& g.created_at_ms == commit.created_at_ms
    &&& g.semantic_state_sha256 == commit.semantic_state_sha256
    &&& g.physical_parent == facts.physical_parent
    &&& refers_to(g.semantic_commit, facts.commit_uri, facts.commit_bytes, facts.media.commit@)
    &&& g.metadata_image.codec@ == "otmp.metadata.sqlite3-cow.v1"@
    &&& g.metadata_image.page_size == 4096
    &&& g.metadata_image.page_count == facts.page_count
    &&& image_parts(
        codec,
        facts.image,
        commit.table_version,
        facts.former,
        g.metadata_image.checkpoint,
        g.metadata_image.page_map,
        g.metadata_image.checkpoint_page_index,
        artifacts,
    )
    &&& call_ensures(
        C::image_root,
        (
            &codec,
            facts.table_id,
            commit.table_version,
            4096u32,
            facts.page_count,
            g.metadata_image.checkpoint.sha256,
            map_hash,
        ),
        g.metadata_image.image_root_sha256,
    )
}

/// The head over a generation that was written to `bytes`.
pub open spec fn head_is(
    head: Head,
    g: Generation,
    bytes: Seq<u8>,
    facts: CandidateFacts,
) -> bool {
    &&& head.protocol@ == "otmp"@
    &&& head.protocol_version@ == "0.0.2-alpha"@
    &&& head.table_id == facts.table_id
    &&& head.table_version == facts.commit.table_version
    &&& head.root_revision == facts.root_revision
    &&& head.semantic_state_sha256 == facts.commit.semantic_state_sha256
    &&& head.semantic_commit == g.semantic_commit
    &&& refers_to(
        head.metadata_generation,
        generation_uri_text(facts.commit.table_version, facts.generation_id),
        bytes,
        facts.media.generation@,
    )
    &&& head.required_reader_features@ == facts.reader_features
    &&& head.required_writer_features@ == facts.writer_features
}

/// What a candidate says of the commit and of its image.
pub open spec fn candidate_is<C: DocumentCodec + CheckpointIndexCodec>(
    codec: C,
    candidate: Candidate,
    facts: CandidateFacts,
) -> bool {
    &&& candidate.commit_uri@ == facts.commit_uri
    &&& candidate.commit_bytes@ == facts.commit_bytes
    &&& generation_is(codec, candidate.generation, candidate.image_artifacts@, facts)
    &&& candidate.generation_uri@ == generation_uri_text(
        facts.commit.table_version,
        facts.generation_id,
    )
    &&& call_ensures(
        C::encode_generation,
        (&codec, &candidate.generation),
        Ok::<Vec<u8>, RuntimeError>(candidate.generation_bytes),
    )
    &&& head_is(candidate.head, candidate.generation, candidate.generation_bytes@, facts)
    &&& call_ensures(
        C::encode_head,
        (&codec, &candidate.head),
        Ok::<Vec<u8>, RuntimeError>(candidate.head_bytes),
    )
}

/// A reference is by the digest and the length of the bytes.
pub open spec fn refers_to(
    reference: ObjectReference,
    uri: Seq<char>,
    bytes: Seq<u8>,
    media_type: Seq<char>,
) -> bool {
    &&& reference.uri@ == uri
    &&& reference.sha256@ == sha256_of(bytes)
    &&& reference.length == Some(bytes.len() as u64)
    &&& reference.media_type matches Some(text) && text@ == media_type
}

fn reference_to(uri: &String, bytes: &Vec<u8>, media_type: &String) -> (reference: ObjectReference)
    ensures
        refers_to(reference, uri@, bytes@, media_type@),
{
    object_reference(
        uri,
        Sha256::digest(bytes.as_slice()),
        bytes.len() as u64,
        media_type.as_str(),
    )
}

/// The codec refused to write the generation of a candidate.
pub open spec fn generation_refused<C: DocumentCodec + CheckpointIndexCodec>(
    codec: C,
    facts: CandidateFacts,
    e: RuntimeError,
) -> bool {
    exists|g: Generation, artifacts: Seq<Artifact>|
        {
            &&& #[trigger] generation_is(codec, g, artifacts, facts)
            &&& call_ensures(C::encode_generation, (&codec, &g), Err::<Vec<u8>, RuntimeError>(e))
        }
}

/// The codec wrote the generation of a candidate.
pub open spec fn generation_written<C: DocumentCodec + CheckpointIndexCodec>(
    codec: C,
    facts: CandidateFacts,
) -> bool {
    exists|g: Generation, artifacts: Seq<Artifact>, bytes: Vec<u8>|
        {
            &&& #[trigger] generation_is(codec, g, artifacts, facts)
            &&& #[trigger] call_ensures(
                C::encode_generation,
                (&codec, &g),
                Ok::<Vec<u8>, RuntimeError>(bytes),
            )
        }
}

/// The codec wrote the generation of a candidate and refused to write its head.
pub open spec fn head_refused<C: DocumentCodec + CheckpointIndexCodec>(
    codec: C,
    facts: CandidateFacts,
    e: RuntimeError,
) -> bool {
    exists|g: Generation, artifacts: Seq<Artifact>, bytes: Vec<u8>, h: Head|
        {
            &&& #[trigger] generation_is(codec, g, artifacts, facts)
            &&& call_ensures(C::encode_generation, (&codec, &g), Ok::<Vec<u8>, RuntimeError>(bytes))
            &&& #[trigger] head_is(h, g, bytes@, facts)
            &&& call_ensures(C::encode_head, (&codec, &h), Err::<Vec<u8>, RuntimeError>(e))
        }
}

/// A checkpoint that cannot be indexed, or whose index the codec refuses.
pub open spec fn image_refused<C: CheckpointIndexCodec>(
    codec: C,
    image: CandidateImage,
    e: RuntimeError,
) -> bool {
    image matches CandidateImage::Checkpoint { id, bytes } && if bytes@.len() > 0
        && bytes@.len() % 4096 == 0 {
        index_refused(codec, bytes@, 4096, e)
    } else {
        e@ == ErrorView::Corrupt("invalid checkpoint bytes for page index"@)
    }
}

struct ImageParts {
    checkpoint: Checkpoint,
    page_map: Option<PageMapRoot>,
    index: Option<CheckpointPageIndex>,
    artifacts: Vec<Artifact>,
}

fn lay_out<C: CheckpointIndexCodec>(
    codec: &C,
    image: CandidateImage,
    version: u64,
    former: Option<&MetadataImage>,
) -> (r: Result<ImageParts, RuntimeError>)
    requires
        image is Incremental ==> former is Some,
    ensures
        match r {
            Ok(parts) => image_parts(
                *codec,
                image,
                version,
                match former {
                    None => None,
                    Some(former) => Some(*former),
                },
                parts.checkpoint,
                parts.page_map,
                parts.index,
                parts.artifacts@,
            ),
            Err(e) => image_refused(*codec, image, e),
        },
{
    match image {
        CandidateImage::Incremental(image) => {
            let former = former.unwrap();
            Ok(
                ImageParts {
                    checkpoint: former.checkpoint.clone(),
                    page_map: image.root,
                    index: match &former.checkpoint_page_index {
                        None => None,
                        Some(index) => Some(index.clone()),
                    },
                    artifacts: image.artifacts,
                },
            )
        },
        CandidateImage::Checkpoint { id, bytes } => {
            let sha256 = Sha256::digest(bytes.as_slice());
            let uri = versioned_uri("_otmp/checkpoints/", version, id, ".sqlite3");
            let length: u64 = bytes.len() as u64;
            match build(codec, sha256, length, 4096, bytes.as_slice()) {
                Err(e) => Err(e),
                Ok((index, artifacts)) => {
                    let mut artifacts = artifacts;
                    let ghost before = artifacts@;
                    artifacts.push(Artifact { uri: uri.clone(), bytes });
                    assert(artifacts@.drop_last() =~= before);
                    Ok(
                        ImageParts {
                            checkpoint: Checkpoint { table_version: version, uri, sha256, length },
                            page_map: None,
                            index: Some(index),
                            artifacts,
                        },
                    )
                },
            }
        },
    }
}

fn assemble_candidate<C: DocumentCodec + CheckpointIndexCodec>(
    codec: &C,
    table_id: Id,
    reader_features: &Vec<String>,
    writer_features: &Vec<String>,
    commit: &SemanticCommit,
    commit_uri: String,
    commit_bytes: Vec<u8>,
    media: &MediaTypes,
    former: Option<&MetadataImage>,
    physical_parent: Option<ObjectReference>,
    image: CandidateImage,
    page_count: u64,
    generation_id: Id,
    root_revision: Option<u64>,
    Ghost(facts): Ghost<CandidateFacts>,
) -> (r: Result<Candidate, RuntimeError>)
    requires
        image is Incremental ==> former is Some,
        facts.commit == *commit,
        facts.commit_uri == commit_uri@,
        facts.commit_bytes == commit_bytes@,
        facts.table_id == table_id,
        facts.reader_features == reader_features@,
        facts.writer_features == writer_features@,
        facts.media == *media,
        facts.former == match former {
            None => None,
            Some(former) => Some(*former),
        },
        facts.physical_parent == physical_parent,
        facts.image == image,
        facts.page_count == page_count,
        facts.generation_id == generation_id,
        root_revision matches Some(revision) ==> facts.root_revision == revision,
    ensures
        match r {
            Ok(candidate) => {
                &&& root_revision is Some
                &&& candidate_is(*codec, candidate, facts)
                &&& candidate.commit_uri == commit_uri
                &&& candidate.commit_bytes == commit_bytes
            },
            Err(e) => {
                ||| image_refused(*codec, image, e)
                ||| generation_refused(*codec, facts, e)
                ||| root_revision is Some && head_refused(*codec, facts, e)
                ||| {
                    &&& root_revision is None
                    &&& generation_written(*codec, facts)
                    &&& e@ == ErrorView::InvalidAppend("root revision exhausted"@)
                }
            },
        },
{
    let version: u64 = commit.table_version;
    let parts = match lay_out(codec, image, version, former) {
        Err(e) => {
            return Err(e);
        },
        Ok(parts) => parts,
    };
    let map_hash: Option<Sha256> = match &parts.page_map {
        None => None,
        Some(root) => Some(root.sha256),
    };
    let image_root = codec.image_root(
        table_id,
        version,
        4096,
        page_count,
        parts.checkpoint.sha256,
        map_hash,
    );
    let generation_uri = versioned_uri("_otmp/generations/", version, generation_id, ".json");
    let generation = Generation {
        kind: "otmp.metadata-generation".to_owned(),
        format_version: 1,
        table_id,
        table_version: version,
        generation_id,
        created_at_ms: commit.created_at_ms,
        semantic_state_sha256: commit.semantic_state_sha256,
        semantic_commit: reference_to(&commit_uri, &commit_bytes, &media.commit),
        physical_parent,
        metadata_image: MetadataImage {
            codec: "otmp.metadata.sqlite3-cow.v1".to_owned(),
            page_size: 4096,
            page_count,
            checkpoint: parts.checkpoint,
            page_map: parts.page_map,
            checkpoint_page_index: parts.index,
            image_root_sha256: image_root,
        },
    };
    assert(generation_is(*codec, generation, parts.artifacts@, facts));
    let generation_bytes: Vec<u8> = match codec.encode_generation(&generation) {
        Err(e) => {
            return Err(e);
        },
        Ok(bytes) => bytes,
    };
    let root_revision: u64 = match root_revision {
        None => {
            return Err(RuntimeError::InvalidAppend("root revision exhausted".to_owned()));
        },
        Some(revision) => revision,
    };
    let head = Head {
        protocol: "otmp".to_owned(),
        protocol_version: "0.0.2-alpha".to_owned(),
        table_id,
        table_version: version,
        root_revision,
        semantic_state_sha256: commit.semantic_state_sha256,
        semantic_commit: generation.semantic_commit.clone(),
        metadata_generation: reference_to(&generation_uri, &generation_bytes, &media.generation),
        required_reader_features: copy_texts(reader_features),
        required_writer_features: copy_texts(writer_features),
    };
    assert(head_is(head, generation, generation_bytes@, facts));
    let head_bytes: Vec<u8> = match codec.encode_head(&head) {
        Err(e) => {
            return Err(e);
        },
        Ok(bytes) => bytes,
    };
    Ok(
        Candidate {
            commit_uri,
            commit_bytes,
            image_artifacts: parts.artifacts,
            generation,
            generation_uri,
            generation_bytes,
            head,
            head_bytes,
        },
    )
}

/// Writes the generation and the head of a prepared commit on a parent.
pub fn finish_candidate<C: DocumentCodec + CheckpointIndexCodec>(
    codec: &C,
    parent: &ParentFacts,
    commit: &SemanticCommit,
    commit_uri: String,
    commit_bytes: Vec<u8>,
    media: &MediaTypes,
    image: CandidateImage,
    page_count: u64,
    generation_id: Id,
) -> (r: Result<Candidate, RuntimeError>)
    ensures
        ({
            let facts = following(
                *parent,
                *commit,
                commit_uri@,
                commit_bytes@,
                *media,
                image,
                page_count,
                generation_id,
            );
            match r {
                Ok(candidate) => {
                    &&& parent.head.root_revision < u64::MAX
                    &&& candidate_is(*codec, candidate, facts)
                    &&& candidate.commit_uri == commit_uri
                    &&& candidate.commit_bytes == commit_bytes
                },
                Err(e) => {
                    ||| image_refused(*codec, image, e)
                    ||| generation_refused(*codec, facts, e)
                    ||| parent.head.root_revision < u64::MAX && head_refused(*codec, facts, e)
                    ||| {
                        &&& parent.head.root_revision == u64::MAX
                        &&& generation_written(*codec, facts)
                        &&& e@ == ErrorView::InvalidAppend("root revision exhausted"@)
                    }
                },
            }
        }),
{
    let revision: Option<u64> = parent.head.root_revision.checked_add(1);
    let ghost facts = following(
        *parent,
        *commit,
        commit_uri@,
        commit_bytes@,
        *media,
        image,
        page_count,
        generation_id,
    );
    assemble_candidate(
        codec,
        parent.head.table_id,
        &parent.head.required_reader_features,
        &parent.head.required_writer_features,
        commit,
        commit_uri,
        commit_bytes,
        media,
        Some(&parent.image),
        Some(parent.head.metadata_generation.clone()),
        image,
        page_count,
        generation_id,
        revision,
        Ghost(facts),
    )
}

/// What a new table starts from.
#[derive(Debug)]
pub struct GenesisDocuments {
    pub table_id: Id,
    pub commit_id: Id,
    pub created_at_ms: i64,
    /// The schema, in the format's own value.
    pub schema: CanonicalValue,
    pub metadata: CanonicalValue,
    pub features: Vec<String>,
}

pub open spec fn genesis_operation(documents: GenesisDocuments) -> ValueView {
    ValueView::Object(
        seq![
            ("operation_id"@, shown("initialize"@)),
            ("partition_spec_id"@, shown("0"@)),
            ("schema"@, documents.schema@),
            ("sort_order_id"@, shown("0"@)),
            ("table_id"@, shown(id_text(documents.table_id@))),
            ("target_ref"@, shown("main"@)),
            ("type"@, shown("initialize_table"@)),
        ],
    )
}

pub open spec fn genesis_result() -> ValueView {
    ValueView::Object(seq![("ref"@, shown("main"@)), ("table_version"@, shown("0"@))])
}

/// Only a first schema without a parent can start a table.
pub fn check_genesis_schema(schema: &Schema) -> (r: Result<(), RuntimeError>)
    ensures
        match r {
            Ok(()) => schema.schema_id == 1 && schema.parent_schema_id is None,
            Err(e) => {
                &&& schema.schema_id != 1 || schema.parent_schema_id is Some
                &&& e@ == ErrorView::InvalidInitialize(
                    "local/full-image profile genesis requires schema_id 1 with no parent schema"@,
                )
            },
        },
{
    if schema.schema_id != 1 || schema.parent_schema_id.is_some() {
        return Err(
            RuntimeError::InvalidInitialize(
                "local/full-image profile genesis requires schema_id 1 with no parent schema".to_owned(),
            ),
        );
    }
    Ok(())
}

/// The operation that creates a table.
pub fn initialize_operation(documents: &GenesisDocuments) -> (v: CanonicalValue)
    ensures
        v@ == genesis_operation(*documents),
{
    let m = no_members();
    let m = with_member(m, "operation_id", text("initialize"));
    let m = with_member(m, "partition_spec_id", text("0"));
    let m = with_member(m, "schema", copy_value(&documents.schema));
    let m = with_member(m, "sort_order_id", text("0"));
    let m = with_member(m, "table_id", CanonicalValue::Text(documents.table_id.to_text()));
    let m = with_member(m, "target_ref", text("main"));
    let m = with_member(m, "type", text("initialize_table"));
    assert(members_view(m@) =~= genesis_operation(*documents)->Object_0);
    CanonicalValue::Object(m)
}

pub open spec fn genesis_commit_is(
    commit: SemanticCommit,
    documents: GenesisDocuments,
    intent: Sha256,
) -> bool {
    &&& commit.kind@ == "otmp.semantic-commit"@
    &&& commit.format_version == 1
    &&& commit.table_id == documents.table_id
    &&& commit.table_version == 0
    &&& commit.parent_table_version is None
    &&& commit.commit_id == documents.commit_id
    &&& commit.parent_commit is None
    &&& commit.created_at_ms == documents.created_at_ms
    &&& commit.intents@.len() == 1
    &&& commit.intents@[0].key@ == "otmp.genesis"@
    &&& commit.intents@[0].intent_sha256 == intent
    &&& texts_view(commit.intents@[0].operation_ids@) == seq!["initialize"@]
    &&& commit.intents@[0].result@ == genesis_result()
    &&& commit.requirements@.len() == 0
    &&& values_view(commit.operations@) == seq![genesis_operation(documents)]
    &&& commit.required_reader_features_after_commit@ == documents.features@
    &&& commit.required_writer_features_after_commit@ == documents.features@
    &&& commit.previous_semantic_state_sha256 is None
    &&& commit.metadata@ == documents.metadata@
}

/// The state of a table's first commit is the codec's.
pub open spec fn genesis_state_follows<C: DocumentCodec>(codec: C, commit: SemanticCommit) -> bool {
    exists|draft: SemanticCommit|
        {
            &&& #[trigger] call_ensures(
                C::genesis_state,
                (&codec, &draft),
                Ok::<Sha256, RuntimeError>(commit.semantic_state_sha256),
            )
            &&& draft == (SemanticCommit {
                semantic_state_sha256: draft.semantic_state_sha256,
                ..commit
            })
        }
}

/// The codec could not say the state of the first commit, or refused to write the
/// commit with its state.
pub open spec fn genesis_refused<C: DocumentCodec>(
    codec: C,
    documents: GenesisDocuments,
    intent: Sha256,
    e: RuntimeError,
) -> bool {
    ||| exists|commit: SemanticCommit| #[trigger]
        call_ensures(C::genesis_state, (&codec, &commit), Err::<Sha256, RuntimeError>(e))
            && genesis_commit_is(commit, documents, intent)
    ||| exists|commit: SemanticCommit| #[trigger]
        call_ensures(C::encode_commit, (&codec, &commit), Err::<Vec<u8>, RuntimeError>(e))
            && genesis_commit_is(commit, documents, intent) && genesis_state_follows(codec, commit)
}

/// Prepares the first commit of a table. `intent` is the digest of its operation.
pub fn prepare_genesis<C: DocumentCodec>(
    codec: &C,
    documents: &GenesisDocuments,
    intent: Sha256,
) -> (r: Result<PreparedCommit, RuntimeError>)
    ensures
        match r {
            Ok(p) => {
                &&& genesis_commit_is(p.commit, *documents, intent)
                &&& genesis_state_follows(*codec, p.commit)
                &&& p.commit_uri@ == commit_uri_text(0, documents.commit_id)
                &&& call_ensures(
                    C::encode_commit,
                    (codec, &p.commit),
                    Ok::<Vec<u8>, RuntimeError>(p.commit_bytes),
                )
            },
            Err(e) => genesis_refused(*codec, *documents, intent, e),
        },
{
    let operation = initialize_operation(documents);
    let mut operations: Vec<CanonicalValue> = Vec::new();
    proof {
        assert(operations@ =~= Seq::<CanonicalValue>::empty());
        lemma_push_value(operations@, operation);
    }
    operations.push(operation);
    let m = no_members();
    let m = with_member(m, "ref", text("main"));
    let m = with_member(m, "table_version", text("0"));
    assert(members_view(m@) =~= genesis_result()->Object_0);
    let mut operation_ids: Vec<String> = Vec::new();
    operation_ids.push("initialize".to_owned());
    let mut intents: Vec<IntentRecord> = Vec::new();
    intents.push(
        IntentRecord {
            key: "otmp.genesis".to_owned(),
            intent_sha256: intent,
            operation_ids,
            result: CanonicalValue::Object(m),
        },
    );
    let mut commit = SemanticCommit {
        kind: "otmp.semantic-commit".to_owned(),
        format_version: 1,
        table_id: documents.table_id,
        table_version: 0,
        parent_table_version: None,
        commit_id: documents.commit_id,
        parent_commit: None,
        created_at_ms: documents.created_at_ms,
        intents,
        requirements: Vec::new(),
        operations,
        required_reader_features_after_commit: copy_texts(&documents.features),
        required_writer_features_after_commit: copy_texts(&documents.features),
        previous_semantic_state_sha256: None,
        semantic_state_sha256: Sha256 { bytes: [0;32] },
        metadata: copy_value(&documents.metadata),
    };
    let ghost draft = commit;
    proof {
        assert(texts_view(commit.intents@[0].operation_ids@) =~= seq!["initialize"@]);
        assert(values_view(commit.operations@) =~= seq![genesis_operation(*documents)]);
        assert(genesis_commit_is(commit, *documents, intent));
    }
    match codec.genesis_state(&commit) {
        Err(e) => {
            return Err(e);
        },
        Ok(state) => {
            commit.semantic_state_sha256 = state;
        },
    }
    assert(call_ensures(
        C::genesis_state,
        (codec, &draft),
        Ok::<Sha256, RuntimeError>(commit.semantic_state_sha256),
    ));
    let commit_bytes: Vec<u8> = match codec.encode_commit(&commit) {
        Err(e) => {
            return Err(e);
        },
        Ok(bytes) => bytes,
    };
    let commit_uri = versioned_uri("_otmp/commits/", 0, documents.commit_id, ".json");
    Ok(PreparedCommit { commit, commit_uri, commit_bytes })
}

/// Writes the first generation and head of a table around its checkpoint.
pub fn finish_genesis<C: DocumentCodec + CheckpointIndexCodec>(
    codec: &C,
    prepared: PreparedCommit,
    media: &MediaTypes,
    checkpoint_id: Id,
    bytes: Vec<u8>,
    page_count: u64,
    generation_id: Id,
) -> (r: Result<Candidate, RuntimeError>)
    ensures
        ({
            let image = CandidateImage::Checkpoint { id: checkpoint_id, bytes };
            let facts = starting(prepared, *media, image, page_count, generation_id);
            match r {
                Ok(candidate) => {
                    &&& candidate_is(*codec, candidate, facts)
                    &&& candidate.commit_uri == prepared.commit_uri
                    &&& candidate.commit_bytes == prepared.commit_bytes
                },
                Err(e) => {
                    ||| image_refused(*codec, image, e)
                    ||| generation_refused(*codec, facts, e)
                    ||| head_refused(*codec, facts, e)
                },
            }
        }),
{
    let ghost facts = starting(
        prepared,
        *media,
        CandidateImage::Checkpoint { id: checkpoint_id, bytes },
        page_count,
        generation_id,
    );
    assemble_candidate(
        codec,
        prepared.commit.table_id,
        &prepared.commit.required_reader_features_after_commit,
        &prepared.commit.required_writer_features_after_commit,
        &prepared.commit,
        prepared.commit_uri,
        prepared.commit_bytes,
        media,
        None,
        None,
        CandidateImage::Checkpoint { id: checkpoint_id, bytes },
        page_count,
        generation_id,
        Some(0),
        Ghost(facts),
    )
}

/// A candidate over a head keeps the table and its features, whatever the commit
/// says, moves the root revision by one, and points back to the generation that
/// it follows. Head and generation name the version of the commit, and the head
/// refers to the bytes of the generation. The generation of a checkpoint has no
/// page map; one of changes keeps the parent's checkpoint.
pub proof fn lemma_candidate_follows<C: DocumentCodec + CheckpointIndexCodec>(
    codec: C,
    candidate: Candidate,
    commit: SemanticCommit,
    media: MediaTypes,
    parent: ParentFacts,
    image: CandidateImage,
    page_count: u64,
    generation_id: Id,
    commit_uri: Seq<char>,
    commit_bytes: Seq<u8>,
)
    requires
        candidate_is(
            codec,
            candidate,
            following(
                parent,
                commit,
                commit_uri,
                commit_bytes,
                media,
                image,
                page_count,
                generation_id,
            ),
        ),
    ensures
        candidate.head.table_id == parent.head.table_id,
        candidate.generation.table_id == parent.head.table_id,
        candidate.head.table_version == commit.table_version,
        candidate.generation.table_version == commit.table_version,
        candidate.head.root_revision == parent.head.root_revision + 1,
        candidate.head.required_reader_features@ == parent.head.required_reader_features@,
        candidate.head.required_writer_features@ == parent.head.required_writer_features@,
        candidate.generation.physical_parent == Some(parent.head.metadata_generation),
        candidate.head.semantic_commit.sha256@ == sha256_of(candidate.commit_bytes@),
        candidate.head.metadata_generation.uri@ == candidate.generation_uri@,
        candidate.head.metadata_generation.sha256@ == sha256_of(candidate.generation_bytes@),
        image is Checkpoint ==> candidate.generation.metadata_image.page_map is None,
        image is Incremental ==> candidate.generation.metadata_image.checkpoint
            == parent.image.checkpoint,
{
}

} // verus!

//! Comparison of a semantic commit with the rows that it must have produced.
use crate::bytes::same_bytes;
use crate::catalog::holds_id;
use crate::error::{corrupt, ErrorView, RuntimeError};
use crate::hash::{Id, Sha256};
use crate::image::{corrupt_view, same_hash};
use crate::schema::{same_text, text_view};
use crate::tables::{
    sqlite_i64, stored, ChangeRow, CommitRow, FileRecord, ImageRows, IntentRow, LiveRow,
    MetricRecord, RefRecord, SnapshotRecord, SummaryRow,
};
use crate::text::reads;
use vstd::prelude::*;

verus! {

#[derive(Debug)]
pub struct CommittedIntent {
    pub key: String,
    pub intent_sha256: Sha256,
    pub result_json: String,
}

/// A reference to the commit before this one.
#[derive(Debug)]
pub struct ParentCommit {
    pub table_version: u64,
    pub uri: String,
    pub sha256: Sha256,
    /// Whether the reference names the media type of commits.
    pub is_commit: bool,
}

/// A commit as far as its rows depend on it. Values are held in canonical text.
#[derive(Debug)]
pub struct CommitFacts {
    pub table_version: u64,
    pub commit_id: Id,
    pub created_at_ms: i64,
    pub operations_json: String,
    pub metadata_json: String,
    pub intents: Vec<CommittedIntent>,
    pub parent: Option<ParentCommit>,
    /// The operations that commit a snapshot.
    pub snapshots: Vec<CommittedSnapshot>,
}

#[derive(Debug)]
pub struct SummaryEntry {
    pub key: String,
    pub value_json: String,
}

#[derive(Debug)]
pub struct CommittedSnapshot {
    pub target_ref: String,
    pub snapshot_id: Id,
    pub parent_snapshot_id: Option<Id>,
    pub sequence_number: u64,
    pub schema_id: u64,
    pub partition_spec_id: u64,
    pub sort_order_id: u64,
    pub operation: String,
    pub summary_json: String,
    /// The entries of the summary, where it is an object.
    pub summary: Option<Vec<SummaryEntry>>,
    pub metadata_json: String,
    pub added_files: Vec<CommittedData>,
    pub removed_file_ids: Vec<Id>,
    /// Whether the operation gives a scan projection.
    pub scan_projection: bool,
}

#[derive(Debug)]
pub struct CommittedData {
    pub file_id: Id,
    pub uri: String,
    pub object_identity: Option<String>,
    pub file_format: String,
    pub file_size_bytes: u64,
    pub record_count: u64,
    pub schema_id: u64,
    pub partition_spec_id: u64,
    pub sort_order_id: u64,
    pub content_sha256: Sha256,
    pub partition_values_cbor: Vec<u8>,
    /// The digest of the partition values under their specification.
    pub partition_hash: Sha256,
    pub metrics: Vec<CommittedMetric>,
    pub metadata_json: String,
}

#[derive(Debug)]
pub struct CommittedMetric {
    pub field_id: u64,
    pub column_size_bytes: Option<u64>,
    pub value_count: Option<u64>,
    pub null_count: Option<u64>,
    pub nan_count: Option<u64>,
    pub distinct_count: Option<u64>,
    pub lower_bound_cbor: Option<Vec<u8>>,
    pub upper_bound_cbor: Option<Vec<u8>>,
    pub metadata_json: String,
}

pub open spec fn same_number(row: i64, value: u64) -> bool {
    row == value
}

fn numbers_agree(row: i64, value: u64) -> (same: bool)
    ensures
        same == same_number(row, value),
{
    row >= 0 && row as u64 == value
}

/// A stored count that stands for an optional one. One that is negative stands
/// for none.
pub open spec fn same_count(row: Option<i64>, value: Option<u64>) -> bool {
    match row {
        Some(n) => if n >= 0 {
            value == Some(n as u64)
        } else {
            value is None
        },
        None => value is None,
    }
}

fn counts_agree(row: Option<i64>, value: Option<u64>) -> (same: bool)
    ensures
        same == same_count(row, value),
{
    match (row, value) {
        (Some(n), Some(v)) => n >= 0 && n as u64 == v,
        (Some(n), None) => n < 0,
        (None, Some(_)) => false,
        (None, None) => true,
    }
}

pub open spec fn blob_view(blob: Option<Vec<u8>>) -> Option<Seq<u8>> {
    match blob {
        Some(bytes) => Some(bytes@),
        None => None,
    }
}

fn blobs_agree(a: &Option<Vec<u8>>, b: &Option<Vec<u8>>) -> (same: bool)
    ensures
        same == (blob_view(*a) == blob_view(*b)),
{
    match (a, b) {
        (Some(a), Some(b)) => same_bytes(a.as_slice(), b.as_slice()),
        (None, None) => true,
        _ => false,
    }
}

fn ids_agree(a: &Option<Id>, b: &Option<Id>) -> (same: bool)
    ensures
        same == (*a == *b),
{
    match (a, b) {
        (Some(a), Some(b)) => *a == *b,
        (None, None) => true,
        _ => false,
    }
}

/// A metric row that says what the commit says.
pub open spec fn metric_row_is(row: MetricRecord, metric: CommittedMetric) -> bool {
    &&& same_number(row.field_id, metric.field_id)
    &&& same_count(row.column_size_bytes, metric.column_size_bytes)
    &&& same_count(row.value_count, metric.value_count)
    &&& same_count(row.null_count, metric.null_count)
    &&& same_count(row.nan_count, metric.nan_count)
    &&& same_count(row.distinct_count, metric.distinct_count)
    &&& blob_view(row.lower_bound_cbor) == blob_view(metric.lower_bound_cbor)
    &&& blob_view(row.upper_bound_cbor) == blob_view(metric.upper_bound_cbor)
    &&& row.bloom_filter_uri is None
    &&& row.bloom_filter_sha256 is None
    &&& row.metadata_json@ == metric.metadata_json@
}

fn metric_row_agrees(row: &MetricRecord, metric: &CommittedMetric) -> (same: bool)
    ensures
        same == metric_row_is(*row, *metric),
{
    numbers_agree(row.field_id, metric.field_id) && counts_agree(
        row.column_size_bytes,
        metric.column_size_bytes,
    ) && counts_agree(row.value_count, metric.value_count) && counts_agree(
        row.null_count,
        metric.null_count,
    ) && counts_agree(row.nan_count, metric.nan_count) && counts_agree(
        row.distinct_count,
        metric.distinct_count,
    ) && blobs_agree(&row.lower_bound_cbor, &metric.lower_bound_cbor) && blobs_agree(
        &row.upper_bound_cbor,
        &metric.upper_bound_cbor,
    ) && row.bloom_filter_uri.is_none() && row.bloom_filter_sha256.is_none() && row.metadata_json
        == metric.metadata_json
}

/// How many metric rows a file has.
pub open spec fn metric_rows(rows: Seq<MetricRecord>, file: Id) -> nat
    decreases rows.len(),
{
    if rows.len() == 0 {
        0
    } else {
        metric_rows(rows.drop_last(), file) + (if rows.last().file_id == file {
            1nat
        } else {
            0nat
        })
    }
}

pub open spec fn has_metric_row(rows: Seq<MetricRecord>, file: Id, metric: CommittedMetric) -> bool {
    exists|i: int|
        0 <= i < rows.len() && (#[trigger] rows[i]).file_id == file && metric_row_is(
            rows[i],
            metric,
        )
}

pub open spec fn has_metric(metrics: Seq<CommittedMetric>, row: MetricRecord) -> bool {
    exists|i: int| 0 <= i < metrics.len() && metric_row_is(row, #[trigger] metrics[i])
}

/// The metric rows of a file are its metrics: as many, and each in the other.
pub open spec fn metrics_agree(rows: Seq<MetricRecord>, file: CommittedData) -> bool {
    &&& metric_rows(rows, file.file_id) == file.metrics@.len()
    &&& forall|i: int|
        0 <= i < file.metrics@.len() ==> has_metric_row(
            rows,
            file.file_id,
            #[trigger] file.metrics@[i],
        )
    &&& forall|i: int|
        0 <= i < rows.len() && (#[trigger] rows[i]).file_id == file.file_id ==> has_metric(
            file.metrics@,
            rows[i],
        )
}

fn finds_metric_row(rows: &Vec<MetricRecord>, file: &Id, metric: &CommittedMetric) -> (found: bool)
    ensures
        found == has_metric_row(rows@, *file, *metric),
{
    let mut i: usize = 0;
    while i < rows.len()
        invariant
            i <= rows@.len(),
            forall|k: int|
                0 <= k < i ==> !((#[trigger] rows@[k]).file_id == *file && metric_row_is(
                    rows@[k],
                    *metric,
                )),
        decreases rows@.len() - i,
    {
        if rows[i].file_id == *file && metric_row_agrees(&rows[i], metric) {
            return true;
        }
        i = i + 1;
    }
    false
}

fn finds_metric(metrics: &Vec<CommittedMetric>, row: &MetricRecord) -> (found: bool)
    ensures
        found == has_metric(metrics@, *row),
{
    let mut i: usize = 0;
    while i < metrics.len()
        invariant
            i <= metrics@.len(),
            forall|k: int| 0 <= k < i ==> !metric_row_is(*row, #[trigger] metrics@[k]),
        decreases metrics@.len() - i,
    {
        if metric_row_agrees(row, &metrics[i]) {
            return true;
        }
        i = i + 1;
    }
    false
}

/// Compares the metrics of a file with their rows.
pub fn validate_projected_metrics(rows: &Vec<MetricRecord>, file: &CommittedData) -> (r: Result<
    (),
    RuntimeError,
>)
    ensures
        match r {
            Ok(()) => metrics_agree(rows@, *file),
            Err(e) => !metrics_agree(rows@, *file) && e@ == corrupt_view(
                "semantic file metrics differ from relational metrics"@,
            ),
        },
{
    let mut count: usize = 0;
    let mut all_known: bool = true;
    let mut i: usize = 0;
    assert(rows@.take(0) =~= Seq::<MetricRecord>::empty());
    while i < rows.len()
        invariant
            i <= rows@.len(),
            count <= i,
            count == metric_rows(rows@.take(i as int), file.file_id),
            all_known <==> forall|k: int|
                0 <= k < i && (#[trigger] rows@[k]).file_id == file.file_id ==> has_metric(
                    file.metrics@,
                    rows@[k],
                ),
        decreases rows@.len() - i,
    {
        assert(rows@.take(i + 1).drop_last() =~= rows@.take(i as int));
        if rows[i].file_id == file.file_id {
            count = count + 1;
            if !finds_metric(&file.metrics, &rows[i]) {
                all_known = false;
            }
        }
        i = i + 1;
    }
    assert(rows@.take(i as int) =~= rows@);
    if count != file.metrics.len() || !all_known {
        return Err(corrupt("semantic file metrics differ from relational metrics"));
    }
    let mut j: usize = 0;
    while j < file.metrics.len()
        invariant
            j <= file.metrics@.len(),
            forall|k: int|
                0 <= k < j ==> has_metric_row(rows@, file.file_id, #[trigger] file.metrics@[k]),
        decreases file.metrics@.len() - j,
    {
        if !finds_metric_row(rows, &file.file_id, &file.metrics[j]) {
            assert(!has_metric_row(rows@, file.file_id, file.metrics@[j as int]));
            return Err(corrupt("semantic file metrics differ from relational metrics"));
        }
        j = j + 1;
    }
    Ok(())
}

/// A file row that says what the commit says.
pub open spec fn file_row_is(
    row: FileRecord,
    file: CommittedData,
    snapshot: CommittedSnapshot,
    version: u64,
) -> bool {
    &&& row.file_kind@ == "data"@
    &&& row.uri@ == file.uri@
    &&& text_view(row.object_identity) == text_view(file.object_identity)
    &&& row.file_format@ == file.file_format@
    &&& same_number(row.file_size_bytes, file.file_size_bytes)
    &&& same_number(row.record_count, file.record_count)
    &&& same_number(row.schema_id, file.schema_id)
    &&& same_number(row.partition_spec_id, file.partition_spec_id)
    &&& row.sort_order_id matches Some(order) && same_number(order, file.sort_order_id)
    &&& row.partition_values_cbor@ == file.partition_values_cbor@
    &&& row.partition_hash == file.partition_hash
    &&& row.content_sha256 == Some(file.content_sha256)
    &&& row.encryption_metadata is None
    &&& same_number(row.data_sequence_number, snapshot.sequence_number)
    &&& same_number(row.file_sequence_number, snapshot.sequence_number)
    &&& row.created_snapshot_id == snapshot.snapshot_id
    &&& same_number(row.created_version, version)
    &&& row.metadata_json@ == file.metadata_json@
}

fn file_row_agrees(
    row: &FileRecord,
    file: &CommittedData,
    snapshot: &CommittedSnapshot,
    version: u64,
) -> (same: bool)
    ensures
        same == file_row_is(*row, *file, *snapshot, version),
{
    let ordered: bool = match row.sort_order_id {
        Some(order) => numbers_agree(order, file.sort_order_id),
        None => false,
    };
    reads(&row.file_kind, "data") && row.uri == file.uri && same_text(
        &row.object_identity,
        &file.object_identity,
    ) && row.file_format == file.file_format && numbers_agree(
        row.file_size_bytes,
        file.file_size_bytes,
    ) && numbers_agree(row.record_count, file.record_count) && numbers_agree(
        row.schema_id,
        file.schema_id,
    ) && numbers_agree(row.partition_spec_id, file.partition_spec_id) && ordered && same_bytes(
        row.partition_values_cbor.as_slice(),
        file.partition_values_cbor.as_slice(),
    ) && row.partition_hash == file.partition_hash && same_hash(
        &row.content_sha256,
        &Some(file.content_sha256),
    ) && row.encryption_metadata.is_none() && numbers_agree(
        row.data_sequence_number,
        snapshot.sequence_number,
    ) && numbers_agree(row.file_sequence_number, snapshot.sequence_number)
        && row.created_snapshot_id == snapshot.snapshot_id && numbers_agree(
        row.created_version,
        version,
    ) && row.metadata_json == file.metadata_json
}

/// The row of a file, if there is one.
pub open spec fn file_row(files: Seq<FileRecord>, id: Id) -> Option<FileRecord>
    decreases files.len(),
{
    if files.len() == 0 {
        None
    } else if files[0].file_id == id {
        Some(files[0])
    } else {
        file_row(files.skip(1), id)
    }
}

fn find_file<'a>(files: &'a Vec<FileRecord>, id: &Id) -> (found: Option<&'a FileRecord>)
    ensures
        match found {
            Some(row) => file_row(files@, *id) == Some(*row),
            None => file_row(files@, *id) is None,
        },
{
    assert(files@.skip(0) =~= files@);
    let mut i: usize = 0;
    while i < files.len()
        invariant
            i <= files@.len(),
            file_row(files@, *id) == file_row(files@.skip(i as int), *id),
        decreases files@.len() - i,
    {
        assert(files@.skip(i as int).skip(1) =~= files@.skip(i + 1));
        if files[i].file_id == *id {
            return Some(&files[i]);
        }
        i = i + 1;
    }
    None
}

/// Where a file is live on a ref, if it is.
pub open spec fn live_row(live: Seq<LiveRow>, name: Seq<char>, id: Id) -> Option<LiveRow>
    decreases live.len(),
{
    if live.len() == 0 {
        None
    } else if live[0].ref_name@ == name && live[0].file_id == id {
        Some(live[0])
    } else {
        live_row(live.skip(1), name, id)
    }
}

fn find_live<'a>(live: &'a Vec<LiveRow>, name: &String, id: &Id) -> (found: Option<&'a LiveRow>)
    ensures
        match found {
            Some(row) => live_row(live@, name@, *id) == Some(*row),
            None => live_row(live@, name@, *id) is None,
        },
{
    assert(live@.skip(0) =~= live@);
    let mut i: usize = 0;
    while i < live.len()
        invariant
            i <= live@.len(),
            live_row(live@, name@, *id) == live_row(live@.skip(i as int), name@, *id),
        decreases live@.len() - i,
    {
        assert(live@.skip(i as int).skip(1) =~= live@.skip(i + 1));
        if live[i].ref_name == *name && live[i].file_id == *id {
            return Some(&live[i]);
        }
        i = i + 1;
    }
    None
}

/// Whether the rows show an added file as the commit gives it.
pub open spec fn file_check(
    rows: ImageRows,
    version: u64,
    snapshot: CommittedSnapshot,
    file: CommittedData,
) -> Result<(), ErrorView> {
    match file_row(rows.files@, file.file_id) {
        None => Err(corrupt_view("semantic added file has no relational file row"@)),
        Some(row) => if file.partition_spec_id > u32::MAX {
            Err(corrupt_view("semantic partition spec ID exceeds the u32 range"@))
        } else if !file_row_is(row, file, snapshot, version) {
            Err(corrupt_view("semantic added file differs from relational file descriptor"@))
        } else if !(live_row(rows.live@, snapshot.target_ref@, file.file_id) matches Some(live)
            && live.added_snapshot_id == snapshot.snapshot_id && live.data_sequence_number
            == row.data_sequence_number && live.file_sequence_number == row.file_sequence_number) {
            Err(corrupt_view("semantic added file differs from relational live-file projection"@))
        } else if !metrics_agree(rows.metrics@, file) {
            Err(corrupt_view("semantic file metrics differ from relational metrics"@))
        } else {
            Ok(())
        },
    }
}

/// Compares an added file with its rows.
pub fn validate_projected_file(
    rows: &ImageRows,
    version: u64,
    snapshot: &CommittedSnapshot,
    file: &CommittedData,
) -> (r: Result<(), RuntimeError>)
    ensures
        match r {
            Ok(()) => file_check(*rows, version, *snapshot, *file) is Ok,
            Err(e) => file_check(*rows, version, *snapshot, *file) == Err::<(), ErrorView>(e@),
        },
{
    let row = match find_file(&rows.files, &file.file_id) {
        None => {
            return Err(corrupt("semantic added file has no relational file row"));
        },
        Some(row) => row,
    };
    if file.partition_spec_id > u32::MAX as u64 {
        return Err(corrupt("semantic partition spec ID exceeds the u32 range"));
    }
    if !file_row_agrees(row, file, snapshot, version) {
        return Err(corrupt("semantic added file differs from relational file descriptor"));
    }
    let live: bool = match find_live(&rows.live, &snapshot.target_ref, &file.file_id) {
        None => false,
        Some(live) => live.added_snapshot_id == snapshot.snapshot_id && live.data_sequence_number
            == row.data_sequence_number && live.file_sequence_number == row.file_sequence_number,
    };
    if !live {
        return Err(corrupt("semantic added file differs from relational live-file projection"));
    }
    validate_projected_metrics(&rows.metrics, file)
}

/// The added files in their order: the first that differs decides.
pub open spec fn added_check(
    rows: ImageRows,
    version: u64,
    snapshot: CommittedSnapshot,
    files: Seq<CommittedData>,
) -> Result<(), ErrorView>
    decreases files.len(),
{
    if files.len() == 0 {
        Ok(())
    } else {
        match file_check(rows, version, snapshot, files[0]) {
            Err(e) => Err(e),
            Ok(()) => added_check(rows, version, snapshot, files.skip(1)),
        }
    }
}

pub open spec fn adds(snapshot: CommittedSnapshot, file: Id) -> bool {
    exists|i: int|
        0 <= i < snapshot.added_files@.len() && (#[trigger] snapshot.added_files@[i]).file_id
            == file
}

/// A change that the commit makes.
pub open spec fn commits_change(snapshot: CommittedSnapshot, file: Id, kind: Seq<char>) -> bool {
    (kind == "add"@ && adds(snapshot, file)) || (kind == "remove"@
        && snapshot.removed_file_ids@.contains(file))
}

pub open spec fn has_change(
    changes: Seq<ChangeRow>,
    snapshot: Id,
    file: Id,
    kind: Seq<char>,
) -> bool {
    exists|i: int|
        0 <= i < changes.len() && (#[trigger] changes[i]).snapshot_id == snapshot
            && changes[i].file_id == file && changes[i].change_kind@ == kind
}

/// The change rows of the snapshot are the changes that the commit makes.
pub open spec fn changes_agree(rows: ImageRows, snapshot: CommittedSnapshot) -> bool {
    forall|file: Id, kind: Seq<char>| #[trigger]
        has_change(rows.changes@, snapshot.snapshot_id, file, kind) <==> commits_change(
            snapshot,
            file,
            kind,
        )
}

/// A file row that the commit created.
pub open spec fn created_by(row: FileRecord, snapshot: CommittedSnapshot, version: u64) -> bool {
    row.created_snapshot_id == snapshot.snapshot_id || row.created_version == version
}

pub open spec fn has_created(
    files: Seq<FileRecord>,
    snapshot: CommittedSnapshot,
    version: u64,
    file: Id,
) -> bool {
    exists|i: int|
        0 <= i < files.len() && (#[trigger] files[i]).file_id == file && created_by(
            files[i],
            snapshot,
            version,
        )
}

pub open spec fn created_agree(rows: ImageRows, snapshot: CommittedSnapshot, version: u64) -> bool {
    forall|file: Id| #[trigger]
        has_created(rows.files@, snapshot, version, file) <==> adds(snapshot, file)
}

pub open spec fn changes_check(rows: ImageRows, version: u64, snapshot: CommittedSnapshot) -> Result<
    (),
    ErrorView,
> {
    if !changes_agree(rows, snapshot) {
        Err(corrupt_view("semantic snapshot file changes differ from relational changes"@))
    } else {
        match stored(version, "table version"@) {
            Err(e) => Err(e),
            Ok(_) => if !created_agree(rows, snapshot, version) {
                Err(
                    corrupt_view(
                        "semantic added files differ from relational files created by the commit"@,
                    ),
                )
            } else {
                added_check(rows, version, snapshot, snapshot.added_files@)
            },
        }
    }
}

fn is_added(snapshot: &CommittedSnapshot, file: &Id) -> (found: bool)
    ensures
        found == adds(*snapshot, *file),
{
    let mut i: usize = 0;
    while i < snapshot.added_files.len()
        invariant
            i <= snapshot.added_files@.len(),
            forall|k: int|
                0 <= k < i ==> (#[trigger] snapshot.added_files@[k]).file_id != *file,
        decreases snapshot.added_files@.len() - i,
    {
        if snapshot.added_files[i].file_id == *file {
            return true;
        }
        i = i + 1;
    }
    false
}

fn lists_change(changes: &Vec<ChangeRow>, snapshot: &Id, file: &Id, kind: &str) -> (found: bool)
    ensures
        found == has_change(changes@, *snapshot, *file, kind@),
{
    let mut i: usize = 0;
    while i < changes.len()
        invariant
            i <= changes@.len(),
            forall|k: int|
                0 <= k < i ==> !((#[trigger] changes@[k]).snapshot_id == *snapshot
                    && changes@[k].file_id == *file && changes@[k].change_kind@ == kind@),
        decreases changes@.len() - i,
    {
        if changes[i].snapshot_id == *snapshot && changes[i].file_id == *file && reads(
            &changes[i].change_kind,
            kind,
        ) {
            return true;
        }
        i = i + 1;
    }
    false
}

fn changes_are(rows: &ImageRows, snapshot: &CommittedSnapshot) -> (same: bool)
    ensures
        same == changes_agree(*rows, *snapshot),
{
    let ghost id = snapshot.snapshot_id;
    let mut i: usize = 0;
    while i < rows.changes.len()
        invariant
            i <= rows.changes@.len(),
            id == snapshot.snapshot_id,
            forall|k: int|
                0 <= k < i && (#[trigger] rows.changes@[k]).snapshot_id == id ==> commits_change(
                    *snapshot,
                    rows.changes@[k].file_id,
                    rows.changes@[k].change_kind@,
                ),
        decreases rows.changes@.len() - i,
    {
        let change = &rows.changes[i];
        if change.snapshot_id == snapshot.snapshot_id {
            let made: bool = (reads(&change.change_kind, "add") && is_added(
                snapshot,
                &change.file_id,
            )) || (reads(&change.change_kind, "remove") && holds_id(
                &snapshot.removed_file_ids,
                &change.file_id,
            ));
            if !made {
                proof {
                    assert(rows.changes@[i as int] == *change);
                    assert(has_change(rows.changes@, id, change.file_id, change.change_kind@));
                }
                return false;
            }
        }
        i = i + 1;
    }
    let mut j: usize = 0;
    while j < snapshot.added_files.len()
        invariant
            j <= snapshot.added_files@.len(),
            id == snapshot.snapshot_id,
            forall|k: int|
                0 <= k < j ==> has_change(
                    rows.changes@,
                    id,
                    (#[trigger] snapshot.added_files@[k]).file_id,
                    "add"@,
                ),
        decreases snapshot.added_files@.len() - j,
    {
        let file = &snapshot.added_files[j].file_id;
        if !lists_change(&rows.changes, &snapshot.snapshot_id, file, "add") {
            assert(snapshot.added_files@[j as int].file_id == *file);
            assert(commits_change(*snapshot, *file, "add"@));
            return false;
        }
        j = j + 1;
    }
    let mut n: usize = 0;
    while n < snapshot.removed_file_ids.len()
        invariant
            n <= snapshot.removed_file_ids@.len(),
            id == snapshot.snapshot_id,
            forall|k: int|
                0 <= k < n ==> has_change(
                    rows.changes@,
                    id,
                    #[trigger] snapshot.removed_file_ids@[k],
                    "remove"@,
                ),
        decreases snapshot.removed_file_ids@.len() - n,
    {
        let file = &snapshot.removed_file_ids[n];
        if !lists_change(&rows.changes, &snapshot.snapshot_id, file, "remove") {
            assert(snapshot.removed_file_ids@.contains(*file));
            assert(commits_change(*snapshot, *file, "remove"@));
            return false;
        }
        n = n + 1;
    }
    proof {
        assert forall|file: Id, kind: Seq<char>| #[trigger]
            has_change(rows.changes@, id, file, kind) <==> commits_change(
            *snapshot,
            file,
            kind,
        ) by {
            if has_change(rows.changes@, id, file, kind) {
                let k = choose|k: int|
                    0 <= k < rows.changes@.len() && (#[trigger] rows.changes@[k]).snapshot_id == id
                        && rows.changes@[k].file_id == file && rows.changes@[k].change_kind@
                        == kind;
                assert(commits_change(
                    *snapshot,
                    rows.changes@[k].file_id,
                    rows.changes@[k].change_kind@,
                ));
            }
            if kind == "add"@ && adds(*snapshot, file) {
                let k = choose|k: int|
                    0 <= k < snapshot.added_files@.len() && (
                    #[trigger] snapshot.added_files@[k]).file_id == file;
                assert(has_change(
                    rows.changes@,
                    id,
                    snapshot.added_files@[k].file_id,
                    "add"@,
                ));
            }
            if kind == "remove"@ && snapshot.removed_file_ids@.contains(file) {
                let k = choose|k: int|
                    0 <= k < snapshot.removed_file_ids@.len() && snapshot.removed_file_ids@[k]
                        == file;
                assert(has_change(
                    rows.changes@,
                    id,
                    snapshot.removed_file_ids@[k],
                    "remove"@,
                ));
            }
        }
    }
    true
}

fn lists_created(
    files: &Vec<FileRecord>,
    snapshot: &CommittedSnapshot,
    version: u64,
    file: &Id,
) -> (found: bool)
    ensures
        found == has_created(files@, *snapshot, version, *file),
{
    let mut i: usize = 0;
    while i < files.len()
        invariant
            i <= files@.len(),
            forall|k: int|
                0 <= k < i ==> !((#[trigger] files@[k]).file_id == *file && created_by(
                    files@[k],
                    *snapshot,
                    version,
                )),
        decreases files@.len() - i,
    {
        let row = &files[i];
        if row.file_id == *file && (row.created_snapshot_id == snapshot.snapshot_id
            || numbers_agree(row.created_version, version)) {
            return true;
        }
        i = i + 1;
    }
    false
}

fn created_are(rows: &ImageRows, snapshot: &CommittedSnapshot, version: u64) -> (same: bool)
    ensures
        same == created_agree(*rows, *snapshot, version),
{
    let mut i: usize = 0;
    while i < rows.files.len()
        invariant
            i <= rows.files@.len(),
            forall|k: int|
                0 <= k < i && created_by(#[trigger] rows.files@[k], *snapshot, version) ==> adds(
                    *snapshot,
                    rows.files@[k].file_id,
                ),
        decreases rows.files@.len() - i,
    {
        let row = &rows.files[i];
        if (row.created_snapshot_id == snapshot.snapshot_id || numbers_agree(
            row.created_version,
            version,
        )) && !is_added(snapshot, &row.file_id) {
            proof {
                assert(rows.files@[i as int] == *row);
                assert(has_created(rows.files@, *snapshot, version, row.file_id));
            }
            return false;
        }
        i = i + 1;
    }
    let mut j: usize = 0;
    while j < snapshot.added_files.len()
        invariant
            j <= snapshot.added_files@.len(),
            forall|k: int|
                0 <= k < j ==> has_created(
                    rows.files@,
                    *snapshot,
                    version,
                    (#[trigger] snapshot.added_files@[k]).file_id,
                ),
        decreases snapshot.added_files@.len() - j,
    {
        let file = &snapshot.added_files[j].file_id;
        if !lists_created(&rows.files, snapshot, version, file) {
            assert(snapshot.added_files@[j as int].file_id == *file);
            assert(adds(*snapshot, *file));
            return false;
        }
        j = j + 1;
    }
    proof {
        assert forall|file: Id| #[trigger]
            has_created(rows.files@, *snapshot, version, file) <==> adds(*snapshot, file) by {
            if has_created(rows.files@, *snapshot, version, file) {
                let k = choose|k: int|
                    0 <= k < rows.files@.len() && (#[trigger] rows.files@[k]).file_id == file
                        && created_by(rows.files@[k], *snapshot, version);
                assert(adds(*snapshot, rows.files@[k].file_id));
            }
            if adds(*snapshot, file) {
                let k = choose|k: int|
                    0 <= k < snapshot.added_files@.len() && (
                    #[trigger] snapshot.added_files@[k]).file_id == file;
                assert(has_created(
                    rows.files@,
                    *snapshot,
                    version,
                    snapshot.added_files@[k].file_id,
                ));
            }
        }
    }
    true
}

/// Compares the file changes of a snapshot with their rows.
pub fn validate_snapshot_changes(rows: &ImageRows, version: u64, snapshot: &CommittedSnapshot) -> (r:
    Result<(), RuntimeError>)
    ensures
        match r {
            Ok(()) => changes_check(*rows, version, *snapshot) is Ok,
            Err(e) => changes_check(*rows, version, *snapshot) == Err::<(), ErrorView>(e@),
        },
{
    if !changes_are(rows, snapshot) {
        return Err(corrupt("semantic snapshot file changes differ from relational changes"));
    }
    match sqlite_i64(version, "table version") {
        Err(e) => {
            return Err(e);
        },
        Ok(_) => {},
    }
    if !created_are(rows, snapshot, version) {
        return Err(
            corrupt("semantic added files differ from relational files created by the commit"),
        );
    }
    let files = &snapshot.added_files;
    assert(files@.skip(0) =~= files@);
    let mut i: usize = 0;
    while i < files.len()
        invariant
            i <= files@.len(),
            *files == snapshot.added_files,
            changes_check(*rows, version, *snapshot) == added_check(
                *rows,
                version,
                *snapshot,
                files@,
            ),
            added_check(*rows, version, *snapshot, files@) == added_check(
                *rows,
                version,
                *snapshot,
                files@.skip(i as int),
            ),
        decreases files@.len() - i,
    {
        assert(files@.skip(i as int).skip(1) =~= files@.skip(i + 1));
        match validate_projected_file(rows, version, snapshot, &files[i]) {
            Err(e) => {
                return Err(e);
            },
            Ok(()) => {},
        }
        i = i + 1;
    }
    Ok(())
}

/// The row of a snapshot that was committed at a version, if there is one.
pub open spec fn snapshot_row(snapshots: Seq<SnapshotRecord>, id: Id, version: u64) -> Option<
    SnapshotRecord,
>
    decreases snapshots.len(),
{
    if snapshots.len() == 0 {
        None
    } else if snapshots[0].row.snapshot_id == id && snapshots[0].committed_table_version
        == version {
        Some(snapshots[0])
    } else {
        snapshot_row(snapshots.skip(1), id, version)
    }
}

fn find_snapshot<'a>(snapshots: &'a Vec<SnapshotRecord>, id: &Id, version: u64) -> (found: Option<
    &'a SnapshotRecord,
>)
    ensures
        match found {
            Some(row) => snapshot_row(snapshots@, *id, version) == Some(*row),
            None => snapshot_row(snapshots@, *id, version) is None,
        },
{
    assert(snapshots@.skip(0) =~= snapshots@);
    let mut i: usize = 0;
    while i < snapshots.len()
        invariant
            i <= snapshots@.len(),
            snapshot_row(snapshots@, *id, version) == snapshot_row(
                snapshots@.skip(i as int),
                *id,
                version,
            ),
        decreases snapshots@.len() - i,
    {
        assert(snapshots@.skip(i as int).skip(1) =~= snapshots@.skip(i + 1));
        if snapshots[i].row.snapshot_id == *id && numbers_agree(
            snapshots[i].committed_table_version,
            version,
        ) {
            return Some(&snapshots[i]);
        }
        i = i + 1;
    }
    None
}

/// A snapshot row that says what the commit says, but for its metadata.
pub open spec fn snapshot_row_is(
    row: SnapshotRecord,
    snapshot: CommittedSnapshot,
    created_at_ms: i64,
) -> bool {
    &&& row.row.parent_snapshot_id == snapshot.parent_snapshot_id
    &&& same_number(row.row.sequence_number, snapshot.sequence_number)
    &&& same_number(row.schema_id, snapshot.schema_id)
    &&& same_number(row.partition_spec_id, snapshot.partition_spec_id)
    &&& same_number(row.sort_order_id, snapshot.sort_order_id)
    &&& row.operation@ == snapshot.operation@
    &&& row.committed_at_ms == created_at_ms
    &&& row.scan_root_uri is None
    &&& row.scan_root_sha256 is None
    &&& !snapshot.scan_projection
    &&& row.summary_json@ == snapshot.summary_json@
}

pub open spec fn snapshot_row_check(
    row: SnapshotRecord,
    snapshot: CommittedSnapshot,
    created_at_ms: i64,
) -> Result<(), ErrorView> {
    if !snapshot_row_is(row, snapshot, created_at_ms) {
        Err(corrupt_view("semantic snapshot differs from relational snapshot row"@))
    } else if row.metadata_json@ != snapshot.metadata_json@ {
        Err(
            corrupt_view(
                "semantic snapshot metadata differs from relational snapshot metadata"@,
            ),
        )
    } else {
        Ok(())
    }
}

/// Compares a snapshot with its row.
pub fn validate_projected_snapshot_row(
    row: &SnapshotRecord,
    snapshot: &CommittedSnapshot,
    created_at_ms: i64,
) -> (r: Result<(), RuntimeError>)
    ensures
        match r {
            Ok(()) => snapshot_row_check(*row, *snapshot, created_at_ms) is Ok,
            Err(e) => snapshot_row_check(*row, *snapshot, created_at_ms) == Err::<(), ErrorView>(
                e@,
            ),
        },
{
    if !ids_agree(&row.row.parent_snapshot_id, &snapshot.parent_snapshot_id) || !numbers_agree(
        row.row.sequence_number,
        snapshot.sequence_number,
    ) || !numbers_agree(row.schema_id, snapshot.schema_id) || !numbers_agree(
        row.partition_spec_id,
        snapshot.partition_spec_id,
    ) || !numbers_agree(row.sort_order_id, snapshot.sort_order_id) || row.operation
        != snapshot.operation || row.committed_at_ms != created_at_ms || row.scan_root_uri.is_some()
        || row.scan_root_sha256.is_some() || snapshot.scan_projection || row.summary_json
        != snapshot.summary_json {
        return Err(corrupt("semantic snapshot differs from relational snapshot row"));
    }
    if row.metadata_json != snapshot.metadata_json {
        return Err(
            corrupt("semantic snapshot metadata differs from relational snapshot metadata"),
        );
    }
    Ok(())
}

/// A summary value as its row gives it.
pub open spec fn summary_value(rows: Seq<SummaryRow>, id: Id, key: Seq<char>) -> Option<Seq<char>>
    decreases rows.len(),
{
    if rows.len() == 0 {
        None
    } else if rows[0].snapshot_id == id && rows[0].key@ == key {
        Some(rows[0].value_json@)
    } else {
        summary_value(rows.skip(1), id, key)
    }
}

/// A summary value as the commit gives it.
pub open spec fn entry_value(entries: Seq<SummaryEntry>, key: Seq<char>) -> Option<Seq<char>>
    decreases entries.len(),
{
    if entries.len() == 0 {
        None
    } else if entries[0].key@ == key {
        Some(entries[0].value_json@)
    } else {
        entry_value(entries.skip(1), key)
    }
}

/// The summary rows hold the summary, key by key.
pub open spec fn summary_agrees(
    rows: Seq<SummaryRow>,
    id: Id,
    entries: Seq<SummaryEntry>,
) -> bool {
    forall|key: Seq<char>| #[trigger] summary_value(rows, id, key) == entry_value(entries, key)
}

pub open spec fn summary_check(rows: ImageRows, snapshot: CommittedSnapshot) -> Result<
    (),
    ErrorView,
> {
    match snapshot.summary {
        None => Err(corrupt_view("semantic snapshot summary is not an object"@)),
        Some(entries) => if summary_agrees(rows.summaries@, snapshot.snapshot_id, entries@) {
            Ok(())
        } else {
            Err(
                corrupt_view("semantic snapshot summary differs from relational summary rows"@),
            )
        },
    }
}

fn find_summary<'a>(rows: &'a Vec<SummaryRow>, id: &Id, key: &String) -> (found: Option<&'a String>)
    ensures
        match found {
            Some(value) => summary_value(rows@, *id, key@) == Some(value@),
            None => summary_value(rows@, *id, key@) is None,
        },
{
    assert(rows@.skip(0) =~= rows@);
    let mut i: usize = 0;
    while i < rows.len()
        invariant
            i <= rows@.len(),
            summary_value(rows@, *id, key@) == summary_value(rows@.skip(i as int), *id, key@),
        decreases rows@.len() - i,
    {
        assert(rows@.skip(i as int).skip(1) =~= rows@.skip(i + 1));
        if rows[i].snapshot_id == *id && rows[i].key == *key {
            return Some(&rows[i].value_json);
        }
        i = i + 1;
    }
    None
}

fn find_entry<'a>(entries: &'a Vec<SummaryEntry>, key: &String) -> (found: Option<&'a String>)
    ensures
        match found {
            Some(value) => entry_value(entries@, key@) == Some(value@),
            None => entry_value(entries@, key@) is None,
        },
{
    assert(entries@.skip(0) =~= entries@);
    let mut i: usize = 0;
    while i < entries.len()
        invariant
            i <= entries@.len(),
            entry_value(entries@, key@) == entry_value(entries@.skip(i as int), key@),
        decreases entries@.len() - i,
    {
        assert(entries@.skip(i as int).skip(1) =~= entries@.skip(i + 1));
        if entries[i].key == *key {
            return Some(&entries[i].value_json);
        }
        i = i + 1;
    }
    None
}

proof fn lemma_summary_key(rows: Seq<SummaryRow>, id: Id, key: Seq<char>)
    requires
        summary_value(rows, id, key) is Some,
    ensures
        exists|i: int|
            0 <= i < rows.len() && (#[trigger] rows[i]).snapshot_id == id && rows[i].key@ == key,
    decreases rows.len(),
{
    if !(rows[0].snapshot_id == id && rows[0].key@ == key) {
        lemma_summary_key(rows.skip(1), id, key);
        let k = choose|k: int|
            0 <= k < rows.skip(1).len() && (#[trigger] rows.skip(1)[k]).snapshot_id == id
                && rows.skip(1)[k].key@ == key;
        assert(rows[k + 1] == rows.skip(1)[k]);
    }
}

proof fn lemma_entry_key(entries: Seq<SummaryEntry>, key: Seq<char>)
    requires
        entry_value(entries, key) is Some,
    ensures
        exists|i: int| 0 <= i < entries.len() && (#[trigger] entries[i]).key@ == key,
    decreases entries.len(),
{
    if entries[0].key@ != key {
        lemma_entry_key(entries.skip(1), key);
        let k = choose|k: int|
            0 <= k < entries.skip(1).len() && (#[trigger] entries.skip(1)[k]).key@ == key;
        assert(entries[k + 1] == entries.skip(1)[k]);
    }
}

fn same_value_at(
    rows: &Vec<SummaryRow>,
    id: &Id,
    entries: &Vec<SummaryEntry>,
    key: &String,
) -> (same: bool)
    ensures
        same == (summary_value(rows@, *id, key@) == entry_value(entries@, key@)),
{
    match (find_summary(rows, id, key), find_entry(entries, key)) {
        (Some(a), Some(b)) => *a == *b,
        (None, None) => true,
        _ => false,
    }
}

/// Compares the summary of a snapshot with its rows.
pub fn validate_projected_snapshot_summary(rows: &ImageRows, snapshot: &CommittedSnapshot) -> (r:
    Result<(), RuntimeError>)
    ensures
        match r {
            Ok(()) => summary_check(*rows, *snapshot) is Ok,
            Err(e) => summary_check(*rows, *snapshot) == Err::<(), ErrorView>(e@),
        },
{
    let entries = match &snapshot.summary {
        None => {
            return Err(corrupt("semantic snapshot summary is not an object"));
        },
        Some(entries) => entries,
    };
    let id = &snapshot.snapshot_id;
    let mut i: usize = 0;
    while i < rows.summaries.len()
        invariant
            i <= rows.summaries@.len(),
            snapshot.summary == Some(*entries),
            *id == snapshot.snapshot_id,
            forall|k: int|
                0 <= k < i && (#[trigger] rows.summaries@[k]).snapshot_id == *id ==> summary_value(
                    rows.summaries@,
                    *id,
                    rows.summaries@[k].key@,
                ) == entry_value(entries@, rows.summaries@[k].key@),
        decreases rows.summaries@.len() - i,
    {
        let row = &rows.summaries[i];
        if row.snapshot_id == *id && !same_value_at(&rows.summaries, id, entries, &row.key) {
            return Err(
                corrupt("semantic snapshot summary differs from relational summary rows"),
            );
        }
        i = i + 1;
    }
    let mut j: usize = 0;
    while j < entries.len()
        invariant
            j <= entries@.len(),
            snapshot.summary == Some(*entries),
            *id == snapshot.snapshot_id,
            forall|k: int|
                0 <= k < j ==> summary_value(
                    rows.summaries@,
                    *id,
                    (#[trigger] entries@[k]).key@,
                ) == entry_value(entries@, entries@[k].key@),
        decreases entries@.len() - j,
    {
        if !same_value_at(&rows.summaries, id, entries, &entries[j].key) {
            return Err(
                corrupt("semantic snapshot summary differs from relational summary rows"),
            );
        }
        j = j + 1;
    }
    proof {
        assert forall|key: Seq<char>| #[trigger]
            summary_value(rows.summaries@, *id, key) == entry_value(entries@, key) by {
            if summary_value(rows.summaries@, *id, key) is Some {
                lemma_summary_key(rows.summaries@, *id, key);
                let k = choose|k: int|
                    0 <= k < rows.summaries@.len() && (#[trigger] rows.summaries@[k]).snapshot_id
                        == *id && rows.summaries@[k].key@ == key;
                assert(rows.summaries@[k].snapshot_id == *id);
            }
            if entry_value(entries@, key) is Some {
                lemma_entry_key(entries@, key);
                let k = choose|k: int| 0 <= k < entries@.len() && (#[trigger] entries@[k]).key@
                    == key;
                assert(entries@[k].key@ == key);
            }
        }
    }
    Ok(())
}

/// The row of a ref, if there is one.
pub open spec fn ref_record(refs: Seq<RefRecord>, name: Seq<char>) -> Option<RefRecord>
    decreases refs.len(),
{
    if refs.len() == 0 {
        None
    } else if refs[0].name@ == name {
        Some(refs[0])
    } else {
        ref_record(refs.skip(1), name)
    }
}

fn find_ref<'a>(refs: &'a Vec<RefRecord>, name: &String) -> (found: Option<&'a RefRecord>)
    ensures
        match found {
            Some(row) => ref_record(refs@, name@) == Some(*row),
            None => ref_record(refs@, name@) is None,
        },
{
    assert(refs@.skip(0) =~= refs@);
    let mut i: usize = 0;
    while i < refs.len()
        invariant
            i <= refs@.len(),
            ref_record(refs@, name@) == ref_record(refs@.skip(i as int), name@),
        decreases refs@.len() - i,
    {
        assert(refs@.skip(i as int).skip(1) =~= refs@.skip(i + 1));
        if refs[i].name == *name {
            return Some(&refs[i]);
        }
        i = i + 1;
    }
    None
}

/// The target ref names the snapshot since the commit's version.
pub open spec fn target_agrees(rows: ImageRows, version: u64, snapshot: CommittedSnapshot) -> bool {
    ref_record(rows.refs@, snapshot.target_ref@) matches Some(row) && row.snapshot_id == Some(
        snapshot.snapshot_id,
    ) && row.updated_version == version
}

pub open spec fn target_check(rows: ImageRows, version: u64, snapshot: CommittedSnapshot) -> Result<
    (),
    ErrorView,
> {
    match stored(version, "table version"@) {
        Err(e) => Err(e),
        Ok(_) => if target_agrees(rows, version, snapshot) {
            Ok(())
        } else {
            Err(corrupt_view("semantic snapshot target differs from relational ref"@))
        },
    }
}

/// Compares the target ref of a snapshot with its row.
pub fn validate_projected_ref(rows: &ImageRows, version: u64, snapshot: &CommittedSnapshot) -> (r:
    Result<(), RuntimeError>)
    ensures
        match r {
            Ok(()) => target_check(*rows, version, *snapshot) is Ok,
            Err(e) => target_check(*rows, version, *snapshot) == Err::<(), ErrorView>(e@),
        },
{
    match sqlite_i64(version, "table version") {
        Err(e) => {
            return Err(e);
        },
        Ok(_) => {},
    }
    let agrees: bool = match find_ref(&rows.refs, &snapshot.target_ref) {
        None => false,
        Some(row) => ids_agree(&row.snapshot_id, &Some(snapshot.snapshot_id)) && numbers_agree(
            row.updated_version,
            version,
        ),
    };
    if !agrees {
        return Err(corrupt("semantic snapshot target differs from relational ref"));
    }
    Ok(())
}

/// Whether the rows show one committed snapshot.
pub open spec fn snapshot_check(rows: ImageRows, commit: CommitFacts, snapshot: CommittedSnapshot) -> Result<
    (),
    ErrorView,
> {
    match snapshot_row(rows.snapshots@, snapshot.snapshot_id, commit.table_version) {
        None => Err(corrupt_view("semantic snapshot has no relational snapshot row"@)),
        Some(row) => if snapshot_row_check(row, snapshot, commit.created_at_ms) is Err {
            snapshot_row_check(row, snapshot, commit.created_at_ms)
        } else if summary_check(rows, snapshot) is Err {
            summary_check(rows, snapshot)
        } else if changes_check(rows, commit.table_version, snapshot) is Err {
            changes_check(rows, commit.table_version, snapshot)
        } else {
            target_check(rows, commit.table_version, snapshot)
        },
    }
}

pub open spec fn commits_snapshot(snapshots: Seq<CommittedSnapshot>, id: Id) -> bool {
    exists|i: int| 0 <= i < snapshots.len() && (#[trigger] snapshots[i]).snapshot_id == id
}

/// The committed snapshots in their order: the first that repeats another or
/// differs from its rows decides.
pub open spec fn snapshots_check(
    rows: ImageRows,
    commit: CommitFacts,
    snapshots: Seq<CommittedSnapshot>,
) -> Result<(), ErrorView>
    decreases snapshots.len(),
{
    if snapshots.len() == 0 {
        Ok(())
    } else {
        match snapshots_check(rows, commit, snapshots.drop_last()) {
            Err(e) => Err(e),
            Ok(()) => if commits_snapshot(snapshots.drop_last(), snapshots.last().snapshot_id) {
                Err(corrupt_view("semantic commit contains a duplicate snapshot identity"@))
            } else {
                snapshot_check(rows, commit, snapshots.last())
            },
        }
    }
}

/// How many snapshots were committed at a version.
pub open spec fn snapshots_at(snapshots: Seq<SnapshotRecord>, version: u64) -> nat
    decreases snapshots.len(),
{
    if snapshots.len() == 0 {
        0
    } else {
        snapshots_at(snapshots.drop_last(), version) + (if snapshots.last().committed_table_version
            == version {
            1nat
        } else {
            0nat
        })
    }
}

pub open spec fn snapshot_projection(rows: ImageRows, commit: CommitFacts) -> Result<
    (),
    ErrorView,
> {
    match stored(commit.table_version, "table version"@) {
        Err(e) => Err(e),
        Ok(_) => if snapshots_check(rows, commit, commit.snapshots@) is Err {
            snapshots_check(rows, commit, commit.snapshots@)
        } else if snapshots_at(rows.snapshots@, commit.table_version) != commit.snapshots@.len() {
            Err(
                corrupt_view("semantic snapshot operations differ from relational snapshot rows"@),
            )
        } else {
            Ok(())
        },
    }
}

proof fn lemma_snapshots_stop(
    rows: ImageRows,
    commit: CommitFacts,
    snapshots: Seq<CommittedSnapshot>,
    n: int,
)
    requires
        0 <= n <= snapshots.len(),
        snapshots_check(rows, commit, snapshots.take(n)) is Err,
    ensures
        snapshots_check(rows, commit, snapshots) == snapshots_check(
            rows,
            commit,
            snapshots.take(n),
        ),
    decreases snapshots.len(),
{
    if n < snapshots.len() {
        assert(snapshots.drop_last().take(n) =~= snapshots.take(n));
        lemma_snapshots_stop(rows, commit, snapshots.drop_last(), n);
    } else {
        assert(snapshots.take(n) =~= snapshots);
    }
}

fn check_snapshot(rows: &ImageRows, commit: &CommitFacts, snapshot: &CommittedSnapshot) -> (r: Result<
    (),
    RuntimeError,
>)
    ensures
        match r {
            Ok(()) => snapshot_check(*rows, *commit, *snapshot) is Ok,
            Err(e) => snapshot_check(*rows, *commit, *snapshot) == Err::<(), ErrorView>(e@),
        },
{
    let row = match find_snapshot(&rows.snapshots, &snapshot.snapshot_id, commit.table_version) {
        None => {
            return Err(corrupt("semantic snapshot has no relational snapshot row"));
        },
        Some(row) => row,
    };
    match validate_projected_snapshot_row(row, snapshot, commit.created_at_ms) {
        Err(e) => {
            return Err(e);
        },
        Ok(()) => {},
    }
    match validate_projected_snapshot_summary(rows, snapshot) {
        Err(e) => {
            return Err(e);
        },
        Ok(()) => {},
    }
    match validate_snapshot_changes(rows, commit.table_version, snapshot) {
        Err(e) => {
            return Err(e);
        },
        Ok(()) => {},
    }
    validate_projected_ref(rows, commit.table_version, snapshot)
}

fn count_snapshots_at(snapshots: &Vec<SnapshotRecord>, version: u64) -> (count: usize)
    ensures
        count == snapshots_at(snapshots@, version),
{
    let mut count: usize = 0;
    let mut i: usize = 0;
    assert(snapshots@.take(0) =~= Seq::<SnapshotRecord>::empty());
    while i < snapshots.len()
        invariant
            i <= snapshots@.len(),
            count <= i,
            count == snapshots_at(snapshots@.take(i as int), version),
        decreases snapshots@.len() - i,
    {
        assert(snapshots@.take(i + 1).drop_last() =~= snapshots@.take(i as int));
        if numbers_agree(snapshots[i].committed_table_version, version) {
            count = count + 1;
        }
        i = i + 1;
    }
    assert(snapshots@.take(i as int) =~= snapshots@);
    count
}

/// Compares the snapshots of a commit with their rows.
pub fn validate_snapshot_projection(rows: &ImageRows, commit: &CommitFacts) -> (r: Result<
    (),
    RuntimeError,
>)
    ensures
        match r {
            Ok(()) => snapshot_projection(*rows, *commit) is Ok,
            Err(e) => snapshot_projection(*rows, *commit) == Err::<(), ErrorView>(e@),
        },
{
    match sqlite_i64(commit.table_version, "table version") {
        Err(e) => {
            return Err(e);
        },
        Ok(_) => {},
    }
    let snapshots = &commit.snapshots;
    assert(snapshots@.take(0) =~= Seq::<CommittedSnapshot>::empty());
    let mut i: usize = 0;
    while i < snapshots.len()
        invariant
            i <= snapshots@.len(),
            *snapshots == commit.snapshots,
            stored(commit.table_version, "table version"@) is Ok,
            snapshots_check(*rows, *commit, snapshots@.take(i as int)) is Ok,
        decreases snapshots@.len() - i,
    {
        let ghost before = snapshots@.take(i as int);
        let snapshot = &snapshots[i];
        proof {
            assert(snapshots@.take(i + 1).drop_last() =~= before);
            assert(snapshots@.take(i + 1).last() == *snapshot);
            if snapshots_check(*rows, *commit, snapshots@.take(i + 1)) is Err {
                lemma_snapshots_stop(*rows, *commit, snapshots@, i + 1);
            }
        }
        let mut seen: bool = false;
        let mut j: usize = 0;
        while j < i
            invariant
                j <= i < snapshots@.len(),
                before == snapshots@.take(i as int),
                *snapshot == snapshots@[i as int],
                seen <==> exists|k: int|
                    0 <= k < j && (#[trigger] before[k]).snapshot_id == snapshot.snapshot_id,
            decreases i - j,
        {
            assert(before[j as int] == snapshots@[j as int]);
            if snapshots[j].snapshot_id == snapshot.snapshot_id {
                seen = true;
            }
            j = j + 1;
        }
        if seen {
            return Err(corrupt("semantic commit contains a duplicate snapshot identity"));
        }
        match check_snapshot(rows, commit, snapshot) {
            Err(e) => {
                return Err(e);
            },
            Ok(()) => {},
        }
        i = i + 1;
    }
    assert(snapshots@.take(i as int) =~= snapshots@);
    if count_snapshots_at(&rows.snapshots, commit.table_version) != snapshots.len() {
        return Err(corrupt("semantic snapshot operations differ from relational snapshot rows"));
    }
    Ok(())
}

/// The row of a commit, if there is one.
pub open spec fn commit_row(commits: Seq<CommitRow>, version: u64, id: Id) -> Option<CommitRow>
    decreases commits.len(),
{
    if commits.len() == 0 {
        None
    } else if commits[0].table_version == version && commits[0].commit_id == id {
        Some(commits[0])
    } else {
        commit_row(commits.skip(1), version, id)
    }
}

fn find_commit<'a>(commits: &'a Vec<CommitRow>, version: u64, id: &Id) -> (found: Option<
    &'a CommitRow,
>)
    ensures
        match found {
            Some(row) => commit_row(commits@, version, *id) == Some(*row),
            None => commit_row(commits@, version, *id) is None,
        },
{
    assert(commits@.skip(0) =~= commits@);
    let mut i: usize = 0;
    while i < commits.len()
        invariant
            i <= commits@.len(),
            commit_row(commits@, version, *id) == commit_row(
                commits@.skip(i as int),
                version,
                *id,
            ),
        decreases commits@.len() - i,
    {
        assert(commits@.skip(i as int).skip(1) =~= commits@.skip(i + 1));
        if numbers_agree(commits[i].table_version, version) && commits[i].commit_id == *id {
            return Some(&commits[i]);
        }
        i = i + 1;
    }
    None
}

/// The row of the commit at a version, if there is one.
pub open spec fn commit_at(commits: Seq<CommitRow>, version: u64) -> Option<CommitRow>
    decreases commits.len(),
{
    if commits.len() == 0 {
        None
    } else if commits[0].table_version == version {
        Some(commits[0])
    } else {
        commit_at(commits.skip(1), version)
    }
}

fn find_commit_at<'a>(commits: &'a Vec<CommitRow>, version: u64) -> (found: Option<&'a CommitRow>)
    ensures
        match found {
            Some(row) => commit_at(commits@, version) == Some(*row),
            None => commit_at(commits@, version) is None,
        },
{
    assert(commits@.skip(0) =~= commits@);
    let mut i: usize = 0;
    while i < commits.len()
        invariant
            i <= commits@.len(),
            commit_at(commits@, version) == commit_at(commits@.skip(i as int), version),
        decreases commits@.len() - i,
    {
        assert(commits@.skip(i as int).skip(1) =~= commits@.skip(i + 1));
        if numbers_agree(commits[i].table_version, version) {
            return Some(&commits[i]);
        }
        i = i + 1;
    }
    None
}

/// What is stored under an idempotency key, if anything.
pub open spec fn intent_row(intents: Seq<IntentRow>, key: Seq<char>) -> Option<IntentRow>
    decreases intents.len(),
{
    if intents.len() == 0 {
        None
    } else if intents[0].key@ == key {
        Some(intents[0])
    } else {
        intent_row(intents.skip(1), key)
    }
}

/// Finds what is stored under an idempotency key.
pub fn idempotency<'a>(intents: &'a Vec<IntentRow>, key: &String) -> (found: Option<&'a IntentRow>)
    ensures
        match found {
            Some(row) => intent_row(intents@, key@) == Some(*row),
            None => intent_row(intents@, key@) is None,
        },
{
    assert(intents@.skip(0) =~= intents@);
    let mut i: usize = 0;
    while i < intents.len()
        invariant
            i <= intents@.len(),
            intent_row(intents@, key@) == intent_row(intents@.skip(i as int), key@),
        decreases intents@.len() - i,
    {
        assert(intents@.skip(i as int).skip(1) =~= intents@.skip(i + 1));
        if intents[i].key == *key {
            return Some(&intents[i]);
        }
        i = i + 1;
    }
    None
}

pub open spec fn commit_row_is(row: CommitRow, commit: CommitFacts) -> bool {
    &&& row.intent_count == commit.intents@.len()
    &&& row.operation_json@ == commit.operations_json@
    &&& row.metadata_json@ == commit.metadata_json@
    &&& commit.intents@.len() == 1 ==> row.result_json@ == commit.intents@[0].result_json@
}

pub open spec fn intent_check(rows: ImageRows, commit: CommitFacts, intent: CommittedIntent) -> Result<
    (),
    ErrorView,
> {
    match intent_row(rows.intents@, intent.key@) {
        None => Err(corrupt_view("semantic intent has no idempotency row"@)),
        Some(row) => if row.intent == intent.intent_sha256 && row.commit_id == commit.commit_id
            && row.table_version == commit.table_version && row.result_json@
            == intent.result_json@ {
            Ok(())
        } else {
            Err(corrupt_view("semantic intent differs from idempotency row"@))
        },
    }
}

/// The intents in their order: the first that differs decides.
pub open spec fn intents_check(
    rows: ImageRows,
    commit: CommitFacts,
    intents: Seq<CommittedIntent>,
) -> Result<(), ErrorView>
    decreases intents.len(),
{
    if intents.len() == 0 {
        Ok(())
    } else {
        match intent_check(rows, commit, intents[0]) {
            Err(e) => Err(e),
            Ok(()) => intents_check(rows, commit, intents.skip(1)),
        }
    }
}

pub open spec fn no_rows() -> ErrorView {
    ErrorView::Sqlite("Query returned no rows"@)
}

pub open spec fn parent_check(rows: ImageRows, commit: CommitFacts) -> Result<(), ErrorView> {
    match commit.parent {
        None => Ok(()),
        Some(parent) => match stored(parent.table_version, "parent table version"@) {
            Err(e) => Err(e),
            Ok(_) => match commit_at(rows.commits@, parent.table_version) {
                None => Err(no_rows()),
                Some(row) => if row.uri@ == parent.uri@ && row.sha256 == parent.sha256
                    && parent.is_commit {
                    Ok(())
                } else {
                    Err(corrupt_view("semantic parent commit differs from relational history"@))
                },
            },
        },
    }
}

/// Whether the rows of an image are what its commit says: the commit's own row,
/// its snapshots, its property changes, its intents and its parent. The first
/// that differs decides. `properties` is what comparing the property changes
/// found.
pub open spec fn commit_projection(
    rows: ImageRows,
    commit: CommitFacts,
    properties: Result<(), ErrorView>,
) -> Result<(), ErrorView> {
    match stored(commit.table_version, "table version"@) {
        Err(e) => Err(e),
        Ok(_) => match commit_row(rows.commits@, commit.table_version, commit.commit_id) {
            None => Err(no_rows()),
            Some(row) => if !commit_row_is(row, commit) {
                Err(
                    corrupt_view(
                        "semantic commit projection differs from relational commit row"@,
                    ),
                )
            } else if snapshot_projection(rows, commit) is Err {
                snapshot_projection(rows, commit)
            } else if properties is Err {
                properties
            } else if intents_check(rows, commit, commit.intents@) is Err {
                intents_check(rows, commit, commit.intents@)
            } else {
                parent_check(rows, commit)
            },
        },
    }
}

fn check_intents(rows: &ImageRows, commit: &CommitFacts) -> (r: Result<(), RuntimeError>)
    ensures
        match r {
            Ok(()) => intents_check(*rows, *commit, commit.intents@) is Ok,
            Err(e) => intents_check(*rows, *commit, commit.intents@) == Err::<(), ErrorView>(e@),
        },
{
    let intents = &commit.intents;
    assert(intents@.skip(0) =~= intents@);
    let mut i: usize = 0;
    while i < intents.len()
        invariant
            i <= intents@.len(),
            *intents == commit.intents,
            intents_check(*rows, *commit, intents@) == intents_check(
                *rows,
                *commit,
                intents@.skip(i as int),
            ),
        decreases intents@.len() - i,
    {
        assert(intents@.skip(i as int).skip(1) =~= intents@.skip(i + 1));
        let intent = &intents[i];
        match idempotency(&rows.intents, &intent.key) {
            None => {
                return Err(corrupt("semantic intent has no idempotency row"));
            },
            Some(row) => {
                if row.intent != intent.intent_sha256 || row.commit_id != commit.commit_id
                    || !numbers_agree(row.table_version, commit.table_version) || row.result_json
                    != intent.result_json {
                    return Err(corrupt("semantic intent differs from idempotency row"));
                }
            },
        }
        i = i + 1;
    }
    Ok(())
}

fn check_parent(rows: &ImageRows, commit: &CommitFacts) -> (r: Result<(), RuntimeError>)
    ensures
        match r {
            Ok(()) => parent_check(*rows, *commit) is Ok,
            Err(e) => parent_check(*rows, *commit) == Err::<(), ErrorView>(e@),
        },
{
    let parent = match &commit.parent {
        None => {
            return Ok(());
        },
        Some(parent) => parent,
    };
    match sqlite_i64(parent.table_version, "parent table version") {
        Err(e) => {
            return Err(e);
        },
        Ok(_) => {},
    }
    match find_commit_at(&rows.commits, parent.table_version) {
        None => Err(RuntimeError::Sqlite("Query returned no rows".to_owned())),
        Some(row) => if row.uri == parent.uri && row.sha256 == parent.sha256 && parent.is_commit {
            Ok(())
        } else {
            Err(corrupt("semantic parent commit differs from relational history"))
        },
    }
}

/// Compares a commit with the rows of its image.
pub fn validate_commit_projection(
    rows: &ImageRows,
    commit: &CommitFacts,
    properties: Result<(), RuntimeError>,
) -> (r: Result<(), RuntimeError>)
    ensures
        ({
            let compared = match properties {
                Ok(()) => Ok(()),
                Err(e) => Err(e@),
            };
            match r {
                Ok(()) => commit_projection(*rows, *commit, compared) is Ok,
                Err(e) => commit_projection(*rows, *commit, compared) == Err::<(), ErrorView>(e@),
            }
        }),
{
    match sqlite_i64(commit.table_version, "table version") {
        Err(e) => {
            return Err(e);
        },
        Ok(_) => {},
    }
    let row = match find_commit(&rows.commits, commit.table_version, &commit.commit_id) {
        None => {
            return Err(RuntimeError::Sqlite("Query returned no rows".to_owned()));
        },
        Some(row) => row,
    };
    if row.intent_count < 0 || row.intent_count as u64 != commit.intents.len() as u64
        || row.operation_json != commit.operations_json || row.metadata_json != commit.metadata_json
        || (commit.intents.len() == 1 && row.result_json != commit.intents[0].result_json) {
        return Err(corrupt("semantic commit projection differs from relational commit row"));
    }
    match validate_snapshot_projection(rows, commit) {
        Err(e) => {
            return Err(e);
        },
        Ok(()) => {},
    }
    match properties {
        Err(e) => {
            return Err(e);
        },
        Ok(()) => {},
    }
    match check_intents(rows, commit) {
        Err(e) => {
            return Err(e);
        },
        Ok(()) => {},
    }
    check_parent(rows, commit)
}

/// A property as it is stored.
#[derive(Debug)]
pub struct PropertyRecord {
    pub key: String,
    pub value_json: String,
    pub updated_version: i64,
}

/// A change of properties that a commit makes, its values in canonical text.
#[derive(Debug)]
pub struct PropertyChange {
    pub updates: Vec<SummaryEntry>,
    pub removals: Vec<String>,
}

/// The stored property, if it is set.
pub open spec fn property_record(rows: Seq<PropertyRecord>, key: Seq<char>) -> Option<
    PropertyRecord,
>
    decreases rows.len(),
{
    if rows.len() == 0 {
        None
    } else if rows[0].key@ == key {
        Some(rows[0])
    } else {
        property_record(rows.skip(1), key)
    }
}

fn find_property<'a>(rows: &'a Vec<PropertyRecord>, key: &String) -> (found: Option<
    &'a PropertyRecord,
>)
    ensures
        match found {
            Some(row) => property_record(rows@, key@) == Some(*row),
            None => property_record(rows@, key@) is None,
        },
{
    assert(rows@.skip(0) =~= rows@);
    let mut i: usize = 0;
    while i < rows.len()
        invariant
            i <= rows@.len(),
            property_record(rows@, key@) == property_record(rows@.skip(i as int), key@),
        decreases rows@.len() - i,
    {
        assert(rows@.skip(i as int).skip(1) =~= rows@.skip(i + 1));
        if rows[i].key == *key {
            return Some(&rows[i]);
        }
        i = i + 1;
    }
    None
}

/// The rows show a change: what it sets is set since its version, and what it
/// removes is gone.
pub open spec fn change_shown(rows: Seq<PropertyRecord>, change: PropertyChange, version: i64) -> bool {
    &&& forall|i: int|
        0 <= i < change.updates@.len() ==> (property_record(
            rows,
            (#[trigger] change.updates@[i]).key@,
        ) matches Some(row) && row.value_json@ == change.updates@[i].value_json@
            && row.updated_version == version)
    &&& forall|i: int|
        0 <= i < change.removals@.len() ==> property_record(
            rows,
            (#[trigger] change.removals@[i])@,
        ) is None
}

pub open spec fn metadata_projection(
    rows: Seq<PropertyRecord>,
    changes: Seq<PropertyChange>,
    version: u64,
) -> Result<(), ErrorView> {
    match stored(version, "version"@) {
        Err(e) => Err(e),
        Ok(v) => if forall|i: int|
            0 <= i < changes.len() ==> change_shown(rows, #[trigger] changes[i], v) {
            Ok(())
        } else {
            Err(corrupt_view("metadata operation differs from relational projection"@))
        },
    }
}

fn is_change_shown(rows: &Vec<PropertyRecord>, change: &PropertyChange, version: i64) -> (shown:
    bool)
    ensures
        shown == change_shown(rows@, *change, version),
{
    let mut i: usize = 0;
    while i < change.updates.len()
        invariant
            i <= change.updates@.len(),
            forall|k: int|
                0 <= k < i ==> (property_record(
                    rows@,
                    (#[trigger] change.updates@[k]).key@,
                ) matches Some(row) && row.value_json@ == change.updates@[k].value_json@
                    && row.updated_version == version),
        decreases change.updates@.len() - i,
    {
        match find_property(rows, &change.updates[i].key) {
            None => {
                return false;
            },
            Some(row) => {
                if row.value_json != change.updates[i].value_json || row.updated_version
                    != version {
                    return false;
                }
            },
        }
        i = i + 1;
    }
    let mut j: usize = 0;
    while j < change.removals.len()
        invariant
            j <= change.removals@.len(),
            forall|k: int|
                0 <= k < j ==> property_record(rows@, (#[trigger] change.removals@[k])@) is None,
        decreases change.removals@.len() - j,
    {
        if find_property(rows, &change.removals[j]).is_some() {
            return false;
        }
        j = j + 1;
    }
    true
}

/// Compares the property changes of a commit with the stored properties.
pub fn validate_metadata_projection(
    rows: &Vec<PropertyRecord>,
    changes: &Vec<PropertyChange>,
    version: u64,
) -> (r: Result<(), RuntimeError>)
    ensures
        match r {
            Ok(()) => metadata_projection(rows@, changes@, version) is Ok,
            Err(e) => metadata_projection(rows@, changes@, version) == Err::<(), ErrorView>(e@),
        },
{
    let v: i64 = match sqlite_i64(version, "version") {
        Err(e) => {
            return Err(e);
        },
        Ok(v) => v,
    };
    let mut i: usize = 0;
    while i < changes.len()
        invariant
            i <= changes@.len(),
            stored(version, "version"@) == Ok::<i64, ErrorView>(v),
            forall|k: int| 0 <= k < i ==> change_shown(rows@, #[trigger] changes@[k], v),
        decreases changes@.len() - i,
    {
        if !is_change_shown(rows, &changes[i], v) {
            assert(!change_shown(rows@, changes@[i as int], v));
            return Err(corrupt("metadata operation differs from relational projection"));
        }
        i = i + 1;
    }
    Ok(())
}

/// Whether an image is what its commit says: its rows, and among them the stored
/// properties as the commit changed them.
pub open spec fn projection(
    rows: ImageRows,
    properties: Seq<PropertyRecord>,
    commit: CommitFacts,
    changes: Seq<PropertyChange>,
) -> Result<(), ErrorView> {
    commit_projection(rows, commit, metadata_projection(properties, changes, commit.table_version))
}

/// Compares a commit, with its property changes, with its image.
pub fn validate_projection(
    rows: &ImageRows,
    properties: &Vec<PropertyRecord>,
    commit: &CommitFacts,
    changes: &Vec<PropertyChange>,
) -> (r: Result<(), RuntimeError>)
    ensures
        match r {
            Ok(()) => projection(*rows, properties@, *commit, changes@) is Ok,
            Err(e) => projection(*rows, properties@, *commit, changes@) == Err::<(), ErrorView>(
                e@,
            ),
        },
{
    let compared = validate_metadata_projection(properties, changes, commit.table_version);
    validate_commit_projection(rows, commit, compared)
}

// ----------------------------------------------------- what the rows fix

proof fn lemma_intent_checked(
    rows: ImageRows,
    commit: CommitFacts,
    intents: Seq<CommittedIntent>,
    i: int,
)
    requires
        intents_check(rows, commit, intents) is Ok,
        0 <= i < intents.len(),
    ensures
        intent_check(rows, commit, intents[i]) is Ok,
    decreases intents.len(),
{
    if i > 0 {
        lemma_intent_checked(rows, commit, intents.skip(1), i - 1);
    }
}

proof fn lemma_snapshot_checked(
    rows: ImageRows,
    commit: CommitFacts,
    snapshots: Seq<CommittedSnapshot>,
    i: int,
)
    requires
        snapshots_check(rows, commit, snapshots) is Ok,
        0 <= i < snapshots.len(),
    ensures
        snapshot_check(rows, commit, snapshots[i]) is Ok,
    decreases snapshots.len(),
{
    if i < snapshots.len() - 1 {
        lemma_snapshot_checked(rows, commit, snapshots.drop_last(), i);
    }
}

proof fn lemma_file_checked(
    rows: ImageRows,
    version: u64,
    snapshot: CommittedSnapshot,
    files: Seq<CommittedData>,
    i: int,
)
    requires
        added_check(rows, version, snapshot, files) is Ok,
        0 <= i < files.len(),
    ensures
        file_check(rows, version, snapshot, files[i]) is Ok,
    decreases files.len(),
{
    if i > 0 {
        lemma_file_checked(rows, version, snapshot, files.skip(1), i - 1);
    }
}

/// Two metrics that say the same.
pub open spec fn same_metric(a: CommittedMetric, b: CommittedMetric) -> bool {
    &&& a.field_id == b.field_id
    &&& a.column_size_bytes == b.column_size_bytes
    &&& a.value_count == b.value_count
    &&& a.null_count == b.null_count
    &&& a.nan_count == b.nan_count
    &&& a.distinct_count == b.distinct_count
    &&& blob_view(a.lower_bound_cbor) == blob_view(b.lower_bound_cbor)
    &&& blob_view(a.upper_bound_cbor) == blob_view(b.upper_bound_cbor)
    &&& a.metadata_json@ == b.metadata_json@
}

pub open spec fn says_metric(metrics: Seq<CommittedMetric>, metric: CommittedMetric) -> bool {
    exists|i: int| 0 <= i < metrics.len() && same_metric(metric, #[trigger] metrics[i])
}

/// Two files that say the same, metrics in any order.
pub open spec fn same_data(a: CommittedData, b: CommittedData) -> bool {
    &&& a.uri@ == b.uri@
    &&& text_view(a.object_identity) == text_view(b.object_identity)
    &&& a.file_format@ == b.file_format@
    &&& a.file_size_bytes == b.file_size_bytes
    &&& a.record_count == b.record_count
    &&& a.schema_id == b.schema_id
    &&& a.partition_spec_id == b.partition_spec_id
    &&& a.sort_order_id == b.sort_order_id
    &&& a.content_sha256 == b.content_sha256
    &&& a.partition_values_cbor@ == b.partition_values_cbor@
    &&& a.partition_hash == b.partition_hash
    &&& a.metadata_json@ == b.metadata_json@
    &&& a.metrics@.len() == b.metrics@.len()
    &&& forall|i: int|
        0 <= i < a.metrics@.len() ==> says_metric(b.metrics@, #[trigger] a.metrics@[i])
}

/// Two snapshots that say the same, files in any order.
pub open spec fn same_snapshot(a: CommittedSnapshot, b: CommittedSnapshot) -> bool {
    &&& a.parent_snapshot_id == b.parent_snapshot_id
    &&& a.sequence_number == b.sequence_number
    &&& a.schema_id == b.schema_id
    &&& a.partition_spec_id == b.partition_spec_id
    &&& a.sort_order_id == b.sort_order_id
    &&& a.operation@ == b.operation@
    &&& a.summary_json@ == b.summary_json@
    &&& a.metadata_json@ == b.metadata_json@
    &&& forall|file: Id| #[trigger] adds(a, file) == adds(b, file)
    &&& forall|file: Id|
        a.removed_file_ids@.contains(file) == #[trigger] b.removed_file_ids@.contains(file)
    &&& forall|i: int, j: int|
        #![trigger a.added_files@[i], b.added_files@[j]]
        0 <= i < a.added_files@.len() && 0 <= j < b.added_files@.len() && a.added_files@[i].file_id
            == b.added_files@[j].file_id ==> same_data(a.added_files@[i], b.added_files@[j])
}

/// Two commits that say the same in all that their rows record.
pub open spec fn same_record(a: CommitFacts, b: CommitFacts) -> bool {
    &&& a.operations_json@ == b.operations_json@
    &&& a.metadata_json@ == b.metadata_json@
    &&& a.intents@.len() == b.intents@.len()
    &&& forall|i: int, j: int|
        #![trigger a.intents@[i], b.intents@[j]]
        0 <= i < a.intents@.len() && 0 <= j < b.intents@.len() && a.intents@[i].key@
            == b.intents@[j].key@ ==> a.intents@[i].intent_sha256 == b.intents@[j].intent_sha256
            && a.intents@[i].result_json@ == b.intents@[j].result_json@
    &&& a.parent matches Some(x) ==> (b.parent matches Some(y) ==> (x.table_version
        == y.table_version ==> x.uri@ == y.uri@ && x.sha256 == y.sha256))
    &&& a.snapshots@.len() == b.snapshots@.len()
    &&& forall|i: int, j: int|
        #![trigger a.snapshots@[i], b.snapshots@[j]]
        0 <= i < a.snapshots@.len() && 0 <= j < b.snapshots@.len() && a.snapshots@[i].snapshot_id
            == b.snapshots@[j].snapshot_id ==> same_snapshot(a.snapshots@[i], b.snapshots@[j])
            && a.created_at_ms == b.created_at_ms
}

proof fn lemma_same_data(
    rows: ImageRows,
    version: u64,
    s: CommittedSnapshot,
    t: CommittedSnapshot,
    a: CommittedData,
    b: CommittedData,
)
    requires
        file_check(rows, version, s, a) is Ok,
        file_check(rows, version, t, b) is Ok,
        a.file_id == b.file_id,
    ensures
        same_data(a, b),
{
    assert forall|i: int| 0 <= i < a.metrics@.len() implies says_metric(
        b.metrics@,
        #[trigger] a.metrics@[i],
    ) by {
        let all = rows.metrics@;
        assert(has_metric_row(all, a.file_id, a.metrics@[i]));
        let k = choose|k: int|
            0 <= k < all.len() && (#[trigger] all[k]).file_id == a.file_id && metric_row_is(
                all[k],
                a.metrics@[i],
            );
        assert(has_metric(b.metrics@, all[k]));
        let j = choose|j: int|
            0 <= j < b.metrics@.len() && metric_row_is(all[k], #[trigger] b.metrics@[j]);
        assert(same_metric(a.metrics@[i], b.metrics@[j]));
    }
}

proof fn lemma_same_snapshot(
    rows: ImageRows,
    a: CommitFacts,
    b: CommitFacts,
    s: CommittedSnapshot,
    t: CommittedSnapshot,
)
    requires
        snapshot_check(rows, a, s) is Ok,
        snapshot_check(rows, b, t) is Ok,
        a.table_version == b.table_version,
        s.snapshot_id == t.snapshot_id,
    ensures
        same_snapshot(s, t),
        a.created_at_ms == b.created_at_ms,
{
    reveal_strlit("add");
    reveal_strlit("remove");
    assert("add"@.len() != "remove"@.len());
    let id = s.snapshot_id;
    assert forall|file: Id| #[trigger] adds(s, file) == adds(t, file) by {
        assert(has_change(rows.changes@, id, file, "add"@) <==> commits_change(s, file, "add"@));
        assert(has_change(rows.changes@, id, file, "add"@) <==> commits_change(t, file, "add"@));
    }
    assert forall|file: Id|
        s.removed_file_ids@.contains(file) == #[trigger] t.removed_file_ids@.contains(file) by {
        assert(has_change(rows.changes@, id, file, "remove"@) <==> commits_change(
            s,
            file,
            "remove"@,
        ));
        assert(has_change(rows.changes@, id, file, "remove"@) <==> commits_change(
            t,
            file,
            "remove"@,
        ));
    }
    assert forall|i: int, j: int|
        #![trigger s.added_files@[i], t.added_files@[j]]
        0 <= i < s.added_files@.len() && 0 <= j < t.added_files@.len() && s.added_files@[i].file_id
            == t.added_files@[j].file_id implies same_data(
        s.added_files@[i],
        t.added_files@[j],
    ) by {
        lemma_file_checked(rows, a.table_version, s, s.added_files@, i);
        lemma_file_checked(rows, b.table_version, t, t.added_files@, j);
        lemma_same_data(rows, a.table_version, s, t, s.added_files@[i], t.added_files@[j]);
    }
}

/// The rows of an image fix its commit: two commits of one version and identity
/// that are both accepted say the same. So one in which a recorded value was
/// changed is refused on rows that the unchanged one was accepted on.
pub proof fn lemma_rows_fix_the_commit(
    rows: ImageRows,
    a: CommitFacts,
    b: CommitFacts,
    first: Result<(), ErrorView>,
    second: Result<(), ErrorView>,
)
    requires
        a.table_version == b.table_version,
        a.commit_id == b.commit_id,
        commit_projection(rows, a, first) is Ok,
        commit_projection(rows, b, second) is Ok,
    ensures
        same_record(a, b),
{
    assert forall|i: int, j: int|
        #![trigger a.intents@[i], b.intents@[j]]
        0 <= i < a.intents@.len() && 0 <= j < b.intents@.len() && a.intents@[i].key@
            == b.intents@[j].key@ implies a.intents@[i].intent_sha256
        == b.intents@[j].intent_sha256 && a.intents@[i].result_json@
        == b.intents@[j].result_json@ by {
        lemma_intent_checked(rows, a, a.intents@, i);
        lemma_intent_checked(rows, b, b.intents@, j);
    }
    assert forall|i: int, j: int|
        #![trigger a.snapshots@[i], b.snapshots@[j]]
        0 <= i < a.snapshots@.len() && 0 <= j < b.snapshots@.len() && a.snapshots@[i].snapshot_id
            == b.snapshots@[j].snapshot_id implies same_snapshot(
        a.snapshots@[i],
        b.snapshots@[j],
    ) && a.created_at_ms == b.created_at_ms by {
        lemma_snapshot_checked(rows, a, a.snapshots@, i);
        lemma_snapshot_checked(rows, b, b.snapshots@, j);
        lemma_same_snapshot(rows, a, b, a.snapshots@[i], b.snapshots@[j]);
    }
}


// ---------------------------------------------------- what the commit fixes

/// What a stored count says. One that is negative says nothing.
pub open spec fn count_of(stored: Option<i64>) -> Option<i64> {
    match stored {
        Some(n) => if n >= 0 {
            Some(n)
        } else {
            None
        },
        None => None,
    }
}

/// Two metric rows that say the same.
pub open spec fn same_metric_row(a: MetricRecord, b: MetricRecord) -> bool {
    &&& a.field_id == b.field_id
    &&& count_of(a.column_size_bytes) == count_of(b.column_size_bytes)
    &&& count_of(a.value_count) == count_of(b.value_count)
    &&& count_of(a.null_count) == count_of(b.null_count)
    &&& count_of(a.nan_count) == count_of(b.nan_count)
    &&& count_of(a.distinct_count) == count_of(b.distinct_count)
    &&& blob_view(a.lower_bound_cbor) == blob_view(b.lower_bound_cbor)
    &&& blob_view(a.upper_bound_cbor) == blob_view(b.upper_bound_cbor)
    &&& a.bloom_filter_uri is None && b.bloom_filter_uri is None
    &&& a.bloom_filter_sha256 is None && b.bloom_filter_sha256 is None
    &&& a.metadata_json@ == b.metadata_json@
}

pub open spec fn holds_metric_row(rows: Seq<MetricRecord>, row: MetricRecord) -> bool {
    exists|i: int|
        0 <= i < rows.len() && (#[trigger] rows[i]).file_id == row.file_id && same_metric_row(
            row,
            rows[i],
        )
}

/// Two file rows that say the same.
pub open spec fn same_file_row(a: FileRecord, b: FileRecord) -> bool {
    &&& a.file_kind@ == b.file_kind@
    &&& a.uri@ == b.uri@
    &&& text_view(a.object_identity) == text_view(b.object_identity)
    &&& a.file_format@ == b.file_format@
    &&& a.file_size_bytes == b.file_size_bytes
    &&& a.record_count == b.record_count
    &&& a.schema_id == b.schema_id
    &&& a.partition_spec_id == b.partition_spec_id
    &&& a.sort_order_id == b.sort_order_id
    &&& a.partition_values_cbor@ == b.partition_values_cbor@
    &&& a.partition_hash == b.partition_hash
    &&& a.content_sha256 == b.content_sha256
    &&& a.encryption_metadata is None && b.encryption_metadata is None
    &&& a.data_sequence_number == b.data_sequence_number
    &&& a.file_sequence_number == b.file_sequence_number
    &&& a.created_snapshot_id == b.created_snapshot_id
    &&& a.created_version == b.created_version
    &&& a.metadata_json@ == b.metadata_json@
}

/// The rows of an added file say the same in both images: its own, where it is
/// live, and its metrics, in any order.
pub open spec fn same_file_rows(a: ImageRows, b: ImageRows, name: Seq<char>, file: Id) -> bool {
    &&& file_row(a.files@, file) matches Some(x) && file_row(b.files@, file) matches Some(y)
        && same_file_row(x, y)
    &&& live_row(a.live@, name, file) matches Some(x) && live_row(b.live@, name, file) matches Some(
        y,
    ) && x.added_snapshot_id == y.added_snapshot_id && x.data_sequence_number
        == y.data_sequence_number && x.file_sequence_number == y.file_sequence_number
    &&& metric_rows(a.metrics@, file) == metric_rows(b.metrics@, file)
    &&& forall|i: int|
        0 <= i < a.metrics@.len() && (#[trigger] a.metrics@[i]).file_id == file
            ==> holds_metric_row(b.metrics@, a.metrics@[i])
}

/// Two snapshot rows that say the same.
pub open spec fn same_snapshot_row(a: SnapshotRecord, b: SnapshotRecord) -> bool {
    &&& a.row.parent_snapshot_id == b.row.parent_snapshot_id
    &&& a.row.sequence_number == b.row.sequence_number
    &&& a.schema_id == b.schema_id
    &&& a.partition_spec_id == b.partition_spec_id
    &&& a.sort_order_id == b.sort_order_id
    &&& a.operation@ == b.operation@
    &&& a.committed_table_version == b.committed_table_version
    &&& a.committed_at_ms == b.committed_at_ms
    &&& a.scan_root_uri is None && b.scan_root_uri is None
    &&& a.scan_root_sha256 is None && b.scan_root_sha256 is None
    &&& a.summary_json@ == b.summary_json@
    &&& a.metadata_json@ == b.metadata_json@
}

/// The rows of a snapshot say the same in both images: its own, its summary, its
/// file changes, its target ref, and those of its added files.
pub open spec fn same_snapshot_rows(
    a: ImageRows,
    b: ImageRows,
    version: u64,
    snapshot: CommittedSnapshot,
) -> bool {
    let id = snapshot.snapshot_id;
    &&& snapshot_row(a.snapshots@, id, version) matches Some(x) && snapshot_row(
        b.snapshots@,
        id,
        version,
    ) matches Some(y) && same_snapshot_row(x, y)
    &&& forall|key: Seq<char>| #[trigger]
        summary_value(a.summaries@, id, key) == summary_value(b.summaries@, id, key)
    &&& forall|file: Id, kind: Seq<char>| #[trigger]
        has_change(a.changes@, id, file, kind) == has_change(b.changes@, id, file, kind)
    &&& ref_record(a.refs@, snapshot.target_ref@) matches Some(x) && ref_record(
        b.refs@,
        snapshot.target_ref@,
    ) matches Some(y) && x.snapshot_id == y.snapshot_id && x.updated_version == y.updated_version
    &&& forall|file: Id| #[trigger]
        has_created(a.files@, snapshot, version, file) == has_created(
            b.files@,
            snapshot,
            version,
            file,
        )
    &&& forall|i: int|
        0 <= i < snapshot.added_files@.len() ==> same_file_rows(
            a,
            b,
            snapshot.target_ref@,
            (#[trigger] snapshot.added_files@[i]).file_id,
        )
}

/// Two intent rows that say the same.
pub open spec fn same_intent_row(a: IntentRow, b: IntentRow) -> bool {
    &&& a.intent == b.intent
    &&& a.commit_id == b.commit_id
    &&& a.table_version == b.table_version
    &&& a.result_json@ == b.result_json@
}

/// Two images whose rows say the same of a commit.
pub open spec fn same_rows(a: ImageRows, b: ImageRows, commit: CommitFacts) -> bool {
    &&& commit_row(a.commits@, commit.table_version, commit.commit_id) matches Some(x)
        && commit_row(b.commits@, commit.table_version, commit.commit_id) matches Some(y)
        && x.intent_count == y.intent_count && x.operation_json@ == y.operation_json@
        && x.metadata_json@ == y.metadata_json@ && (commit.intents@.len() == 1 ==> x.result_json@
        == y.result_json@)
    &&& commit.parent matches Some(parent) ==> {
        &&& commit_at(a.commits@, parent.table_version) matches Some(x) && commit_at(
            b.commits@,
            parent.table_version,
        ) matches Some(y) && x.uri@ == y.uri@ && x.sha256 == y.sha256
    }
    &&& forall|i: int|
        0 <= i < commit.intents@.len() ==> {
            &&& intent_row(a.intents@, (#[trigger] commit.intents@[i]).key@) matches Some(x)
                && intent_row(b.intents@, commit.intents@[i].key@) matches Some(y)
                && same_intent_row(x, y)
        }
    &&& snapshots_at(a.snapshots@, commit.table_version) == snapshots_at(
        b.snapshots@,
        commit.table_version,
    )
    &&& forall|i: int|
        0 <= i < commit.snapshots@.len() ==> same_snapshot_rows(
            a,
            b,
            commit.table_version,
            #[trigger] commit.snapshots@[i],
        )
}

proof fn lemma_same_metric_row(a: MetricRecord, b: MetricRecord, metric: CommittedMetric)
    requires
        metric_row_is(a, metric),
        metric_row_is(b, metric),
    ensures
        same_metric_row(a, b),
{
}

proof fn lemma_same_file_row(
    a: FileRecord,
    b: FileRecord,
    file: CommittedData,
    snapshot: CommittedSnapshot,
    version: u64,
)
    requires
        file_row_is(a, file, snapshot, version),
        file_row_is(b, file, snapshot, version),
    ensures
        same_file_row(a, b),
{
}

proof fn lemma_same_metric_rows(a: Seq<MetricRecord>, b: Seq<MetricRecord>, file: CommittedData)
    requires
        metrics_agree(a, file),
        metrics_agree(b, file),
    ensures
        metric_rows(a, file.file_id) == metric_rows(b, file.file_id),
        forall|i: int|
            0 <= i < a.len() && (#[trigger] a[i]).file_id == file.file_id ==> holds_metric_row(
                b,
                a[i],
            ),
{
    assert forall|i: int|
        0 <= i < a.len() && (#[trigger] a[i]).file_id == file.file_id implies holds_metric_row(
        b,
        a[i],
    ) by {
        assert(has_metric(file.metrics@, a[i]));
        let k = choose|k: int|
            0 <= k < file.metrics@.len() && metric_row_is(a[i], #[trigger] file.metrics@[k]);
        assert(has_metric_row(b, file.file_id, file.metrics@[k]));
        let j = choose|j: int|
            0 <= j < b.len() && (#[trigger] b[j]).file_id == file.file_id && metric_row_is(
                b[j],
                file.metrics@[k],
            );
        lemma_same_metric_row(a[i], b[j], file.metrics@[k]);
    }
}

proof fn lemma_same_file_rows(
    a: ImageRows,
    b: ImageRows,
    version: u64,
    snapshot: CommittedSnapshot,
    file: CommittedData,
)
    requires
        file_check(a, version, snapshot, file) is Ok,
        file_check(b, version, snapshot, file) is Ok,
    ensures
        same_file_rows(a, b, snapshot.target_ref@, file.file_id),
{
    lemma_same_file_row(
        file_row(a.files@, file.file_id)->0,
        file_row(b.files@, file.file_id)->0,
        file,
        snapshot,
        version,
    );
    lemma_same_metric_rows(a.metrics@, b.metrics@, file);
}

proof fn lemma_snapshot_row_version(snapshots: Seq<SnapshotRecord>, id: Id, version: u64)
    ensures
        snapshot_row(snapshots, id, version) matches Some(row) ==> row.committed_table_version
            == version,
    decreases snapshots.len(),
{
    if snapshots.len() > 0 {
        lemma_snapshot_row_version(snapshots.skip(1), id, version);
    }
}

proof fn lemma_same_snapshot_rows(
    a: ImageRows,
    b: ImageRows,
    commit: CommitFacts,
    snapshot: CommittedSnapshot,
)
    requires
        snapshot_check(a, commit, snapshot) is Ok,
        snapshot_check(b, commit, snapshot) is Ok,
    ensures
        same_snapshot_rows(a, b, commit.table_version, snapshot),
{
    let id = snapshot.snapshot_id;
    let version = commit.table_version;
    lemma_snapshot_row_version(a.snapshots@, id, version);
    lemma_snapshot_row_version(b.snapshots@, id, version);
    let entries = snapshot.summary->0@;
    assert forall|key: Seq<char>| #[trigger]
        summary_value(a.summaries@, id, key) == summary_value(b.summaries@, id, key) by {
        assert(summary_value(a.summaries@, id, key) == entry_value(entries, key));
        assert(summary_value(b.summaries@, id, key) == entry_value(entries, key));
    }
    assert forall|file: Id, kind: Seq<char>| #[trigger]
        has_change(a.changes@, id, file, kind) == has_change(b.changes@, id, file, kind) by {
        assert(has_change(a.changes@, id, file, kind) <==> commits_change(snapshot, file, kind));
        assert(has_change(b.changes@, id, file, kind) <==> commits_change(snapshot, file, kind));
    }
    assert forall|file: Id| #[trigger]
        has_created(a.files@, snapshot, version, file) == has_created(
            b.files@,
            snapshot,
            version,
            file,
        ) by {
        assert(has_created(a.files@, snapshot, version, file) <==> adds(snapshot, file));
        assert(has_created(b.files@, snapshot, version, file) <==> adds(snapshot, file));
    }
    assert forall|i: int| 0 <= i < snapshot.added_files@.len() implies same_file_rows(
        a,
        b,
        snapshot.target_ref@,
        (#[trigger] snapshot.added_files@[i]).file_id,
    ) by {
        lemma_file_checked(a, version, snapshot, snapshot.added_files@, i);
        lemma_file_checked(b, version, snapshot, snapshot.added_files@, i);
        lemma_same_file_rows(a, b, version, snapshot, snapshot.added_files@[i]);
    }
}

/// A commit fixes the rows of its image: two images that are both accepted for it
/// say the same of it. So one in which such a row was changed is refused for the
/// commit that the unchanged one was accepted for.
pub proof fn lemma_commit_fixes_the_rows(
    a: ImageRows,
    b: ImageRows,
    commit: CommitFacts,
    first: Result<(), ErrorView>,
    second: Result<(), ErrorView>,
)
    requires
        commit_projection(a, commit, first) is Ok,
        commit_projection(b, commit, second) is Ok,
    ensures
        same_rows(a, b, commit),
{
    assert forall|i: int| 0 <= i < commit.intents@.len() implies {
        &&& intent_row(a.intents@, (#[trigger] commit.intents@[i]).key@) matches Some(x)
            && intent_row(b.intents@, commit.intents@[i].key@) matches Some(y) && same_intent_row(
            x,
            y,
        )
    } by {
        lemma_intent_checked(a, commit, commit.intents@, i);
        lemma_intent_checked(b, commit, commit.intents@, i);
    }
    assert forall|i: int| 0 <= i < commit.snapshots@.len() implies same_snapshot_rows(
        a,
        b,
        commit.table_version,
        #[trigger] commit.snapshots@[i],
    ) by {
        lemma_snapshot_checked(a, commit, commit.snapshots@, i);
        lemma_snapshot_checked(b, commit, commit.snapshots@, i);
        lemma_same_snapshot_rows(a, b, commit, commit.snapshots@[i]);
    }
}

/// A commit fixes the stored properties that it changes: two images that are both
/// accepted for it store the same value, since the same version, under each key
/// that it updates, and none under each that it removes.
pub proof fn lemma_commit_fixes_the_properties(
    a: Seq<PropertyRecord>,
    b: Seq<PropertyRecord>,
    changes: Seq<PropertyChange>,
    version: u64,
    i: int,
    key: Seq<char>,
)
    requires
        metadata_projection(a, changes, version) is Ok,
        metadata_projection(b, changes, version) is Ok,
        0 <= i < changes.len(),
        changes_key(changes[i], key),
    ensures
        match (property_record(a, key), property_record(b, key)) {
            (Some(x), Some(y)) => x.value_json@ == y.value_json@ && x.updated_version
                == y.updated_version,
            (None, None) => true,
            _ => false,
        },
{
    assert(change_shown(a, changes[i], version as i64));
    assert(change_shown(b, changes[i], version as i64));
}

/// Whether a change updates or removes a key.
pub open spec fn changes_key(change: PropertyChange, key: Seq<char>) -> bool {
    ||| exists|k: int|
        0 <= k < change.updates@.len() && (#[trigger] change.updates@[k]).key@ == key
    ||| exists|k: int|
        0 <= k < change.removals@.len() && (#[trigger] change.removals@[k])@ == key
}

} // verus!
